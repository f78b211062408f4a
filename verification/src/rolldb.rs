//! The rollback-aware store: the WAL log of chain events, the canonical
//! chain index, and the block-body index, with the operations that append,
//! roll back, read and compact.

use vstd::prelude::*;

use crate::kv::{
    lemma_pair_map_dom, lemma_pair_map_insert, lemma_pair_map_remove, lemma_pair_map_update,
    pair_map, unique_keys,
};
use crate::log::{
    lemma_causal_push, lemma_stack_blocks_applied, lemma_stack_cut_range, lemma_stack_len,
    lemma_stack_mark, lemma_stack_pop, lemma_stack_push, stack_cut, wal_stack,
};
use crate::types::{
    block_point, clone_bytes, entry_point, entry_slot, point_slot, BlockHash, BlockModel,
    ChainPoint, Error, LogModel, LogValue, RawBlock,
};

verus! {

/// Slot `s` lies within the rollback horizon `k` of tip slot `tip`:
/// the tip is at most `k` slots past `s`. Compaction stops here.
pub open spec fn within_horizon(tip: u64, k: u64, s: u64) -> bool {
    tip <= s + k
}

/// The slot of the WAL tip, or 0 for an empty WAL.
pub open spec fn tip_slot_of(entries: Seq<(u64, LogModel)>) -> u64 {
    match tip_of(entries) {
        Option::None => 0,
        Option::Some(t) => point_slot(t.1),
    }
}

/// How many of the oldest WAL events compaction moves: the length of the
/// longest prefix whose slots all lie beyond the rollback horizon.
pub open spec fn compact_stop(log: Seq<LogModel>, tip: u64, k: u64) -> int
    decreases log.len(),
{
    if log.len() == 0 {
        0
    } else if within_horizon(tip, k, entry_slot(log.first())) {
        0
    } else {
        1 + compact_stop(log.drop_first(), tip, k)
    }
}

/// The stop index is exactly the first index within the horizon.
pub proof fn lemma_compact_stop_charac(log: Seq<LogModel>, tip: u64, k: u64, i: int)
    requires
        0 <= i <= log.len(),
        forall|j: int| 0 <= j < i ==> !within_horizon(tip, k, entry_slot(#[trigger] log[j])),
        i == log.len() || within_horizon(tip, k, entry_slot(log[i])),
    ensures
        compact_stop(log, tip, k) == i,
    decreases log.len(),
{
    if log.len() > 0 && i > 0 {
        assert(!within_horizon(tip, k, entry_slot(log.first())));
        assert(forall|j: int| 0 <= j < log.len() - 1 ==> log.drop_first()[j] == log[j + 1]);
        lemma_compact_stop_charac(log.drop_first(), tip, k, i - 1);
    }
}

/// One compaction step on the chain index: an apply or specific mark
/// inserts the event's slot-to-hash pair, an undo deletes the event's slot,
/// a mark of the origin changes nothing.
pub open spec fn apply_compaction(chain: Map<u64, BlockHash>, v: LogModel) -> Map<u64, BlockHash> {
    match v {
        LogModel::Apply(b) => chain.insert(b.slot, b.hash),
        LogModel::Undo(b) => chain.remove(b.slot),
        LogModel::Mark(p) => match p {
            ChainPoint::Origin => chain,
            ChainPoint::Specific(s, h) => chain.insert(s, h),
        },
    }
}

/// Replaying a compacted WAL prefix into the chain index, oldest first.
pub open spec fn compact_chain(chain: Map<u64, BlockHash>, log: Seq<LogModel>) -> Map<
    u64,
    BlockHash,
>
    decreases log.len(),
{
    if log.len() == 0 {
        chain
    } else {
        apply_compaction(compact_chain(chain, log.drop_last()), log.last())
    }
}

/// The events of a WAL, stripped of their sequence numbers.
pub open spec fn log_of(entries: Seq<(u64, LogModel)>) -> Seq<LogModel> {
    entries.map_values(|e: (u64, LogModel)| e.1)
}

/// The WAL entries left after one compaction pass with horizon `k`.
pub open spec fn compacted_entries(entries: Seq<(u64, LogModel)>, k: u64) -> Seq<(u64, LogModel)> {
    entries.subrange(
        compact_stop(log_of(entries), tip_slot_of(entries), k),
        entries.len() as int,
    )
}

/// The chain index left after one compaction pass with horizon `k`.
pub open spec fn compacted_chain(
    chain: Map<u64, BlockHash>,
    entries: Seq<(u64, LogModel)>,
    k: u64,
) -> Map<u64, BlockHash> {
    compact_chain(chain, log_of(entries).take(compact_stop(log_of(entries), tip_slot_of(entries), k)))
}

/// What the recursive stop index means, unrolled: everything before it is
/// beyond the horizon, and the event at it (if any) is within.
pub proof fn lemma_compact_stop_props(log: Seq<LogModel>, tip: u64, k: u64)
    ensures
        0 <= compact_stop(log, tip, k) <= log.len(),
        forall|j: int|
            0 <= j < compact_stop(log, tip, k) ==> !within_horizon(
                tip,
                k,
                entry_slot(#[trigger] log[j]),
            ),
        compact_stop(log, tip, k) < log.len() ==> within_horizon(
            tip,
            k,
            entry_slot(log[compact_stop(log, tip, k)]),
        ),
    decreases log.len(),
{
    if log.len() > 0 && !within_horizon(tip, k, entry_slot(log.first())) {
        lemma_compact_stop_props(log.drop_first(), tip, k);
        assert(forall|j: int| 0 <= j < log.len() - 1 ==> log.drop_first()[j] == log[j + 1]);
        assert forall|j: int| 0 <= j < compact_stop(log, tip, k) implies !within_horizon(
            tip,
            k,
            entry_slot(#[trigger] log[j]),
        ) by {
            if j > 0 {
                assert(log.drop_first()[j - 1] == log[j]);
            }
        }
    }
}

/// Compaction is idempotent: a second pass with the same horizon moves
/// nothing, and leaves both the WAL and the chain index exactly as the
/// first pass left them.
pub proof fn lemma_compact_idempotent(
    entries: Seq<(u64, LogModel)>,
    chain: Map<u64, BlockHash>,
    k: u64,
)
    ensures
        compacted_entries(compacted_entries(entries, k), k) == compacted_entries(entries, k),
        compacted_chain(compacted_chain(chain, entries, k), compacted_entries(entries, k), k)
            == compacted_chain(chain, entries, k),
{
    let log = log_of(entries);
    let tip = tip_slot_of(entries);
    let stop = compact_stop(log, tip, k);
    lemma_compact_stop_props(log, tip, k);
    let entries2 = compacted_entries(entries, k);
    let log2 = log_of(entries2);
    assert(log2 =~= log.subrange(stop, log.len() as int));
    if entries.len() == 0 {
        assert(entries2 =~= entries);
        assert(compacted_entries(entries2, k) =~= entries2);
    } else {
        assert(entry_slot(log.last()) == tip);
        assert(within_horizon(tip, k, entry_slot(log.last())));
        assert(stop < log.len());
        assert(entries2.len() > 0);
        assert(entries2.last() == entries.last());
        assert(tip_slot_of(entries2) == tip);
        assert(log2[0] == log[stop]);
        lemma_compact_stop_charac(log2, tip, k, 0);
        assert(compacted_entries(entries2, k) =~= entries2);
        assert(log2.take(0) =~= Seq::<LogModel>::empty());
    }
}

/// The sorted chain table is a canonical representation: two sorted tables
/// that denote the same map hold identical entries. Together with
/// [`lemma_compact_idempotent`], equal post-compaction chain maps mean
/// equal stored tables, bit for bit.
pub proof fn lemma_chain_canonical(s1: Seq<(u64, BlockHash)>, s2: Seq<(u64, BlockHash)>)
    requires
        chain_sorted(s1),
        chain_sorted(s2),
        pair_map(s1) == pair_map(s2),
    ensures
        s1 == s2,
    decreases s1.len(),
{
    lemma_sorted_unique(s1);
    lemma_sorted_unique(s2);
    crate::kv::lemma_pair_map_len(s1);
    crate::kv::lemma_pair_map_len(s2);
    if s1.len() == 0 {
        assert(s1 =~= s2);
    } else {
        // the last entry of a sorted table carries the greatest key
        let k1 = s1.last().0;
        let k2 = s2.last().0;
        crate::kv::lemma_pair_map_index(s1, s1.len() - 1);
        crate::kv::lemma_pair_map_index(s2, s2.len() - 1);
        crate::kv::lemma_pair_map_dom(s2, k1);
        let j = choose|j: int| 0 <= j < s2.len() && (#[trigger] s2[j]).0 == k1;
        crate::kv::lemma_pair_map_dom(s1, k2);
        let i = choose|i: int| 0 <= i < s1.len() && (#[trigger] s1[i]).0 == k2;
        assert(s2[j].0 <= k2);
        assert(s1[i].0 <= k1);
        assert(k1 == k2);
        assert(s1.last() == s2.last());
        assert(forall|t: int| 0 <= t < s1.len() - 1 ==> s1.drop_last()[t] == s1[t]);
        assert(forall|t: int| 0 <= t < s2.len() - 1 ==> s2.drop_last()[t] == s2[t]);
        crate::kv::lemma_pair_map_dom(s1.drop_last(), k1);
        crate::kv::lemma_pair_map_dom(s2.drop_last(), k1);
        assert forall|k: u64| true implies pair_map(s1.drop_last()).contains_key(k) == pair_map(
            s2.drop_last(),
        ).contains_key(k) by {
            crate::kv::lemma_pair_map_dom(s1.drop_last(), k);
            crate::kv::lemma_pair_map_dom(s2.drop_last(), k);
            crate::kv::lemma_pair_map_dom(s1, k);
            crate::kv::lemma_pair_map_dom(s2, k);
            if k != k1 {
                if pair_map(s1.drop_last()).contains_key(k) {
                    let t = choose|t: int|
                        0 <= t < s1.drop_last().len() && (#[trigger] s1.drop_last()[t]).0 == k;
                    assert(s1[t].0 == k);
                    let u = choose|u: int| 0 <= u < s2.len() && (#[trigger] s2[u]).0 == k;
                    assert(u < s2.len() - 1);
                    assert(s2.drop_last()[u].0 == k);
                }
                if pair_map(s2.drop_last()).contains_key(k) {
                    let t = choose|t: int|
                        0 <= t < s2.drop_last().len() && (#[trigger] s2.drop_last()[t]).0 == k;
                    assert(s2[t].0 == k);
                    let u = choose|u: int| 0 <= u < s1.len() && (#[trigger] s1[u]).0 == k;
                    assert(u < s1.len() - 1);
                    assert(s1.drop_last()[u].0 == k);
                }
            }
        }
        assert forall|k: u64| pair_map(s1.drop_last()).contains_key(k) implies pair_map(
            s1.drop_last(),
        )[k] == pair_map(s2.drop_last())[k] by {
            crate::kv::lemma_pair_map_dom(s1.drop_last(), k);
            let t = choose|t: int|
                0 <= t < s1.drop_last().len() && (#[trigger] s1.drop_last()[t]).0 == k;
            crate::kv::lemma_pair_map_index(s1.drop_last(), t);
            crate::kv::lemma_pair_map_index(s1, t);
            crate::kv::lemma_pair_map_dom(s2.drop_last(), k);
            let u = choose|u: int|
                0 <= u < s2.drop_last().len() && (#[trigger] s2.drop_last()[u]).0 == k;
            crate::kv::lemma_pair_map_index(s2.drop_last(), u);
            crate::kv::lemma_pair_map_index(s2, u);
        }
        assert(pair_map(s1.drop_last()) =~= pair_map(s2.drop_last()));
        lemma_chain_canonical(s1.drop_last(), s2.drop_last());
        assert(s1 =~= s2);
    }
}

/// A wider horizon compacts less, and what it moves is a prefix of what a
/// narrower horizon moves.
pub proof fn lemma_compact_horizon_prefix(log: Seq<LogModel>, tip: u64, k: u64, k2: u64)
    requires
        k <= k2,
    ensures
        compact_stop(log, tip, k2) <= compact_stop(log, tip, k),
        log.take(compact_stop(log, tip, k2)) == log.take(compact_stop(log, tip, k)).take(
            compact_stop(log, tip, k2),
        ),
{
    let s1 = compact_stop(log, tip, k);
    let s2 = compact_stop(log, tip, k2);
    lemma_compact_stop_props(log, tip, k);
    lemma_compact_stop_props(log, tip, k2);
    if s2 > s1 {
        assert(!within_horizon(tip, k2, entry_slot(log[s1])));
        assert(within_horizon(tip, k, entry_slot(log[s1])));
        assert(false);
    }
    assert(log.take(s2) =~= log.take(s1).take(s2));
}

/// The tip a WAL implies: the greatest sequence number together with the
/// point its event names, or nothing for an empty WAL.
pub open spec fn tip_of(entries: Seq<(u64, LogModel)>) -> Option<(u64, ChainPoint)> {
    if entries.len() == 0 {
        None
    } else {
        Some((entries.last().0, entry_point(entries.last().1)))
    }
}

/// The position of the newest WAL entry naming point `p`, if any.
pub open spec fn find_pos(entries: Seq<(u64, LogModel)>, p: ChainPoint) -> Option<int>
    decreases entries.len(),
{
    if entries.len() == 0 {
        Option::None
    } else if entry_point(entries.last().1) == p {
        Option::Some(entries.len() - 1)
    } else {
        find_pos(entries.drop_last(), p)
    }
}

/// The sequence number of the newest WAL entry naming point `p`, if any.
pub open spec fn find_point(entries: Seq<(u64, LogModel)>, p: ChainPoint) -> Option<u64> {
    match find_pos(entries, p) {
        Option::Some(i) => Option::Some(entries[i].0),
        Option::None => Option::None,
    }
}

/// The position found lies within the entries and names `p`.
pub proof fn lemma_find_pos_props(entries: Seq<(u64, LogModel)>, p: ChainPoint)
    ensures
        find_pos(entries, p) matches Some(i) ==> 0 <= i < entries.len() && entry_point(
            entries[i].1,
        ) == p,
    decreases entries.len(),
{
    if entries.len() > 0 && entry_point(entries.last().1) != p {
        lemma_find_pos_props(entries.drop_last(), p);
    }
}

/// Among the candidates, the one whose newest WAL entry has the greatest
/// sequence number: the first candidate hit when walking the WAL backward.
pub open spec fn best_intersect(
    entries: Seq<(u64, LogModel)>,
    cands: Seq<ChainPoint>,
) -> Option<(u64, ChainPoint)>
    decreases entries.len(),
{
    if entries.len() == 0 {
        Option::None
    } else if cands.contains(entry_point(entries.last().1)) {
        Option::Some((entries.last().0, entry_point(entries.last().1)))
    } else {
        best_intersect(entries.drop_last(), cands)
    }
}

/// The blocks of the apply events of a log, in log order.
pub open spec fn apply_blocks(log: Seq<LogModel>) -> Seq<BlockModel>
    decreases log.len(),
{
    if log.len() == 0 {
        Seq::empty()
    } else {
        let r = apply_blocks(log.drop_last());
        match log.last() {
            LogModel::Apply(b) => r.push(b),
            _ => r,
        }
    }
}

/// The block at position `a` of the page is the payload of some apply
/// event of the log.
spec fn page_entry_applied(log: Seq<LogModel>, a: int) -> bool {
    exists|i: int|
        0 <= i < log.len() && log[i] is Apply && crate::log::apply_block(#[trigger] log[i])
            == apply_blocks(log)[a]
}

/// Each paged block is the payload of some apply event of the log.
proof fn lemma_apply_blocks_origin(log: Seq<LogModel>)
    ensures
        forall|a: int| 0 <= a < apply_blocks(log).len() ==> #[trigger] page_entry_applied(log, a),
    decreases log.len(),
{
    if log.len() > 0 {
        lemma_apply_blocks_origin(log.drop_last());
        let ab = apply_blocks(log.drop_last());
        assert forall|a: int| 0 <= a < apply_blocks(log).len() implies #[trigger] page_entry_applied(
            log,
            a,
        ) by {
            if a < ab.len() {
                assert(page_entry_applied(log.drop_last(), a));
                let i = choose|i: int|
                    0 <= i < log.drop_last().len() && (#[trigger] log.drop_last()[i]) is Apply
                        && crate::log::apply_block(log.drop_last()[i]) == ab[a];
                assert(log[i] == log.drop_last()[i]);
                assert(apply_blocks(log)[a] == ab[a]);
            } else {
                assert(log[log.len() - 1] is Apply);
                assert(apply_blocks(log) == ab.push(crate::log::apply_block(log.last())));
                assert(crate::log::apply_block(log[log.len() - 1]) == apply_blocks(log)[a]);
            }
        }
    }
}

/// A page over a WAL whose apply events ascend by slot is itself ascending
/// by slot: the page of the oldest applies comes back oldest-slot first.
pub proof fn lemma_page_ascending(log: Seq<LogModel>)
    requires
        forall|i: int, j: int|
            0 <= i < j < log.len() && #[trigger] log[i] is Apply && #[trigger] log[j] is Apply
                ==> crate::log::apply_block(log[i]).slot < crate::log::apply_block(log[j]).slot,
    ensures
        forall|a: int, b: int|
            0 <= a < b < apply_blocks(log).len() ==> #[trigger] apply_blocks(log)[a].slot
                < #[trigger] apply_blocks(log)[b].slot,
    decreases log.len(),
{
    if log.len() > 0 {
        assert(forall|j: int| 0 <= j < log.len() - 1 ==> log.drop_last()[j] == log[j]);
        lemma_page_ascending(log.drop_last());
        lemma_apply_blocks_origin(log.drop_last());
        let ab = apply_blocks(log.drop_last());
        assert forall|a: int, b: int| 0 <= a < b < apply_blocks(log).len() implies #[trigger] apply_blocks(
            log,
        )[a].slot < #[trigger] apply_blocks(log)[b].slot by {
            if b < ab.len() {
            } else if log.last() is Apply && b == ab.len() {
                assert(page_entry_applied(log.drop_last(), a));
                let i = choose|i: int|
                    0 <= i < log.drop_last().len() && (#[trigger] log.drop_last()[i]) is Apply
                        && crate::log::apply_block(log.drop_last()[i]) == ab[a];
                assert(log[i] == log.drop_last()[i]);
                assert(log[i] is Apply);
                assert(log[log.len() - 1] is Apply);
                assert(crate::log::apply_block(log[i]).slot < crate::log::apply_block(
                    log[log.len() - 1],
                ).slot);
            }
        }
    }
}

/// The block of the newest apply event naming point `p`, if any.
pub open spec fn resolve_block(log: Seq<LogModel>, p: ChainPoint) -> Option<BlockModel>
    decreases log.len(),
{
    if log.len() == 0 {
        Option::None
    } else if log.last() is Apply && block_point(crate::log::apply_block(log.last())) == p {
        Option::Some(crate::log::apply_block(log.last()))
    } else {
        resolve_block(log.drop_last(), p)
    }
}

/// The blocks the given points resolve to, in point order; unresolved
/// points are omitted.
pub open spec fn sparse_blocks(log: Seq<LogModel>, pts: Seq<ChainPoint>) -> Seq<BlockModel>
    decreases pts.len(),
{
    if pts.len() == 0 {
        Seq::empty()
    } else {
        let r = sparse_blocks(log, pts.drop_last());
        match resolve_block(log, pts.last()) {
            Option::Some(b) => r.push(b),
            Option::None => r,
        }
    }
}

/// Chain-index entries are strictly ascending by slot.
pub open spec fn chain_sorted(s: Seq<(u64, BlockHash)>) -> bool {
    forall|i: int, j: int| 0 <= i < j < s.len() ==> (#[trigger] s[i]).0 < (#[trigger] s[j]).0
}

/// The map a block-body table denotes: hash to body bytes; on duplicate
/// keys the later entry wins.
pub open spec fn bytes_map(s: Seq<(BlockHash, Vec<u8>)>) -> Map<BlockHash, Seq<u8>>
    decreases s.len(),
{
    if s.len() == 0 {
        Map::empty()
    } else {
        bytes_map(s.drop_last()).insert(s.last().0, s.last().1@)
    }
}

proof fn lemma_bytes_map_dom(s: Seq<(BlockHash, Vec<u8>)>, k: BlockHash)
    ensures
        bytes_map(s).contains_key(k) <==> exists|i: int|
            0 <= i < s.len() && (#[trigger] s[i]).0 == k,
    decreases s.len(),
{
    if s.len() > 0 {
        lemma_bytes_map_dom(s.drop_last(), k);
        assert(forall|i: int| 0 <= i < s.len() - 1 ==> s.drop_last()[i] == s[i]);
        if s.last().0 == k {
            assert((s[s.len() - 1]).0 == k);
        } else {
            if bytes_map(s).contains_key(k) {
                let i = choose|i: int|
                    0 <= i < s.drop_last().len() && (#[trigger] s.drop_last()[i]).0 == k;
                assert((s[i]).0 == k);
            }
            if exists|i: int| 0 <= i < s.len() && (#[trigger] s[i]).0 == k {
                let i = choose|i: int| 0 <= i < s.len() && (#[trigger] s[i]).0 == k;
                assert(i < s.len() - 1);
                assert((s.drop_last()[i]).0 == k);
            }
        }
    }
}

proof fn lemma_bytes_map_index(s: Seq<(BlockHash, Vec<u8>)>, i: int)
    requires
        unique_keys(s),
        0 <= i < s.len(),
    ensures
        bytes_map(s).contains_key(s[i].0),
        bytes_map(s)[s[i].0] == s[i].1@,
    decreases s.len(),
{
    if i < s.len() - 1 {
        assert(forall|j: int| 0 <= j < s.len() - 1 ==> s.drop_last()[j] == s[j]);
        lemma_bytes_map_index(s.drop_last(), i);
        assert((s[s.len() - 1]).0 != (s[i]).0);
    }
}

/// The rollback-aware store. The WAL is an append-only sequence of chain
/// events keyed by contiguous sequence numbers; the chain index holds the
/// canonical slot-to-hash mapping of compacted history; the block-body
/// index holds every ingested body keyed by hash.
pub struct RollDB {
    wal: Vec<(u64, LogValue)>,
    chain: Vec<(u64, BlockHash)>,
    blocks: Vec<(BlockHash, Vec<u8>)>,
    wal_seq: u64,
}

impl RollDB {
    /// The WAL entries: sequence numbers with the events they key.
    pub closed spec fn entries(&self) -> Seq<(u64, LogModel)> {
        self.wal@.map_values(|e: (u64, LogValue)| (e.0, e.1@))
    }

    /// The WAL events alone, oldest first.
    pub open spec fn log(&self) -> Seq<LogModel> {
        self.entries().map_values(|e: (u64, LogModel)| e.1)
    }

    /// The chain index: slot and hash pairs, ascending by slot.
    pub closed spec fn chain_view(&self) -> Seq<(u64, BlockHash)> {
        self.chain@
    }

    /// The chain index as a map from slot to hash.
    pub open spec fn chain_map(&self) -> Map<u64, BlockHash> {
        pair_map(self.chain_view())
    }

    /// The block-body index as a map from hash to body bytes.
    pub closed spec fn blocks_map(&self) -> Map<BlockHash, Seq<u8>> {
        bytes_map(self.blocks@)
    }

    /// The sequence number of the newest WAL entry; 0 before any append.
    pub closed spec fn tip_seq(&self) -> u64 {
        self.wal_seq
    }

    /// Every apply and undo event still in the WAL has its block body
    /// retrievable from the block-body index.
    pub open spec fn bodies_indexed(&self) -> bool {
        forall|i: int|
            0 <= i < self.log().len() ==> match #[trigger] self.log()[i] {
                LogModel::Apply(b) => self.blocks_map().contains_key(b.hash),
                LogModel::Undo(b) => self.blocks_map().contains_key(b.hash),
                LogModel::Mark(_) => true,
            }
    }

    /// Well-formedness: WAL sequence numbers are dense and end at
    /// `tip_seq`, the chain index is strictly ascending by slot, the
    /// block-body index has unique keys, and WAL events have their bodies
    /// indexed.
    pub closed spec fn wf(&self) -> bool {
        &&& self.wal_seq >= self.wal@.len()
        &&& (self.wal@.len() == 0 ==> self.wal_seq == 0)
        &&& forall|i: int|
            0 <= i < self.wal@.len() ==> (#[trigger] self.wal@[i]).0 == self.wal_seq
                - self.wal@.len() + 1 + i
        &&& chain_sorted(self.chain@)
        &&& unique_keys(self.blocks@)
        &&& self.bodies_indexed()
    }

    /// WAL sequence numbers are dense: entry `i` carries sequence number
    /// `tip_seq - len + 1 + i`, so the entries form the contiguous range
    /// ending at `tip_seq`.
    pub proof fn lemma_wal_seqs_contiguous(&self)
        requires
            self.wf(),
        ensures
            forall|i: int|
                0 <= i < self.entries().len() ==> (#[trigger] self.entries()[i]).0 == self.tip_seq()
                    - self.entries().len() + 1 + i,
            self.entries().len() <= self.tip_seq(),
    {
    }

    /// An empty store.
    pub fn open() -> (r: RollDB)
        ensures
            r.wf(),
            r.entries() == Seq::<(u64, LogModel)>::empty(),
            r.chain_view() == Seq::<(u64, BlockHash)>::empty(),
            r.blocks_map() == Map::<BlockHash, Seq<u8>>::empty(),
            r.tip_seq() == 0,
    {
        let r = RollDB { wal: Vec::new(), chain: Vec::new(), blocks: Vec::new(), wal_seq: 0 };
        proof {
            assert(r.entries() =~= Seq::<(u64, LogModel)>::empty());
            assert(r.blocks_map() =~= Map::<BlockHash, Seq<u8>>::empty());
        }
        r
    }

    /// Append an apply event: record the block body, assign the next
    /// sequence number and append `Apply` atomically. Returns the new
    /// sequence number.
    pub fn roll_forward(&mut self, slot: u64, hash: BlockHash, height: u64, body: Vec<u8>) -> (r:
        Result<u64, Error>)
        requires
            old(self).wf(),
            old(self).tip_seq() < u64::MAX,
        ensures
            final(self).wf(),
            r == Ok::<u64, Error>(final(self).tip_seq()),
            final(self).tip_seq() == old(self).tip_seq() + 1,
            final(self).entries() == old(self).entries().push(
                (
                    final(self).tip_seq(),
                    LogModel::Apply(BlockModel { slot, hash, height, body: body@ }),
                ),
            ),
            final(self).chain_view() == old(self).chain_view(),
            final(self).blocks_map() == old(self).blocks_map().insert(hash, body@),
            final(self).blocks_map()[hash] == body@,
            wal_stack(final(self).log()) == wal_stack(old(self).log()).push(
                BlockModel { slot, hash, height, body: body@ },
            ),
            crate::log::causal(old(self).log()) ==> crate::log::causal(final(self).log()),
    {
        let new_seq = self.wal_seq + 1;
        let stored = clone_bytes(&body);
        blocks_upsert(&mut self.blocks, hash, stored);
        let blk = RawBlock { slot, hash, height, body };
        let ghost b = blk@;
        self.wal.push((new_seq, LogValue::Apply(blk)));
        self.wal_seq = new_seq;
        proof {
            assert(self.entries() =~= old(self).entries().push(
                (new_seq, LogModel::Apply(b)),
            ));
            assert(self.log() =~= old(self).log().push(LogModel::Apply(b)));
            lemma_stack_push(old(self).log(), b);
            if crate::log::causal(old(self).log()) {
                lemma_causal_push(old(self).log(), LogModel::Apply(b));
            }
            assert forall|i: int| 0 <= i < self.log().len() implies match #[trigger] self.log()[i] {
                LogModel::Apply(bb) => self.blocks_map().contains_key(bb.hash),
                LogModel::Undo(bb) => self.blocks_map().contains_key(bb.hash),
                LogModel::Mark(_) => true,
            } by {
                if i < old(self).log().len() {
                    assert(old(self).log()[i] == self.log()[i]);
                }
            }
        }
        Ok(new_seq)
    }

    /// Look a block body up by hash.
    pub fn get_block(&self, hash: BlockHash) -> (r: Result<Option<Vec<u8>>, Error>)
        requires
            self.wf(),
        ensures
            match r {
                Ok(Some(b)) => self.blocks_map().contains_key(hash) && b@
                    == self.blocks_map()[hash],
                Ok(None) => !self.blocks_map().contains_key(hash),
                Err(_) => false,
            },
    {
        let mut i: usize = 0;
        while i < self.blocks.len()
            invariant
                self.wf(),
                i <= self.blocks.len(),
                forall|j: int| 0 <= j < i ==> (#[trigger] self.blocks@[j]).0 != hash,
            decreases self.blocks.len() - i,
        {
            if self.blocks[i].0 == hash {
                let body = clone_bytes(&self.blocks[i].1);
                proof {
                    lemma_bytes_map_index(self.blocks@, i as int);
                }
                return Ok(Some(body));
            }
            i = i + 1;
        }
        proof {
            lemma_bytes_map_dom(self.blocks@, hash);
        }
        Ok(None)
    }

    /// The newest WAL entry's sequence number and the point it names.
    pub fn find_tip(&self) -> (r: Option<(u64, ChainPoint)>)
        ensures
            r == tip_of(self.entries()),
    {
        if self.wal.len() == 0 {
            None
        } else {
            let e = &self.wal[self.wal.len() - 1];
            Some((e.0, e.1.point()))
        }
    }

    /// The active stack the WAL implies: the blocks applied and not yet
    /// undone, oldest first.
    fn active_stack(&self) -> (r: Vec<RawBlock>)
        ensures
            r@.len() == wal_stack(self.log()).len(),
            forall|i: int| 0 <= i < r@.len() ==> (#[trigger] r@[i])@ == wal_stack(self.log())[i],
    {
        let mut st: Vec<RawBlock> = Vec::new();
        let mut i: usize = 0;
        while i < self.wal.len()
            invariant
                i <= self.wal@.len(),
                self.log().len() == self.wal@.len(),
                st@.len() == wal_stack(self.log().take(i as int)).len(),
                forall|j: int|
                    0 <= j < st@.len() ==> (#[trigger] st@[j])@ == wal_stack(
                        self.log().take(i as int),
                    )[j],
            decreases self.wal@.len() - i,
        {
            let ghost pre = self.log().take(i as int);
            proof {
                assert(self.log().take(i + 1).drop_last() == pre);
                assert(self.log().take(i + 1).last() == self.log()[i as int]);
            }
            match &self.wal[i].1 {
                LogValue::Apply(b) => {
                    st.push(b.duplicate());
                },
                LogValue::Undo(b) => {
                    let n = st.len();
                    if n > 0 {
                        let same = {
                            let t = &st[n - 1];
                            t.slot == b.slot && t.hash == b.hash && t.height == b.height
                                && crate::types::bytes_eq(&t.body, &b.body)
                        };
                        if same {
                            st.pop();
                        }
                    }
                },
                LogValue::Mark(_) => {},
            }
            i = i + 1;
        }
        proof {
            assert(self.log().take(self.wal@.len() as int) == self.log());
        }
        st
    }

    /// Append a rollback: walk the active stack backward, emitting an undo
    /// for every block strictly after the target, then one mark naming the
    /// target; all appended in one step. A target that is neither the
    /// origin nor an active block of the WAL tail is unreachable and leaves
    /// the store unchanged, as does a rollback to the origin of a WAL that
    /// holds no data at all. Returns the mark's sequence number.
    #[verifier::loop_isolation(false)]
    #[verifier::rlimit(50)]
    pub fn roll_back(&mut self, until: ChainPoint) -> (r: Result<u64, Error>)
        requires
            old(self).wf(),
            old(self).tip_seq() + old(self).entries().len() + 1 <= u64::MAX,
        ensures
            final(self).wf(),
            final(self).chain_view() == old(self).chain_view(),
            final(self).blocks_map() == old(self).blocks_map(),
            match stack_cut(wal_stack(old(self).log()), until) {
                None => r == Err::<u64, Error>(Error::PointNotReachable) && final(self).entries()
                    == old(self).entries() && final(self).tip_seq() == old(self).tip_seq(),
                Some(cut) => if old(self).entries().len() == 0 && until is Origin {
                    r == Ok::<u64, Error>(0u64) && final(self).entries() == old(self).entries()
                        && final(self).tip_seq() == old(self).tip_seq()
                } else {
                    let stack = wal_stack(old(self).log());
                    let pops = stack.len() - cut;
                    &&& r == Ok::<u64, Error>(final(self).tip_seq())
                    &&& final(self).tip_seq() == old(self).tip_seq() + pops + 1
                    &&& final(self).entries().len() == old(self).entries().len() + pops + 1
                    &&& forall|i: int|
                        0 <= i < old(self).entries().len() ==> final(self).entries()[i] == old(
                            self,
                        ).entries()[i]
                    &&& forall|j: int|
                        0 <= j < pops ==> #[trigger] final(self).entries()[old(
                            self,
                        ).entries().len() + j] == (
                            (old(self).tip_seq() + 1 + j) as u64,
                            LogModel::Undo(stack[stack.len() - 1 - j]),
                        )
                    &&& final(self).entries().last() == (
                        final(self).tip_seq(),
                        LogModel::Mark(until),
                    )
                    &&& tip_of(final(self).entries()) == Some((final(self).tip_seq(), until))
                    &&& wal_stack(final(self).log()) == stack.take(cut)
                    &&& (crate::log::causal(old(self).log()) ==> crate::log::causal(
                        final(self).log(),
                    ))
                },
            },
    {
        let ghost full = wal_stack(old(self).log());
        proof {
            lemma_stack_len(old(self).log());
            lemma_stack_cut_range(full, until);
        }
        if self.wal.len() == 0 {
            match until {
                ChainPoint::Origin => {
                    return Ok(0);
                },
                _ => {
                    return Err(Error::PointNotReachable);
                },
            }
        }
        let mut stack = self.active_stack();
        let mut pending: Vec<(u64, LogValue)> = Vec::new();
        let mut seq: u64 = self.wal_seq;
        proof {
            assert(full.take(full.len() as int) == full);
        }
        loop
            invariant
                stack@.len() <= full.len(),
                forall|j: int| 0 <= j < stack@.len() ==> (#[trigger] stack@[j])@ == full[j],
                pending@.len() == full.len() - stack@.len(),
                seq == self.wal_seq + pending@.len(),
                forall|j: int|
                    0 <= j < pending@.len() ==> (#[trigger] pending@[j]).0 == self.wal_seq + 1 + j
                        && pending@[j].1@ == LogModel::Undo(full[full.len() - 1 - j]),
                stack_cut(full, until) == stack_cut(full.take(stack@.len() as int), until),
            decreases stack@.len(),
        {
            let n = stack.len();
            if n == 0 {
                break ;
            }
            proof {
                assert(stack@[n - 1]@ == full[n - 1]);
                assert(full.take(n as int).last() == full[n - 1]);
            }
            if stack[n - 1].point() == until {
                break ;
            }
            let b = stack.pop().unwrap();
            proof {
                assert(full.take(n as int).drop_last() == full.take(n - 1));
            }
            seq = seq + 1;
            pending.push((seq, LogValue::Undo(b)));
        }
        let found_origin = match until {
            ChainPoint::Origin => true,
            _ => false,
        };
        if stack.len() == 0 && !found_origin {
            proof {
                assert(full.take(0) == Seq::<BlockModel>::empty());
                assert(stack_cut(full, until) is None);
            }
            return Err(Error::PointNotReachable);
        }
        let ghost cut = stack@.len() as int;
        let ghost pops = full.len() - cut;
        proof {
            if found_origin {
                assert(stack_cut(full, until) == Some(0int));
                assert(stack@.len() == 0) by {
                    if stack@.len() > 0 {
                        assert(stack@[stack@.len() - 1]@ == full[stack@.len() - 1]);
                    }
                }
            } else {
                assert(stack@.len() > 0);
                assert(stack@[cut - 1]@ == full[cut - 1]);
                assert(full.take(cut).last() == full[cut - 1]);
                assert(stack_cut(full.take(cut), until) == Some(cut));
            }
            assert(stack_cut(full, until) == Some(cut));
            // every active block has its body indexed
            lemma_stack_blocks_applied(old(self).log());
        }
        let ghost orig_wal = self.wal@;
        let ghost orig_pending = pending@;
        let ghost orig_log = self.log();
        proof {
            assert(orig_pending.subrange(0, orig_pending.len() as int) == orig_pending);
            assert(full.take(full.len() - 0) == full);
        }
        while pending.len() > 0
            invariant
                pending@.len() <= orig_pending.len(),
                pending@ == orig_pending.subrange(
                    orig_pending.len() - pending@.len(),
                    orig_pending.len() as int,
                ),
                self.wal@.len() == orig_wal.len() + (orig_pending.len() - pending@.len()),
                forall|i: int| 0 <= i < orig_wal.len() ==> self.wal@[i] == orig_wal[i],
                forall|j: int|
                    0 <= j < orig_pending.len() - pending@.len() ==> self.wal@[orig_wal.len() + j]
                        == orig_pending[j],
                wal_stack(self.log()) == full.take(
                    full.len() - (orig_pending.len() - pending@.len()),
                ),
                crate::log::causal(orig_log) ==> crate::log::causal(self.log()),
                self.wal_seq == old(self).wal_seq,
                self.chain@ == old(self).chain@,
                self.blocks@ == old(self).blocks@,
            decreases pending@.len(),
        {
            let ghost t = orig_pending.len() - pending@.len();
            let ghost pre_pending = pending@;
            let ghost pre_log = self.log();
            let e = pending.remove(0);
            proof {
                assert(pre_pending == orig_pending.subrange(t, orig_pending.len() as int));
                assert(pre_pending[0] == orig_pending.subrange(t, orig_pending.len() as int)[0]);
                assert(e == orig_pending[t]);
                assert(pending@ == pre_pending.remove(0));
            }
            self.wal.push(e);
            proof {
                assert(pending@ =~= orig_pending.subrange(t + 1, orig_pending.len() as int));
                assert(self.log() =~= pre_log.push(LogModel::Undo(full[full.len() - 1 - t])));
                assert(wal_stack(pre_log).last() == full[full.len() - 1 - t]);
                lemma_stack_pop(pre_log, full[full.len() - 1 - t]);
                assert(full.take(full.len() - t).drop_last() =~= full.take(full.len() - t - 1));
                if crate::log::causal(orig_log) {
                    lemma_causal_push(pre_log, LogModel::Undo(full[full.len() - 1 - t]));
                }
            }
        }
        let new_seq = seq + 1;
        let ghost pre_log = self.log();
        self.wal.push((new_seq, LogValue::Mark(until)));
        self.wal_seq = new_seq;
        proof {
            assert(self.log() =~= pre_log.push(LogModel::Mark(until)));
            lemma_stack_mark(pre_log, until);
            if crate::log::causal(orig_log) {
                lemma_causal_push(pre_log, LogModel::Mark(until));
            }
            assert(wal_stack(self.log()) == full.take(cut));
            // well-formedness of the result
            assert forall|i: int| 0 <= i < self.wal@.len() implies (#[trigger] self.wal@[i]).0
                == self.wal_seq - self.wal@.len() + 1 + i by {
                if i < orig_wal.len() {
                    assert(self.wal@[i] == orig_wal[i]);
                } else if i < self.wal@.len() - 1 {
                    assert(self.wal@[i] == orig_pending[i - orig_wal.len()]);
                }
            }
            assert forall|i: int| 0 <= i < self.log().len() implies match #[trigger] self.log()[i] {
                LogModel::Apply(bb) => self.blocks_map().contains_key(bb.hash),
                LogModel::Undo(bb) => self.blocks_map().contains_key(bb.hash),
                LogModel::Mark(_) => true,
            } by {
                if i < orig_wal.len() {
                    assert(self.wal@[i] == orig_wal[i]);
                    assert(self.log()[i] == old(self).log()[i]);
                } else if i < self.log().len() - 1 {
                    let j = i - orig_wal.len();
                    assert(self.wal@[i] == orig_pending[j]);
                    assert(self.log()[i] == LogModel::Undo(full[full.len() - 1 - j]));
                    let b = full[full.len() - 1 - j];
                    let aj = choose|aj: int|
                        0 <= aj < old(self).log().len() && old(self).log()[aj] is Apply
                            && crate::log::apply_block(old(self).log()[aj]) == b;
                    assert(old(self).blocks_map().contains_key(b.hash));
                }
            }
            assert(final(self).entries().len() == old(self).entries().len() + pops + 1);
            assert forall|i: int| 0 <= i < old(self).entries().len() implies self.entries()[i]
                == old(self).entries()[i] by {
                assert(self.wal@[i] == orig_wal[i]);
            }
            assert forall|j: int| 0 <= j < pops implies #[trigger] self.entries()[old(
                self,
            ).entries().len() + j] == (((old(self).tip_seq() + 1 + j) as u64), LogModel::Undo(
                full[full.len() - 1 - j],
            )) by {
                assert(self.wal@[orig_wal.len() + j] == orig_pending[j]);
            }
        }
        Ok(new_seq)
    }

    /// Advance immutable history: move every WAL event whose slot lies
    /// beyond the rollback horizon `k` of the current tip into the chain
    /// index, oldest first, and stop at the first event within the horizon.
    /// Applies and specific marks become chain entries; undos delete their
    /// slot from the chain.
    #[verifier::loop_isolation(false)]
    #[verifier::rlimit(50)]
    pub fn compact(&mut self, k: u64) -> (r: Result<(), Error>)
        requires
            old(self).wf(),
        ensures
            final(self).wf(),
            r == Ok::<(), Error>(()),
            final(self).blocks_map() == old(self).blocks_map(),
            final(self).tip_seq() == old(self).tip_seq(),
            ({
                let tip = tip_slot_of(old(self).entries());
                let stop = compact_stop(old(self).log(), tip, k);
                &&& final(self).entries() == old(self).entries().subrange(
                    stop,
                    old(self).entries().len() as int,
                )
                &&& final(self).chain_map() == compact_chain(
                    old(self).chain_map(),
                    old(self).log().take(stop),
                )
            }),
    {
        let tip: u64 = match self.find_tip() {
            Option::None => 0,
            Option::Some((_, p)) => p.slot(),
        };
        let ghost orig_wal = self.wal@;
        let ghost orig_log = self.log();
        let ghost orig_chain = pair_map(self.chain@);
        proof {
            assert(tip == tip_slot_of(old(self).entries()));
            assert(orig_wal.subrange(0, orig_wal.len() as int) == orig_wal);
        }
        while self.wal.len() > 0
            invariant
                self.wal@.len() <= orig_wal.len(),
                self.wal@ == orig_wal.subrange(
                    orig_wal.len() - self.wal@.len(),
                    orig_wal.len() as int,
                ),
                forall|j: int|
                    0 <= j < orig_wal.len() - self.wal@.len() ==> !within_horizon(
                        tip,
                        k,
                        entry_slot(#[trigger] orig_log[j]),
                    ),
                chain_sorted(self.chain@),
                pair_map(self.chain@) == compact_chain(
                    orig_chain,
                    orig_log.take(orig_wal.len() - self.wal@.len()),
                ),
                self.blocks@ == old(self).blocks@,
                self.wal_seq == old(self).wal_seq,
            decreases self.wal@.len(),
        {
            let ghost i = orig_wal.len() - self.wal@.len();
            let s = self.wal[0].1.slot();
            proof {
                assert(self.wal@[0] == orig_wal[i]);
                assert(self.log()[0] == orig_log[i]);
                assert(s == entry_slot(orig_log[i]));
            }
            if s >= tip || tip - s <= k {
                break ;
            }
            let ghost pre_wal = self.wal@;
            let e = self.wal.remove(0);
            proof {
                assert(e == orig_wal[i]);
                assert(self.wal@ =~= orig_wal.subrange(i + 1, orig_wal.len() as int));
                assert(orig_log.take(i + 1).drop_last() == orig_log.take(i));
                assert(orig_log.take(i + 1).last() == orig_log[i]);
            }
            match e.1 {
                LogValue::Apply(b) => {
                    chain_upsert(&mut self.chain, b.slot, b.hash);
                },
                LogValue::Undo(b) => {
                    chain_delete(&mut self.chain, b.slot);
                },
                LogValue::Mark(p) => {
                    match p {
                        ChainPoint::Origin => {},
                        ChainPoint::Specific(ms, mh) => {
                            chain_upsert(&mut self.chain, ms, mh);
                        },
                    }
                },
            }
        }
        proof {
            let i = orig_wal.len() - self.wal@.len();
            lemma_compact_stop_charac(orig_log, tip, k, i);
            assert(self.entries() =~= old(self).entries().subrange(
                i as int,
                old(self).entries().len() as int,
            ));
            assert forall|j: int| 0 <= j < self.wal@.len() implies (#[trigger] self.wal@[j]).0
                == self.wal_seq - self.wal@.len() + 1 + j by {
                assert(self.wal@[j] == orig_wal[i + j]);
            }
            assert forall|j: int| 0 <= j < self.log().len() implies match #[trigger] self.log()[j] {
                LogModel::Apply(bb) => self.blocks_map().contains_key(bb.hash),
                LogModel::Undo(bb) => self.blocks_map().contains_key(bb.hash),
                LogModel::Mark(_) => true,
            } by {
                assert(self.wal@[j] == orig_wal[i + j]);
                assert(self.log()[j] == orig_log[i + j]);
            }
        }
        Ok(())
    }

    /// Roll the whole WAL tail back to the origin: undo every active
    /// block, then mark the origin. On a WAL that holds no data at all,
    /// append nothing.
    pub fn append_origin(&mut self) -> (r: Result<u64, Error>)
        requires
            old(self).wf(),
            old(self).tip_seq() + old(self).entries().len() + 1 <= u64::MAX,
        ensures
            final(self).wf(),
            final(self).chain_view() == old(self).chain_view(),
            final(self).blocks_map() == old(self).blocks_map(),
            old(self).entries().len() == 0 ==> r == Ok::<u64, Error>(0u64) && final(self).entries()
                == old(self).entries(),
            old(self).entries().len() > 0 ==> {
                let stack = wal_stack(old(self).log());
                &&& r == Ok::<u64, Error>(final(self).tip_seq())
                &&& final(self).entries().len() == old(self).entries().len() + stack.len() + 1
                &&& tip_of(final(self).entries()) == Some(
                    (final(self).tip_seq(), ChainPoint::Origin),
                )
                &&& wal_stack(final(self).log()).len() == 0
            },
    {
        proof {
            assert(stack_cut(wal_stack(old(self).log()), ChainPoint::Origin) == Some(0int));
        }
        let r = self.roll_back(ChainPoint::Origin);
        proof {
            if old(self).entries().len() > 0 {
                assert(wal_stack(self.log()) == wal_stack(old(self).log()).take(0));
            }
        }
        r
    }

    /// Whether the external ledger has caught up to WAL sequence number
    /// `n`: its cursor names a WAL entry whose sequence number is at least
    /// `n`. The live follower holds an event back until this is true, and
    /// a cursor absent from the WAL is an error.
    pub fn ledger_caught_up(&self, cursor: &ChainPoint, n: u64) -> (r: Result<bool, Error>)
        ensures
            match find_point(self.entries(), *cursor) {
                Option::Some(s) => r == Ok::<bool, Error>(s >= n),
                Option::None => r == Err::<bool, Error>(Error::PointNotInWal),
            },
    {
        match self.assert_point(cursor) {
            Ok(s) => Ok(s >= n),
            Err(e) => Err(e),
        }
    }

    /// The sequence number of the newest WAL entry whose event names `p`.
    /// A point absent from the WAL is an error.
    #[verifier::loop_isolation(false)]
    pub fn assert_point(&self, p: &ChainPoint) -> (r: Result<u64, Error>)
        ensures
            match find_point(self.entries(), *p) {
                Option::Some(s) => r == Ok::<u64, Error>(s),
                Option::None => r == Err::<u64, Error>(Error::PointNotInWal),
            },
    {
        let mut j: usize = self.wal.len();
        proof {
            assert(self.entries().take(self.wal@.len() as int) == self.entries());
        }
        while j > 0
            invariant
                j <= self.wal@.len(),
                find_pos(self.entries(), *p) == find_pos(self.entries().take(j as int), *p),
            decreases j,
        {
            j = j - 1;
            proof {
                assert(self.entries().take(j + 1).drop_last() == self.entries().take(j as int));
                assert(self.entries().take(j + 1).last() == self.entries()[j as int]);
            }
            if self.wal[j].1.point() == *p {
                proof {
                    lemma_find_pos_props(self.entries(), *p);
                }
                return Ok(self.wal[j].0);
            }
        }
        proof {
            assert(self.entries().take(0) =~= Seq::<(u64, LogModel)>::empty());
        }
        Err(Error::PointNotInWal)
    }

    /// Among the candidates, the point with the greatest sequence number
    /// present in the WAL; nothing if no candidate is present.
    #[verifier::loop_isolation(false)]
    pub fn find_intersect(&self, candidates: &Vec<ChainPoint>) -> (r: Option<(u64, ChainPoint)>)
        ensures
            r == best_intersect(self.entries(), candidates@),
    {
        let mut j: usize = self.wal.len();
        proof {
            assert(self.entries().take(self.wal@.len() as int) == self.entries());
        }
        while j > 0
            invariant
                j <= self.wal@.len(),
                best_intersect(self.entries(), candidates@) == best_intersect(
                    self.entries().take(j as int),
                    candidates@,
                ),
            decreases j,
        {
            j = j - 1;
            proof {
                assert(self.entries().take(j + 1).drop_last() == self.entries().take(j as int));
                assert(self.entries().take(j + 1).last() == self.entries()[j as int]);
            }
            let pt = self.wal[j].1.point();
            if contains_point(candidates, pt) {
                return Some((self.wal[j].0, pt));
            }
        }
        proof {
            assert(self.entries().take(0) =~= Seq::<(u64, LogModel)>::empty());
        }
        None
    }

    /// Where a live follower starts: the intersect among its candidates, or
    /// the tip where it supplies none. The follower emits a reset at the
    /// returned point, skips the returned sequence number itself (the
    /// intersection is known to both sides), and forwards every event after
    /// it.
    pub fn follow_plan(&self, intersect: &Vec<ChainPoint>) -> (r: Result<(u64, ChainPoint), Error>)
        ensures
            intersect@.len() == 0 ==> match tip_of(self.entries()) {
                Option::Some(t) => r == Ok::<(u64, ChainPoint), Error>(t),
                Option::None => r == Err::<(u64, ChainPoint), Error>(Error::WalEmpty),
            },
            intersect@.len() > 0 ==> match best_intersect(self.entries(), intersect@) {
                Option::Some(t) => r == Ok::<(u64, ChainPoint), Error>(t),
                Option::None => r == Err::<(u64, ChainPoint), Error>(Error::PointNotInWal),
            },
    {
        if intersect.len() == 0 {
            match self.find_tip() {
                Option::Some(t) => Ok(t),
                Option::None => Err(Error::WalEmpty),
            }
        } else {
            match self.find_intersect(intersect) {
                Option::Some(t) => Ok(t),
                Option::None => Err(Error::PointNotInWal),
            }
        }
    }

    /// The WAL entries with sequence number at least `from`, oldest first.
    /// The live stream drains these, then awaits the writer's new-data
    /// signal and re-checks by sequence number, so a missed signal never
    /// loses an entry.
    #[verifier::loop_isolation(false)]
    pub fn entries_from(&self, from: u64) -> (r: Vec<(u64, LogValue)>)
        requires
            self.wf(),
        ensures
            r@.len() <= self.entries().len(),
            forall|i: int|
                0 <= i < r@.len() ==> ((#[trigger] r@[i]).0, r@[i].1@) == self.entries()[
                    self.entries().len() - r@.len() + i],
            forall|j: int|
                0 <= j < self.entries().len() - r@.len() ==> (#[trigger] self.entries()[j]).0
                    < from,
            forall|i: int| 0 <= i < r@.len() ==> (#[trigger] r@[i]).0 >= from,
    {
        let mut i: usize = 0;
        while i < self.wal.len() && self.wal[i].0 < from
            invariant
                i <= self.wal@.len(),
                forall|j: int| 0 <= j < i ==> (#[trigger] self.wal@[j]).0 < from,
            decreases self.wal@.len() - i,
        {
            i = i + 1;
        }
        let start = i;
        let mut out: Vec<(u64, LogValue)> = Vec::new();
        while i < self.wal.len()
            invariant
                start <= i <= self.wal@.len(),
                out@.len() == i - start,
                forall|t: int|
                    0 <= t < out@.len() ==> ((#[trigger] out@[t]).0, out@[t].1@) == self.entries()[
                        start + t],
            decreases self.wal@.len() - i,
        {
            out.push((self.wal[i].0, self.wal[i].1.duplicate()));
            i = i + 1;
        }
        proof {
            assert forall|t: int| 0 <= t < out@.len() implies (#[trigger] out@[t]).0 >= from by {
                assert(out@[t].0 == self.wal@[start + t].0);
                if start + t > start {
                    assert(self.wal@[start as int].0 >= from);
                }
            }
        }
        out
    }

    /// Up to `len` blocks whose WAL entry is an apply, in WAL order,
    /// starting after the entry naming `from` (or at the oldest entry when
    /// `from` is absent). A `from` point not in the WAL is an error.
    #[verifier::loop_isolation(false)]
    pub fn read_block_page(&self, from: Option<&ChainPoint>, len: usize) -> (r: Result<
        Vec<RawBlock>,
        Error,
    >)
        ensures
            ({
                let start = match from {
                    Option::Some(p) => match find_pos(self.entries(), *p) {
                        Option::Some(i) => i + 1,
                        Option::None => -1,
                    },
                    Option::None => 0,
                };
                if start < 0 {
                    r == Err::<Vec<RawBlock>, Error>(Error::PointNotInWal)
                } else {
                    let page = apply_blocks(self.log().subrange(start, self.log().len() as int));
                    match r {
                        Ok(v) => {
                            &&& v@.len() == if page.len() <= len {
                                page.len() as int
                            } else {
                                len as int
                            }
                            &&& forall|i: int|
                                0 <= i < v@.len() ==> (#[trigger] v@[i])@ == page[i]
                        },
                        Err(_) => false,
                    }
                }
            }),
    {
        let start: usize = match from {
            Some(p) => {
                proof {
                    lemma_find_pos_props(self.entries(), *p);
                }
                match self.find_position(p) {
                    Some(i) => {
                        let n = self.wal.len();
                        proof {
                            assert((i as int) < self.entries().len());
                            assert(self.entries().len() == n as int);
                        }
                        i + 1
                    },
                    None => {
                        return Err(Error::PointNotInWal);
                    },
                }
            },
            None => 0,
        };
        let ghost endlog = self.log().len() as int;
        let ghost page = apply_blocks(self.log().subrange(start as int, endlog));
        let mut out: Vec<RawBlock> = Vec::new();
        let mut i: usize = start;
        proof {
            assert(self.log().subrange(start as int, start as int) =~= Seq::<LogModel>::empty());
        }
        while i < self.wal.len() && out.len() < len
            invariant
                start <= i <= self.wal@.len(),
                out@.len() <= len,
                ({
                    let sofar = apply_blocks(self.log().subrange(start as int, i as int));
                    &&& out@.len() == if sofar.len() <= len {
                        sofar.len() as int
                    } else {
                        len as int
                    }
                    &&& forall|t: int| 0 <= t < out@.len() ==> (#[trigger] out@[t])@ == sofar[t]
                }),
            decreases self.wal@.len() - i,
        {
            let ghost pre = self.log().subrange(start as int, i as int);
            proof {
                assert(self.log().subrange(start as int, i + 1).drop_last() == pre);
                assert(self.log().subrange(start as int, i + 1).last() == self.log()[i as int]);
            }
            match &self.wal[i].1 {
                LogValue::Apply(b) => {
                    out.push(b.duplicate());
                },
                _ => {},
            }
            i = i + 1;
        }
        proof {
            if i == self.wal@.len() {
                assert(self.log().subrange(start as int, i as int) == self.log().subrange(
                    start as int,
                    endlog,
                ));
            } else {
                // stopped because the page is full
                lemma_apply_blocks_prefix(self.log(), start as int, i as int, endlog);
            }
        }
        Ok(out)
    }

    /// One page of history for a paginated dump: up to `max_items` apply
    /// blocks after `from`, and, where more follow, the point of the next
    /// block as the token the client resumes with. Fetches one block more
    /// than the page holds; the spare becomes the token.
    pub fn dump_history(&self, from: Option<&ChainPoint>, max_items: usize) -> (r: Result<
        (Vec<RawBlock>, Option<ChainPoint>),
        Error,
    >)
        requires
            max_items < usize::MAX,
        ensures
            ({
                let start = match from {
                    Option::Some(p) => match find_pos(self.entries(), *p) {
                        Option::Some(i) => i + 1,
                        Option::None => -1,
                    },
                    Option::None => 0,
                };
                if start < 0 {
                    r == Err::<(Vec<RawBlock>, Option<ChainPoint>), Error>(Error::PointNotInWal)
                } else {
                    let page = apply_blocks(self.log().subrange(start, self.log().len() as int));
                    match r {
                        Ok((items, token)) => {
                            &&& items@.len() == if page.len() <= max_items {
                                page.len() as int
                            } else {
                                max_items as int
                            }
                            &&& forall|i: int|
                                0 <= i < items@.len() ==> (#[trigger] items@[i])@ == page[i]
                            &&& token == if page.len() > max_items {
                                Option::Some(block_point(page[max_items as int]))
                            } else {
                                Option::None::<ChainPoint>
                            }
                        },
                        Err(_) => false,
                    }
                }
            }),
    {
        let mut blocks = match self.read_block_page(from, max_items + 1) {
            Ok(v) => v,
            Err(e) => {
                return Err(e);
            },
        };
        if blocks.len() > max_items {
            let spare = blocks.pop().unwrap();
            Ok((blocks, Some(spare.point())))
        } else {
            Ok((blocks, None))
        }
    }

    /// The newest WAL position whose event names `p`.
    #[verifier::loop_isolation(false)]
    fn find_position(&self, p: &ChainPoint) -> (r: Option<usize>)
        ensures
            match find_pos(self.entries(), *p) {
                Option::Some(i) => r == Some(i as usize),
                Option::None => r == None::<usize>,
            },
    {
        proof {
            lemma_find_pos_props(self.entries(), *p);
            assert(self.entries().take(self.wal@.len() as int) == self.entries());
        }
        let mut j: usize = self.wal.len();
        while j > 0
            invariant
                j <= self.wal@.len(),
                find_pos(self.entries(), *p) == find_pos(self.entries().take(j as int), *p),
            decreases j,
        {
            j = j - 1;
            proof {
                assert(self.entries().take(j + 1).drop_last() == self.entries().take(j as int));
                assert(self.entries().take(j + 1).last() == self.entries()[j as int]);
            }
            if self.wal[j].1.point() == *p {
                return Some(j);
            }
        }
        proof {
            assert(self.entries().take(0) =~= Seq::<(u64, LogModel)>::empty());
        }
        None
    }

    /// For each point, the body-bearing block of its newest apply event;
    /// unresolved points are omitted silently.
    #[verifier::loop_isolation(false)]
    pub fn read_sparse_blocks(&self, points: &Vec<ChainPoint>) -> (r: Result<Vec<RawBlock>, Error>)
        ensures
            match r {
                Ok(v) => {
                    let want = sparse_blocks(self.log(), points@);
                    &&& v@.len() == want.len()
                    &&& forall|i: int| 0 <= i < v@.len() ==> (#[trigger] v@[i])@ == want[i]
                },
                Err(_) => false,
            },
    {
        let mut out: Vec<RawBlock> = Vec::new();
        let mut i: usize = 0;
        proof {
            assert(points@.take(0) =~= Seq::<ChainPoint>::empty());
        }
        while i < points.len()
            invariant
                i <= points@.len(),
                ({
                    let want = sparse_blocks(self.log(), points@.take(i as int));
                    &&& out@.len() == want.len()
                    &&& forall|t: int| 0 <= t < out@.len() ==> (#[trigger] out@[t])@ == want[t]
                }),
            decreases points@.len() - i,
        {
            proof {
                assert(points@.take(i + 1).drop_last() == points@.take(i as int));
                assert(points@.take(i + 1).last() == points@[i as int]);
            }
            match self.resolve_one(&points[i]) {
                Some(b) => {
                    out.push(b);
                },
                None => {},
            }
            i = i + 1;
        }
        proof {
            assert(points@.take(points@.len() as int) == points@);
        }
        Ok(out)
    }

    /// The newest apply event naming `p`, as an owned block.
    #[verifier::loop_isolation(false)]
    fn resolve_one(&self, p: &ChainPoint) -> (r: Option<RawBlock>)
        ensures
            match resolve_block(self.log(), *p) {
                Option::Some(b) => r matches Some(rb) && rb@ == b,
                Option::None => r is None,
            },
    {
        let mut j: usize = self.wal.len();
        proof {
            assert(self.log().take(self.wal@.len() as int) == self.log());
        }
        while j > 0
            invariant
                j <= self.wal@.len(),
                resolve_block(self.log(), *p) == resolve_block(self.log().take(j as int), *p),
            decreases j,
        {
            j = j - 1;
            proof {
                assert(self.log().take(j + 1).drop_last() == self.log().take(j as int));
                assert(self.log().take(j + 1).last() == self.log()[j as int]);
            }
            match &self.wal[j].1 {
                LogValue::Apply(b) => {
                    if b.point() == *p {
                        return Some(b.duplicate());
                    }
                },
                _ => {},
            }
        }
        proof {
            assert(self.log().take(0) =~= Seq::<LogModel>::empty());
        }
        None
    }

    /// All WAL events, oldest first.
    pub fn crawl_wal(&self) -> (r: Vec<LogValue>)
        ensures
            r@.len() == self.log().len(),
            forall|i: int| 0 <= i < r@.len() ==> (#[trigger] r@[i])@ == self.log()[i],
    {
        let mut out: Vec<LogValue> = Vec::new();
        let mut i: usize = 0;
        while i < self.wal.len()
            invariant
                i <= self.wal.len(),
                out@.len() == i,
                forall|j: int| 0 <= j < i ==> (#[trigger] out@[j])@ == self.log()[j],
            decreases self.wal.len() - i,
        {
            out.push(self.wal[i].1.duplicate());
            i = i + 1;
        }
        out
    }

    /// All chain-index entries, ascending by slot.
    pub fn crawl_chain(&self) -> (r: Vec<(u64, BlockHash)>)
        ensures
            r@ == self.chain_view(),
    {
        let mut out: Vec<(u64, BlockHash)> = Vec::new();
        let mut i: usize = 0;
        while i < self.chain.len()
            invariant
                i <= self.chain.len(),
                out@ == self.chain@.subrange(0, i as int),
            decreases self.chain.len() - i,
        {
            out.push(self.chain[i]);
            i = i + 1;
        }
        proof {
            assert(out@ == self.chain@);
        }
        out
    }
}

/// Whether a point sits among the candidates.
fn contains_point(v: &Vec<ChainPoint>, p: ChainPoint) -> (r: bool)
    ensures
        r == v@.contains(p),
{
    let mut i: usize = 0;
    while i < v.len()
        invariant
            i <= v@.len(),
            forall|j: int| 0 <= j < i ==> v@[j] != p,
        decreases v@.len() - i,
    {
        if v[i] == p {
            assert(v@[i as int] == p);
            return true;
        }
        i = i + 1;
    }
    assert(!v@.contains(p));
    false
}

/// Extending the compacted range only extends the page of apply blocks.
proof fn lemma_apply_blocks_prefix(log: Seq<LogModel>, a: int, b: int, c: int)
    requires
        0 <= a <= b <= c <= log.len(),
    ensures
        apply_blocks(log.subrange(a, c)).len() >= apply_blocks(log.subrange(a, b)).len(),
        forall|t: int|
            0 <= t < apply_blocks(log.subrange(a, b)).len() ==> #[trigger] apply_blocks(
                log.subrange(a, c),
            )[t] == apply_blocks(log.subrange(a, b))[t],
    decreases c - b,
{
    if c > b {
        lemma_apply_blocks_prefix(log, a, b, c - 1);
        assert(log.subrange(a, c).drop_last() == log.subrange(a, c - 1));
    }
}

proof fn lemma_sorted_unique(s: Seq<(u64, BlockHash)>)
    requires
        chain_sorted(s),
    ensures
        unique_keys(s),
{
}

/// Insert or replace a slot's hash in the chain index, keeping it sorted.
#[verifier::loop_isolation(false)]
fn chain_upsert(chain: &mut Vec<(u64, BlockHash)>, slot: u64, hash: BlockHash)
    requires
        chain_sorted(old(chain)@),
    ensures
        chain_sorted(final(chain)@),
        pair_map(final(chain)@) == pair_map(old(chain)@).insert(slot, hash),
{
    proof {
        lemma_sorted_unique(chain@);
    }
    let mut i: usize = 0;
    while i < chain.len() && chain[i].0 < slot
        invariant
            i <= chain@.len(),
            chain@ == old(chain)@,
            forall|j: int| 0 <= j < i ==> (#[trigger] chain@[j]).0 < slot,
        decreases chain@.len() - i,
    {
        i = i + 1;
    }
    if i < chain.len() && chain[i].0 == slot {
        let ghost olds = chain@;
        chain.set(i, (slot, hash));
        proof {
            lemma_pair_map_update(olds, i as int, slot, hash);
            assert(forall|j: int| 0 <= j < chain@.len() ==> (#[trigger] chain@[j]).0 == olds[j].0);
            assert(chain_sorted(chain@));
        }
    } else {
        let ghost olds = chain@;
        proof {
            assert(forall|j: int| 0 <= j < olds.len() ==> (#[trigger] olds[j]).0 != slot) by {
                assert forall|j: int| 0 <= j < olds.len() implies (#[trigger] olds[j]).0
                    != slot by {
                    if j >= i {
                        assert(olds[i as int].0 <= olds[j].0);
                    }
                }
            }
            lemma_pair_map_insert(olds, i as int, slot, hash);
            olds.insert_ensures(i as int, (slot, hash));
        }
        chain.insert(i, (slot, hash));
        proof {
            assert forall|a: int, b: int| 0 <= a < b < chain@.len() implies (
            #[trigger] chain@[a]).0 < (#[trigger] chain@[b]).0 by {
                if a < i && b == i {
                } else if a == i && b > i {
                    assert(chain@[b] == olds[b - 1]);
                    assert(olds[i as int].0 > slot);
                    assert(i as int <= b - 1);
                    assert(olds[i as int].0 <= olds[b - 1].0);
                } else if a < i && b > i {
                    assert(chain@[a] == olds[a]);
                    assert(chain@[b] == olds[b - 1]);
                } else if a > i && b > i {
                    assert(chain@[a] == olds[a - 1]);
                    assert(chain@[b] == olds[b - 1]);
                } else if a < i && b < i {
                    assert(chain@[a] == olds[a]);
                    assert(chain@[b] == olds[b]);
                }
            }
        }
    }
}

/// Delete a slot from the chain index; absent slots are left alone.
#[verifier::loop_isolation(false)]
fn chain_delete(chain: &mut Vec<(u64, BlockHash)>, slot: u64)
    requires
        chain_sorted(old(chain)@),
    ensures
        chain_sorted(final(chain)@),
        pair_map(final(chain)@) == pair_map(old(chain)@).remove(slot),
{
    proof {
        lemma_sorted_unique(chain@);
    }
    let mut i: usize = 0;
    while i < chain.len()
        invariant
            i <= chain@.len(),
            chain@ == old(chain)@,
            forall|j: int| 0 <= j < i ==> (#[trigger] chain@[j]).0 != slot,
        decreases chain@.len() - i,
    {
        if chain[i].0 == slot {
            let ghost olds = chain@;
            chain.remove(i);
            proof {
                lemma_pair_map_remove(olds, i as int);
                olds.remove_ensures(i as int);
                assert forall|a: int, b: int| 0 <= a < b < chain@.len() implies (
                #[trigger] chain@[a]).0 < (#[trigger] chain@[b]).0 by {
                    if b < i {
                    } else if a < i {
                        assert(chain@[b] == olds[b + 1]);
                    } else {
                        assert(chain@[a] == olds[a + 1]);
                        assert(chain@[b] == olds[b + 1]);
                    }
                }
            }
            return ;
        }
        i = i + 1;
    }
    proof {
        lemma_pair_map_dom(chain@, slot);
        assert(!pair_map(chain@).contains_key(slot));
        assert(pair_map(chain@) =~= pair_map(chain@).remove(slot));
    }
}

proof fn lemma_bytes_map_update(s: Seq<(BlockHash, Vec<u8>)>, i: int, hash: BlockHash, body: Vec<u8>)
    requires
        unique_keys(s),
        0 <= i < s.len(),
        s[i].0 == hash,
    ensures
        bytes_map(s.update(i, (hash, body))) == bytes_map(s).insert(hash, body@),
    decreases s.len(),
{
    let s2 = s.update(i, (hash, body));
    if i == s.len() - 1 {
        assert(s2.drop_last() == s.drop_last());
        assert(s2.last() == (hash, body));
        assert(bytes_map(s2) =~= bytes_map(s).insert(hash, body@));
    } else {
        assert(forall|j: int| 0 <= j < s.len() - 1 ==> s.drop_last()[j] == s[j]);
        assert(s2.drop_last() =~= s.drop_last().update(i, (hash, body)));
        assert(s2.last() == s.last());
        lemma_bytes_map_update(s.drop_last(), i, hash, body);
        assert((s[s.len() - 1]).0 != hash);
        assert(bytes_map(s2) =~= bytes_map(s).insert(hash, body@));
    }
}

/// Insert or replace a body in the block-body table.
fn blocks_upsert(blocks: &mut Vec<(BlockHash, Vec<u8>)>, hash: BlockHash, body: Vec<u8>)
    requires
        unique_keys(old(blocks)@),
    ensures
        unique_keys(final(blocks)@),
        bytes_map(final(blocks)@) == bytes_map(old(blocks)@).insert(hash, body@),
{
    let ghost bodyv = body@;
    let mut i: usize = 0;
    while i < blocks.len()
        invariant
            unique_keys(blocks@),
            blocks@ == old(blocks)@,
            i <= blocks.len(),
            forall|j: int| 0 <= j < i ==> (#[trigger] blocks@[j]).0 != hash,
        decreases blocks.len() - i,
    {
        if blocks[i].0 == hash {
            let ghost olds = blocks@;
            blocks.set(i, (hash, body));
            proof {
                lemma_bytes_map_update(olds, i as int, hash, blocks@[i as int].1);
                assert(blocks@ == olds.update(i as int, (hash, blocks@[i as int].1)));
                assert(forall|j: int|
                    0 <= j < blocks@.len() ==> (#[trigger] blocks@[j]).0 == olds[j].0);
                assert(unique_keys(blocks@));
            }
            return ;
        }
        i = i + 1;
    }
    let ghost olds = blocks@;
    blocks.push((hash, body));
    proof {
        assert(blocks@.drop_last() == olds);
        assert(blocks@.last() == (hash, body));
        assert forall|a: int, b: int| 0 <= a < b < blocks@.len() implies (#[trigger] blocks@[a]).0
            != (#[trigger] blocks@[b]).0 by {
            if b == blocks@.len() - 1 {
                assert((blocks@[a]).0 == (olds[a]).0);
            } else {
                assert((blocks@[a]).0 == (olds[a]).0);
                assert((blocks@[b]).0 == (olds[b]).0);
            }
        }
    }
}

} // verus!
