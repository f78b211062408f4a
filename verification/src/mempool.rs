//! The mempool monitor: per-transaction inclusion tracking across block
//! inclusion and rollback events, with confirmation-based pruning.

use vstd::prelude::*;

use crate::kv::{lemma_pair_map_dom, lemma_pair_map_index, pair_map, unique_keys};
use crate::types::{clone_bytes, BlockHash};

verus! {

/// A pending transaction: its hash and its raw bytes.
#[derive(Debug)]
pub struct Transaction {
    pub hash: BlockHash,
    pub raw: Vec<u8>,
}

/// Mathematical model of a [`Transaction`].
pub struct TxModel {
    pub hash: BlockHash,
    pub raw: Seq<u8>,
}

impl View for Transaction {
    type V = TxModel;

    open spec fn view(&self) -> TxModel {
        TxModel { hash: self.hash, raw: self.raw@ }
    }
}

impl Transaction {
    /// An owned copy of this transaction.
    pub fn duplicate(&self) -> (r: Transaction)
        ensures
            r@ == self@,
    {
        Transaction { hash: self.hash, raw: clone_bytes(&self.raw) }
    }
}

/// What the block monitor reports: a new block with the hashes of the
/// transactions it carries, or a rollback to a slot.
#[derive(Debug)]
pub enum BlockMonitorMessage {
    NewBlock(u64, Vec<BlockHash>),
    Rollback(u64),
}

/// One unit of mempool work: transactions submitted upstream, or a chain
/// update reported by the block monitor.
#[derive(Debug)]
pub enum MempoolEvent {
    AddTxs(Vec<Transaction>),
    ChainUpdate(BlockMonitorMessage),
}

/// What a new block at `slot` does to one tracked inclusion: a transaction
/// the block carries and that is not yet included is included at `slot`;
/// every other entry is left alone.
pub open spec fn include_step(
    v: Option<u64>,
    k: BlockHash,
    block_txs: Seq<BlockHash>,
    slot: u64,
) -> Option<u64> {
    if v is None && block_txs.contains(k) {
        Option::Some(slot)
    } else {
        v
    }
}

/// Whether a tracked inclusion survives pruning at tip `slot`: unincluded
/// transactions always stay; an included one stays until the tip is more
/// than `prune` slots past its inclusion slot.
pub open spec fn keep_after(v: Option<u64>, slot: u64, prune: u64) -> bool {
    match v {
        Option::None => true,
        Option::Some(s) => slot <= s + prune,
    }
}

/// What a rollback to `rb` does to one tracked inclusion: an inclusion
/// later than the rollback slot is reset; the rest stay.
pub open spec fn rollback_step(v: Option<u64>, rb: u64) -> Option<u64> {
    match v {
        Option::Some(s) => if s > rb {
            Option::None
        } else {
            Option::Some(s)
        },
        Option::None => Option::None,
    }
}

/// What submitting a batch of hashes does to the tracked map: each hash
/// not yet tracked is inserted as unincluded; tracked hashes are left
/// alone.
pub open spec fn add_txs_map(m: Map<BlockHash, Option<u64>>, hashes: Seq<BlockHash>) -> Map<
    BlockHash,
    Option<u64>,
>
    decreases hashes.len(),
{
    if hashes.len() == 0 {
        m
    } else {
        let m2 = add_txs_map(m, hashes.drop_last());
        if m2.contains_key(hashes.last()) {
            m2
        } else {
            m2.insert(hashes.last(), Option::None)
        }
    }
}

/// The hashes of a batch of transactions, in batch order.
pub open spec fn tx_hashes(txs: Seq<TxModel>) -> Seq<BlockHash> {
    txs.map_values(|t: TxModel| t.hash)
}

/// How a new block at `slot` carries the tracked map `m0` to `m1`: every
/// tracked transaction first gets its inclusion updated by the block's
/// transaction list, then survives exactly when within `prune` of the new
/// tip, keeping its updated inclusion.
pub open spec fn new_block_rel(
    m0: Map<BlockHash, Option<u64>>,
    m1: Map<BlockHash, Option<u64>>,
    block_txs: Seq<BlockHash>,
    slot: u64,
    prune: u64,
) -> bool {
    &&& forall|k: BlockHash|
        #[trigger] m1.contains_key(k) <==> (m0.contains_key(k) && keep_after(
            include_step(m0[k], k, block_txs, slot),
            slot,
            prune,
        ))
    &&& forall|k: BlockHash|
        #[trigger] m1.contains_key(k) ==> m1[k] == include_step(m0[k], k, block_txs, slot)
}

/// How a rollback to `rb` carries the tracked map `m0` to `m1`: no
/// transaction is dropped, and every inclusion later than `rb` is reset.
pub open spec fn rollback_rel(
    m0: Map<BlockHash, Option<u64>>,
    m1: Map<BlockHash, Option<u64>>,
    rb: u64,
) -> bool {
    &&& forall|k: BlockHash| #[trigger] m1.contains_key(k) <==> m0.contains_key(k)
    &&& forall|k: BlockHash| #[trigger] m1.contains_key(k) ==> m1[k] == rollback_step(m0[k], rb)
}

/// The monitor: the chain tip slot as last reported, and per tracked
/// transaction its inclusion slot, where one has been observed.
pub struct Monitor {
    tip_slot: u64,
    txs: Vec<(BlockHash, Option<u64>)>,
}

impl Monitor {
    /// The tracked transactions as a map from hash to inclusion slot.
    pub closed spec fn txs_map(&self) -> Map<BlockHash, Option<u64>> {
        pair_map(self.txs@)
    }

    /// The tip slot as last reported by the block monitor.
    pub closed spec fn tip(&self) -> u64 {
        self.tip_slot
    }

    /// Well-formedness: each transaction is tracked once.
    pub closed spec fn wf(&self) -> bool {
        unique_keys(self.txs@)
    }

    /// An empty monitor.
    pub fn new() -> (r: Monitor)
        ensures
            r.wf(),
            r.tip() == 0,
            r.txs_map() == Map::<BlockHash, Option<u64>>::empty(),
    {
        Monitor { tip_slot: 0, txs: Vec::new() }
    }

    /// The current tip slot.
    pub fn tip_slot(&self) -> (r: u64)
        ensures
            r == self.tip(),
    {
        self.tip_slot
    }

    /// Track newly submitted transactions: each hash not yet tracked is
    /// inserted as unincluded; tracked ones are not overwritten.
    #[verifier::loop_isolation(false)]
    pub fn submit(&mut self, txs: &Vec<Transaction>)
        requires
            old(self).wf(),
        ensures
            final(self).wf(),
            final(self).tip() == old(self).tip(),
            final(self).txs_map() == add_txs_map(
                old(self).txs_map(),
                tx_hashes(txs@.map_values(|t: Transaction| t@)),
            ),
    {
        let ghost hashes = tx_hashes(txs@.map_values(|t: Transaction| t@));
        let mut i: usize = 0;
        proof {
            assert(hashes.take(0) =~= Seq::<BlockHash>::empty());
        }
        while i < txs.len()
            invariant
                i <= txs@.len(),
                self.tip_slot == old(self).tip_slot,
                unique_keys(self.txs@),
                pair_map(self.txs@) == add_txs_map(old(self).txs_map(), hashes.take(i as int)),
            decreases txs@.len() - i,
        {
            proof {
                assert(hashes.take(i + 1).drop_last() == hashes.take(i as int));
                assert(hashes.take(i + 1).last() == hashes[i as int]);
                assert(hashes[i as int] == txs@[i as int].hash);
            }
            let h = txs[i].hash;
            if !contains_hash_key(&self.txs, h) {
                let ghost olds = self.txs@;
                self.txs.push((h, None));
                proof {
                    assert(self.txs@.drop_last() == olds);
                    assert(self.txs@.last() == (h, Option::<u64>::None));
                    assert forall|a: int, b: int| 0 <= a < b < self.txs@.len() implies (
                    #[trigger] self.txs@[a]).0 != (#[trigger] self.txs@[b]).0 by {
                        if b == self.txs@.len() - 1 {
                            lemma_pair_map_dom(olds, h);
                        }
                    }
                }
            }
            i = i + 1;
        }
        proof {
            assert(hashes.take(hashes.len() as int) == hashes);
        }
    }

    /// Apply a chain update. A new block at `slot` includes every tracked,
    /// not-yet-included transaction it carries at `slot`, prunes every
    /// inclusion more than `prune_height` slots behind, and moves the tip
    /// to `slot`. A rollback resets every inclusion later than the
    /// rollback slot and moves the tip there.
    pub fn on_chain_update(&mut self, msg: &BlockMonitorMessage, prune_height: u64)
        requires
            old(self).wf(),
        ensures
            final(self).wf(),
            match *msg {
                BlockMonitorMessage::NewBlock(slot, ref block_txs) => final(self).tip() == slot
                    && new_block_rel(
                    old(self).txs_map(),
                    final(self).txs_map(),
                    block_txs@,
                    slot,
                    prune_height,
                ),
                BlockMonitorMessage::Rollback(rb) => final(self).tip() == rb && rollback_rel(
                    old(self).txs_map(),
                    final(self).txs_map(),
                    rb,
                ),
            },
    {
        match msg {
            BlockMonitorMessage::NewBlock(slot, block_txs) => {
                let ghost m0 = pair_map(self.txs@);
                let ghost src0 = self.txs@;
                include_txs(&mut self.txs, block_txs, *slot);
                let ghost src1 = self.txs@;
                let ghost m1 = pair_map(src1);
                proof {
                    assert forall|k: BlockHash| #[trigger] m1.contains_key(k) <==> m0.contains_key(
                        k,
                    ) by {
                        lemma_pair_map_dom(src0, k);
                        lemma_pair_map_dom(src1, k);
                        if m1.contains_key(k) {
                            let j = choose|j: int|
                                0 <= j < src1.len() && (#[trigger] src1[j]).0 == k;
                            assert((src0[j]).0 == k);
                        }
                        if m0.contains_key(k) {
                            let j = choose|j: int|
                                0 <= j < src0.len() && (#[trigger] src0[j]).0 == k;
                            assert((src1[j]).0 == k);
                        }
                    }
                    assert forall|k: BlockHash| #[trigger] m1.contains_key(k) implies m1[k]
                        == include_step(m0[k], k, block_txs@, *slot) by {
                        lemma_pair_map_dom(src1, k);
                        let j = choose|j: int| 0 <= j < src1.len() && (#[trigger] src1[j]).0 == k;
                        lemma_pair_map_index(src1, j);
                        lemma_pair_map_index(src0, j);
                    }
                }
                prune_txs(&mut self.txs, *slot, prune_height);
                self.tip_slot = *slot;
                proof {
                    assert(new_block_rel(m0, pair_map(self.txs@), block_txs@, *slot, prune_height));
                }
            },
            BlockMonitorMessage::Rollback(rb) => {
                let ghost m0 = pair_map(self.txs@);
                let ghost src0 = self.txs@;
                rollback_txs(&mut self.txs, *rb);
                let ghost src1 = self.txs@;
                self.tip_slot = *rb;
                proof {
                    assert forall|k: BlockHash| #[trigger]
                        pair_map(src1).contains_key(k) <==> m0.contains_key(k) by {
                        lemma_pair_map_dom(src0, k);
                        lemma_pair_map_dom(src1, k);
                        if pair_map(src1).contains_key(k) {
                            let j = choose|j: int|
                                0 <= j < src1.len() && (#[trigger] src1[j]).0 == k;
                            assert((src0[j]).0 == k);
                        }
                        if m0.contains_key(k) {
                            let j = choose|j: int|
                                0 <= j < src0.len() && (#[trigger] src0[j]).0 == k;
                            assert((src1[j]).0 == k);
                        }
                    }
                    assert forall|k: BlockHash| #[trigger]
                        pair_map(src1).contains_key(k) implies pair_map(src1)[k] == rollback_step(
                        m0[k],
                        *rb,
                    ) by {
                        lemma_pair_map_dom(src1, k);
                        let j = choose|j: int| 0 <= j < src1.len() && (#[trigger] src1[j]).0 == k;
                        lemma_pair_map_index(src1, j);
                        lemma_pair_map_index(src0, j);
                    }
                }
            },
        }
    }

    /// How many slots deep a transaction's inclusion lies below the tip:
    /// the confirmation count the submit interface awaits. Nothing for a
    /// transaction that is untracked, unincluded, or included past the
    /// tip.
    #[verifier::loop_isolation(false)]
    pub fn confirmations(&self, tx_hash: &BlockHash) -> (r: Option<u64>)
        requires
            self.wf(),
        ensures
            match r {
                Some(d) => self.txs_map().contains_key(*tx_hash) && (self.txs_map()[*tx_hash]
                    matches Some(s) && s <= self.tip() && d == self.tip() - s),
                None => !self.txs_map().contains_key(*tx_hash) || self.txs_map()[*tx_hash] is None
                    || (self.txs_map()[*tx_hash] matches Some(s) && s > self.tip()),
            },
    {
        let mut i: usize = 0;
        while i < self.txs.len()
            invariant
                i <= self.txs@.len(),
                forall|j: int| 0 <= j < i ==> (#[trigger] self.txs@[j]).0 != *tx_hash,
            decreases self.txs@.len() - i,
        {
            if self.txs[i].0 == *tx_hash {
                proof {
                    lemma_pair_map_index(self.txs@, i as int);
                }
                match self.txs[i].1 {
                    Some(s) => {
                        if s <= self.tip_slot {
                            return Some(self.tip_slot - s);
                        } else {
                            return None;
                        }
                    },
                    None => {
                        return None;
                    },
                }
            }
            i = i + 1;
        }
        proof {
            lemma_pair_map_dom(self.txs@, *tx_hash);
        }
        None
    }

    /// The tracked inclusion of a transaction: nothing where it is not
    /// tracked, otherwise its inclusion slot where one has been observed.
    #[verifier::loop_isolation(false)]
    pub fn inclusion(&self, tx_hash: &BlockHash) -> (r: Option<Option<u64>>)
        requires
            self.wf(),
        ensures
            match r {
                Some(v) => self.txs_map().contains_key(*tx_hash) && v == self.txs_map()[*tx_hash],
                None => !self.txs_map().contains_key(*tx_hash),
            },
    {
        let mut i: usize = 0;
        while i < self.txs.len()
            invariant
                i <= self.txs@.len(),
                forall|j: int| 0 <= j < i ==> (#[trigger] self.txs@[j]).0 != *tx_hash,
            decreases self.txs@.len() - i,
        {
            if self.txs[i].0 == *tx_hash {
                proof {
                    lemma_pair_map_index(self.txs@, i as int);
                }
                return Some(self.txs[i].1);
            }
            i = i + 1;
        }
        proof {
            lemma_pair_map_dom(self.txs@, *tx_hash);
        }
        None
    }

    /// One unit of mempool work, as the stage worker performs it: a
    /// submission is tracked and handed back for propagation downstream; a
    /// chain update adjusts inclusions and the tip.
    pub fn handle_event(&mut self, event: &MempoolEvent, prune_height: u64) -> (forward: Option<
        Vec<Transaction>,
    >)
        requires
            old(self).wf(),
        ensures
            final(self).wf(),
            match *event {
                MempoolEvent::AddTxs(ref txs) => {
                    &&& final(self).tip() == old(self).tip()
                    &&& final(self).txs_map() == add_txs_map(
                        old(self).txs_map(),
                        tx_hashes(txs@.map_values(|t: Transaction| t@)),
                    )
                    &&& forward matches Some(f) && f@.len() == txs@.len() && (forall|i: int|
                        0 <= i < f@.len() ==> (#[trigger] f@[i])@ == txs@[i]@)
                },
                MempoolEvent::ChainUpdate(_) => forward is None,
            },
            match *event {
                MempoolEvent::ChainUpdate(BlockMonitorMessage::NewBlock(slot, ref block_txs)) => final(self).tip()
                    == slot && new_block_rel(
                    old(self).txs_map(),
                    final(self).txs_map(),
                    block_txs@,
                    slot,
                    prune_height,
                ),
                MempoolEvent::ChainUpdate(BlockMonitorMessage::Rollback(rb)) => final(self).tip()
                    == rb && rollback_rel(old(self).txs_map(), final(self).txs_map(), rb),
                MempoolEvent::AddTxs(_) => true,
            },
    {
        match event {
            MempoolEvent::AddTxs(txs) => {
                let mut f: Vec<Transaction> = Vec::new();
                let mut i: usize = 0;
                while i < txs.len()
                    invariant
                        i <= txs@.len(),
                        f@.len() == i,
                        forall|j: int| 0 <= j < i ==> (#[trigger] f@[j])@ == txs@[j]@,
                    decreases txs@.len() - i,
                {
                    f.push(txs[i].duplicate());
                    i = i + 1;
                }
                self.submit(txs);
                Some(f)
            },
            MempoolEvent::ChainUpdate(msg) => {
                self.on_chain_update(msg, prune_height);
                None
            },
        }
    }
}

impl Default for Monitor {
    /// An empty monitor.
    fn default() -> (r: Monitor)
        ensures
            r.wf(),
            r.tip() == 0,
            r.txs_map() == Map::<BlockHash, Option<u64>>::empty(),
    {
        Monitor::new()
    }
}

/// Whether a hash is a key of the tracked-transaction table.
fn contains_hash_key(v: &Vec<(BlockHash, Option<u64>)>, h: BlockHash) -> (r: bool)
    ensures
        r == pair_map(v@).contains_key(h),
{
    let mut i: usize = 0;
    while i < v.len()
        invariant
            i <= v@.len(),
            forall|j: int| 0 <= j < i ==> (#[trigger] v@[j]).0 != h,
        decreases v@.len() - i,
    {
        if v[i].0 == h {
            proof {
                lemma_pair_map_dom(v@, h);
            }
            return true;
        }
        i = i + 1;
    }
    proof {
        lemma_pair_map_dom(v@, h);
    }
    false
}

/// Whether a hash occurs in a block's transaction list.
fn contains_hash(v: &Vec<BlockHash>, h: BlockHash) -> (r: bool)
    ensures
        r == v@.contains(h),
{
    let mut i: usize = 0;
    while i < v.len()
        invariant
            i <= v@.len(),
            forall|j: int| 0 <= j < i ==> v@[j] != h,
        decreases v@.len() - i,
    {
        if v[i] == h {
            assert(v@[i as int] == h);
            return true;
        }
        i = i + 1;
    }
    assert(!v@.contains(h));
    false
}

/// Set the inclusion slot of every tracked, not-yet-included transaction
/// that the new block carries.
#[verifier::loop_isolation(false)]
fn include_txs(txs: &mut Vec<(BlockHash, Option<u64>)>, block_txs: &Vec<BlockHash>, slot: u64)
    requires
        unique_keys(old(txs)@),
    ensures
        unique_keys(final(txs)@),
        final(txs)@.len() == old(txs)@.len(),
        forall|j: int|
            0 <= j < final(txs)@.len() ==> (#[trigger] final(txs)@[j]).0 == old(txs)@[j].0,
        forall|j: int|
            0 <= j < final(txs)@.len() ==> (#[trigger] final(txs)@[j]).1 == include_step(
                old(txs)@[j].1,
                old(txs)@[j].0,
                block_txs@,
                slot,
            ),
{
    let mut i: usize = 0;
    while i < txs.len()
        invariant
            i <= txs@.len(),
            txs@.len() == old(txs)@.len(),
            forall|j: int| 0 <= j < txs@.len() ==> (#[trigger] txs@[j]).0 == old(txs)@[j].0,
            forall|j: int|
                0 <= j < i ==> (#[trigger] txs@[j]).1 == include_step(
                    old(txs)@[j].1,
                    old(txs)@[j].0,
                    block_txs@,
                    slot,
                ),
            forall|j: int| i <= j < txs@.len() ==> (#[trigger] txs@[j]).1 == old(txs)@[j].1,
        decreases txs@.len() - i,
    {
        let is_none = match txs[i].1 {
            None => true,
            Some(_) => false,
        };
        if is_none && contains_hash(block_txs, txs[i].0) {
            let h = txs[i].0;
            txs.set(i, (h, Some(slot)));
        }
        i = i + 1;
    }
    proof {
        assert(unique_keys(txs@));
    }
}

/// Drop every transaction whose inclusion lies more than `prune` slots
/// behind the tip `slot`.
#[verifier::loop_isolation(false)]
fn prune_txs(txs: &mut Vec<(BlockHash, Option<u64>)>, slot: u64, prune: u64)
    requires
        unique_keys(old(txs)@),
    ensures
        unique_keys(final(txs)@),
        forall|k: BlockHash|
            #[trigger] pair_map(final(txs)@).contains_key(k) <==> (pair_map(
                old(txs)@,
            ).contains_key(k) && keep_after(pair_map(old(txs)@)[k], slot, prune)),
        forall|k: BlockHash|
            #[trigger] pair_map(final(txs)@).contains_key(k) ==> pair_map(final(txs)@)[k]
                == pair_map(old(txs)@)[k],
{
    let ghost src = txs@;
    let mut out: Vec<(BlockHash, Option<u64>)> = Vec::new();
    let mut i: usize = 0;
    while i < txs.len()
        invariant
            i <= src.len(),
            txs@ == src,
            unique_keys(out@),
            forall|k: BlockHash|
                #[trigger] pair_map(out@).contains_key(k) <==> (pair_map(
                    src.take(i as int),
                ).contains_key(k) && keep_after(pair_map(src.take(i as int))[k], slot, prune)),
            forall|k: BlockHash|
                #[trigger] pair_map(out@).contains_key(k) ==> pair_map(out@)[k] == pair_map(
                    src.take(i as int),
                )[k],
        decreases src.len() - i,
    {
        let ghost pre = src.take(i as int);
        proof {
            assert(src.take(i + 1).drop_last() == pre);
            assert(src.take(i + 1).last() == src[i as int]);
            assert(forall|j: int| 0 <= j < i ==> pre[j] == src[j]);
            lemma_pair_map_dom(pre, src[i as int].0);
            assert(!pair_map(pre).contains_key(src[i as int].0));
        }
        let keep = match txs[i].1 {
            None => true,
            Some(s) => {
                // the tip is at most `prune` slots past the inclusion
                slot <= s || slot - s <= prune
            },
        };
        proof {
            assert(keep == keep_after(src[i as int].1, slot, prune));
        }
        let ghost oldout = out@;
        if keep {
            out.push(txs[i]);
            proof {
                assert(out@.drop_last() == oldout);
                assert(out@.last() == src[i as int]);
                assert(!pair_map(oldout).contains_key(src[i as int].0));
                assert forall|a: int, b: int| 0 <= a < b < out@.len() implies (
                #[trigger] out@[a]).0 != (#[trigger] out@[b]).0 by {
                    if b == out@.len() - 1 {
                        lemma_pair_map_dom(oldout, out@[b].0);
                        lemma_pair_map_dom(oldout, out@[a].0);
                    }
                }
            }
        }
        i = i + 1;
        proof {
            let key = src[i - 1].0;
            let v = src[i - 1].1;
            let cur = src.take(i as int);
            assert(pair_map(cur) == pair_map(pre).insert(key, v));
            assert forall|k: BlockHash| #[trigger]
                pair_map(out@).contains_key(k) <==> (pair_map(cur).contains_key(k) && keep_after(
                pair_map(cur)[k],
                slot,
                prune,
            )) by {
                if k == key {
                    if keep {
                        assert(pair_map(out@) == pair_map(oldout).insert(key, v));
                    } else {
                        assert(!pair_map(pre).contains_key(k));
                        assert(!pair_map(out@).contains_key(k));
                    }
                } else {
                    assert(pair_map(cur).contains_key(k) == pair_map(pre).contains_key(k));
                    if keep {
                        assert(pair_map(out@) == pair_map(oldout).insert(key, v));
                    }
                }
            }
            assert forall|k: BlockHash| #[trigger] pair_map(out@).contains_key(k) implies pair_map(
                out@,
            )[k] == pair_map(cur)[k] by {
                if keep {
                    assert(pair_map(out@) == pair_map(oldout).insert(key, v));
                }
            }
        }
    }
    proof {
        assert(src.take(src.len() as int) == src);
    }
    *txs = out;
}

/// Reset every inclusion later than the rollback slot.
#[verifier::loop_isolation(false)]
fn rollback_txs(txs: &mut Vec<(BlockHash, Option<u64>)>, rb: u64)
    requires
        unique_keys(old(txs)@),
    ensures
        unique_keys(final(txs)@),
        final(txs)@.len() == old(txs)@.len(),
        forall|j: int|
            0 <= j < final(txs)@.len() ==> (#[trigger] final(txs)@[j]).0 == old(txs)@[j].0,
        forall|j: int|
            0 <= j < final(txs)@.len() ==> (#[trigger] final(txs)@[j]).1 == rollback_step(
                old(txs)@[j].1,
                rb,
            ),
{
    let mut i: usize = 0;
    while i < txs.len()
        invariant
            i <= txs@.len(),
            txs@.len() == old(txs)@.len(),
            forall|j: int| 0 <= j < txs@.len() ==> (#[trigger] txs@[j]).0 == old(txs)@[j].0,
            forall|j: int|
                0 <= j < i ==> (#[trigger] txs@[j]).1 == rollback_step(old(txs)@[j].1, rb),
            forall|j: int| i <= j < txs@.len() ==> (#[trigger] txs@[j]).1 == old(txs)@[j].1,
        decreases txs@.len() - i,
    {
        let reset = match txs[i].1 {
            Some(s) => s > rb,
            None => false,
        };
        if reset {
            let h = txs[i].0;
            txs.set(i, (h, None));
        }
        i = i + 1;
    }
    proof {
        assert(unique_keys(txs@));
    }
}

} // verus!
