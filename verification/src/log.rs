//! The WAL event log as a mathematical object: the stack of active blocks a
//! log implies, causal consistency of undos, and the lemmas that relate them.

use vstd::prelude::*;

use crate::types::{block_point, BlockModel, ChainPoint, LogModel};

verus! {

/// The block carried by an undo event; meaningless for other events.
pub open spec fn undo_block(v: LogModel) -> BlockModel {
    match v {
        LogModel::Undo(b) => b,
        _ => arbitrary(),
    }
}

/// The block carried by an apply event; meaningless for other events.
pub open spec fn apply_block(v: LogModel) -> BlockModel {
    match v {
        LogModel::Apply(b) => b,
        _ => arbitrary(),
    }
}

/// The stack of currently applied blocks a log implies, oldest first: an
/// apply pushes its block, an undo of the top block pops it, a mark leaves
/// the stack alone. An undo that does not match the top is ignored; such an
/// event only arises when compaction has already moved the matching apply
/// out of the WAL.
pub open spec fn wal_stack(log: Seq<LogModel>) -> Seq<BlockModel>
    decreases log.len(),
{
    if log.len() == 0 {
        Seq::empty()
    } else {
        let s = wal_stack(log.drop_last());
        match log.last() {
            LogModel::Apply(b) => s.push(b),
            LogModel::Undo(b) => {
                if s.len() > 0 && s.last() == b {
                    s.drop_last()
                } else {
                    s
                }
            },
            LogModel::Mark(_) => s,
        }
    }
}

/// A log is causally consistent when every undo reverts exactly the block
/// that is on top of the active stack at that moment: the block was applied
/// earlier and has not been undone since. Logs built purely by appending
/// (no compaction) satisfy this.
pub open spec fn causal(log: Seq<LogModel>) -> bool {
    forall|j: int|
        0 <= j < log.len() && log[j] is Undo ==> {
            let s = wal_stack(#[trigger] log.take(j));
            s.len() > 0 && s.last() == undo_block(log[j])
        }
}

/// How many applies of the blocks at point `p` a log holds.
pub open spec fn count_applies(log: Seq<LogModel>, p: ChainPoint) -> int
    decreases log.len(),
{
    if log.len() == 0 {
        0
    } else {
        count_applies(log.drop_last(), p) + if log.last() is Apply && block_point(
            apply_block(log.last()),
        ) == p {
            1int
        } else {
            0int
        }
    }
}

/// How many undos of the blocks at point `p` a log holds.
pub open spec fn count_undos(log: Seq<LogModel>, p: ChainPoint) -> int
    decreases log.len(),
{
    if log.len() == 0 {
        0
    } else {
        count_undos(log.drop_last(), p) + if log.last() is Undo && block_point(
            undo_block(log.last()),
        ) == p {
            1int
        } else {
            0int
        }
    }
}

/// How many blocks at point `p` a stack holds.
pub open spec fn count_stack(s: Seq<BlockModel>, p: ChainPoint) -> int
    decreases s.len(),
{
    if s.len() == 0 {
        0
    } else {
        count_stack(s.drop_last(), p) + if block_point(s.last()) == p {
            1int
        } else {
            0int
        }
    }
}

pub proof fn lemma_count_stack_nonneg(s: Seq<BlockModel>, p: ChainPoint)
    ensures
        count_stack(s, p) >= 0,
    decreases s.len(),
{
    if s.len() > 0 {
        lemma_count_stack_nonneg(s.drop_last(), p);
    }
}

/// A prefix of a causally consistent log is causally consistent.
pub proof fn lemma_causal_take(log: Seq<LogModel>, n: int)
    requires
        causal(log),
        0 <= n <= log.len(),
    ensures
        causal(log.take(n)),
{
    assert forall|j: int| 0 <= j < n && log.take(n)[j] is Undo implies {
        let s = wal_stack(#[trigger] log.take(n).take(j));
        s.len() > 0 && s.last() == undo_block(log.take(n)[j])
    } by {
        assert(log.take(n).take(j) == log.take(j));
    }
}

/// In a causally consistent log, the number of active blocks at any point is
/// exactly the applies minus the undos of that point; in particular undos of
/// a point never outnumber its applies.
pub proof fn lemma_stack_count(log: Seq<LogModel>, p: ChainPoint)
    requires
        causal(log),
    ensures
        count_stack(wal_stack(log), p) == count_applies(log, p) - count_undos(log, p),
    decreases log.len(),
{
    if log.len() > 0 {
        assert(log.take(log.len() - 1) == log.drop_last());
        lemma_causal_take(log, log.len() - 1);
        lemma_stack_count(log.drop_last(), p);
        let s = wal_stack(log.drop_last());
        match log.last() {
            LogModel::Apply(b) => {
                assert(s.push(b).drop_last() == s);
                assert(s.push(b).last() == b);
            },
            LogModel::Undo(b) => {
                assert(log[log.len() - 1] is Undo);
                assert(s.len() > 0 && s.last() == b);
                assert(s == s.drop_last().push(s.last()));
            },
            LogModel::Mark(_) => {},
        }
    }
}

/// A log never applies a block whose point is already active: each apply
/// lands on a stack that holds no block at the same point. Real chains
/// satisfy this, since a block cannot sit in the chain twice.
pub open spec fn fresh_applies(log: Seq<LogModel>) -> bool {
    forall|j: int|
        0 <= j < log.len() && log[j] is Apply ==> count_stack(
            wal_stack(#[trigger] log.take(j)),
            block_point(apply_block(log[j])),
        ) == 0
}

/// A prefix of a log with fresh applies has fresh applies.
pub proof fn lemma_fresh_take(log: Seq<LogModel>, n: int)
    requires
        fresh_applies(log),
        0 <= n <= log.len(),
    ensures
        fresh_applies(log.take(n)),
{
    assert forall|j: int| 0 <= j < n && log.take(n)[j] is Apply implies count_stack(
        wal_stack(#[trigger] log.take(n).take(j)),
        block_point(apply_block(log.take(n)[j])),
    ) == 0 by {
        assert(log.take(n).take(j) == log.take(j));
    }
}

/// With causal undos and fresh applies, at most one active block sits at
/// any point.
pub proof fn lemma_stack_mult_one(log: Seq<LogModel>, p: ChainPoint)
    requires
        causal(log),
        fresh_applies(log),
    ensures
        count_stack(wal_stack(log), p) <= 1,
    decreases log.len(),
{
    if log.len() > 0 {
        assert(log.take(log.len() - 1) == log.drop_last());
        lemma_causal_take(log, log.len() - 1);
        lemma_fresh_take(log, log.len() - 1);
        lemma_stack_mult_one(log.drop_last(), p);
        let s = wal_stack(log.drop_last());
        match log.last() {
            LogModel::Apply(b) => {
                assert(log[log.len() - 1] is Apply);
                assert(count_stack(s, block_point(b)) == 0);
                assert(s.push(b).drop_last() == s);
                assert(s.push(b).last() == b);
            },
            LogModel::Undo(b) => {
                if s.len() > 0 && s.last() == b {
                    assert(s == s.drop_last().push(s.last()));
                    lemma_count_stack_nonneg(s.drop_last(), p);
                }
            },
            LogModel::Mark(_) => {},
        }
    }
}

/// Causal consistency phrased as spec item: every undo in a causally
/// consistent log reverts a block applied strictly earlier and not yet
/// undone; counted over any prefix ending at the undo, applies of the
/// undone point strictly outnumber its undos.
pub proof fn lemma_undo_has_prior_apply(log: Seq<LogModel>, j: int)
    requires
        causal(log),
        0 <= j < log.len(),
        log[j] is Undo,
    ensures
        count_applies(log.take(j), block_point(undo_block(log[j]))) > count_undos(
            log.take(j),
            block_point(undo_block(log[j])),
        ),
{
    let p = block_point(undo_block(log[j]));
    let s = wal_stack(log.take(j));
    lemma_causal_take(log, j);
    lemma_stack_count(log.take(j), p);
    assert(s == s.drop_last().push(s.last()));
    assert(count_stack(s, p) >= 1) by {
        lemma_count_stack_nonneg(s.drop_last(), p);
    }
}

/// Counts split over concatenation of log segments, phrased with `take`.
pub proof fn lemma_count_split(log: Seq<LogModel>, a: int, b: int, p: ChainPoint)
    requires
        0 <= a <= b <= log.len(),
    ensures
        count_applies(log.take(b), p) == count_applies(log.take(a), p) + count_range_applies(
            log,
            a,
            b,
            p,
        ),
        count_undos(log.take(b), p) == count_undos(log.take(a), p) + count_range_undos(
            log,
            a,
            b,
            p,
        ),
    decreases b - a,
{
    if a == b {
        assert(log.take(b) == log.take(a));
    } else {
        lemma_count_split(log, a, b - 1, p);
        assert(log.take(b).drop_last() == log.take(b - 1));
        assert(log.take(b).last() == log[b - 1]);
    }
}

/// Applies of point `p` among positions `a..b` of the log.
pub open spec fn count_range_applies(log: Seq<LogModel>, a: int, b: int, p: ChainPoint) -> int
    decreases b - a,
{
    if a >= b {
        0
    } else {
        count_range_applies(log, a, b - 1, p) + if log[b - 1] is Apply && block_point(
            apply_block(log[b - 1]),
        ) == p {
            1int
        } else {
            0int
        }
    }
}

/// Undos of point `p` among positions `a..b` of the log.
pub open spec fn count_range_undos(log: Seq<LogModel>, a: int, b: int, p: ChainPoint) -> int
    decreases b - a,
{
    if a >= b {
        0
    } else {
        count_range_undos(log, a, b - 1, p) + if log[b - 1] is Undo && block_point(
            undo_block(log[b - 1]),
        ) == p {
            1int
        } else {
            0int
        }
    }
}

/// No double undo: in a causally consistent log whose applies are fresh,
/// two undos of the same point always have an apply of that point strictly
/// between them. Two consecutive undos of one block without a fresh apply
/// cannot happen.
pub proof fn lemma_no_double_undo(log: Seq<LogModel>, j1: int, j2: int)
    requires
        causal(log),
        fresh_applies(log),
        0 <= j1 < j2 < log.len(),
        log[j1] is Undo,
        log[j2] is Undo,
        block_point(undo_block(log[j1])) == block_point(undo_block(log[j2])),
    ensures
        exists|i: int|
            j1 < i < j2 && log[i] is Apply && block_point(apply_block(#[trigger] log[i]))
                == block_point(undo_block(log[j1])),
{
    let p = block_point(undo_block(log[j1]));
    if forall|i: int|
        j1 < i < j2 ==> !(log[i] is Apply && block_point(apply_block(#[trigger] log[i])) == p) {
        lemma_undo_has_prior_apply(log, j1);
        lemma_undo_has_prior_apply(log, j2);
        lemma_causal_take(log, j1);
        lemma_fresh_take(log, j1);
        lemma_stack_count(log.take(j1), p);
        lemma_stack_mult_one(log.take(j1), p);
        lemma_count_split(log, j1 + 1, j2, p);
        assert(count_range_applies(log, j1 + 1, j2, p) == 0) by {
            lemma_count_range_zero_applies(log, j1 + 1, j2, p);
        }
        assert(count_range_undos(log, j1 + 1, j2, p) >= 0) by {
            lemma_count_range_nonneg(log, j1 + 1, j2, p);
        }
        assert(log.take(j1 + 1).drop_last() == log.take(j1));
        assert(log.take(j1 + 1).last() == log[j1]);
        assert(false);
    }
}

proof fn lemma_count_range_zero_applies(log: Seq<LogModel>, a: int, b: int, p: ChainPoint)
    requires
        0 <= a <= b <= log.len(),
        forall|i: int|
            a <= i < b ==> !(log[i] is Apply && block_point(apply_block(#[trigger] log[i])) == p),
    ensures
        count_range_applies(log, a, b, p) == 0,
    decreases b - a,
{
    if a < b {
        lemma_count_range_zero_applies(log, a, b - 1, p);
    }
}

proof fn lemma_count_range_nonneg(log: Seq<LogModel>, a: int, b: int, p: ChainPoint)
    requires
        a <= b,
    ensures
        count_range_undos(log, a, b, p) >= 0,
    decreases b - a,
{
    if a < b {
        lemma_count_range_nonneg(log, a, b - 1, p);
    }
}

/// Appending one event preserves causal consistency, provided an undo
/// reverts exactly the top of the active stack.
pub proof fn lemma_causal_push(log: Seq<LogModel>, v: LogModel)
    requires
        causal(log),
        v is Undo ==> wal_stack(log).len() > 0 && wal_stack(log).last() == undo_block(v),
    ensures
        causal(log.push(v)),
{
    let log2 = log.push(v);
    assert forall|j: int| 0 <= j < log2.len() && log2[j] is Undo implies {
        let s = wal_stack(#[trigger] log2.take(j));
        s.len() > 0 && s.last() == undo_block(log2[j])
    } by {
        if j < log.len() {
            assert(log2.take(j) == log.take(j));
            assert(log2[j] == log[j]);
        } else {
            assert(log2.take(j) == log);
        }
    }
}

/// Appending one event preserves the freshness of applies, provided an
/// apply lands on a stack with no active block at its point.
pub proof fn lemma_fresh_push(log: Seq<LogModel>, v: LogModel)
    requires
        fresh_applies(log),
        v is Apply ==> count_stack(wal_stack(log), block_point(apply_block(v))) == 0,
    ensures
        fresh_applies(log.push(v)),
{
    let log2 = log.push(v);
    assert forall|j: int| 0 <= j < log2.len() && log2[j] is Apply implies count_stack(
        wal_stack(#[trigger] log2.take(j)),
        block_point(apply_block(log2[j])),
    ) == 0 by {
        if j < log.len() {
            assert(log2.take(j) == log.take(j));
            assert(log2[j] == log[j]);
        } else {
            assert(log2.take(j) == log);
        }
    }
}

/// Appending an apply pushes its block onto the active stack.
pub proof fn lemma_stack_push(log: Seq<LogModel>, b: BlockModel)
    ensures
        wal_stack(log.push(LogModel::Apply(b))) == wal_stack(log).push(b),
{
    assert(log.push(LogModel::Apply(b)).drop_last() == log);
}

/// Appending an undo of the top block pops it from the active stack.
pub proof fn lemma_stack_pop(log: Seq<LogModel>, b: BlockModel)
    requires
        wal_stack(log).len() > 0,
        wal_stack(log).last() == b,
    ensures
        wal_stack(log.push(LogModel::Undo(b))) == wal_stack(log).drop_last(),
{
    assert(log.push(LogModel::Undo(b)).drop_last() == log);
}

/// Appending a mark leaves the active stack alone.
pub proof fn lemma_stack_mark(log: Seq<LogModel>, p: ChainPoint)
    ensures
        wal_stack(log.push(LogModel::Mark(p))) == wal_stack(log),
{
    assert(log.push(LogModel::Mark(p)).drop_last() == log);
}

/// Where a rollback to `target` cuts the active stack: the length of the
/// prefix that stays. Rolling back to the origin keeps nothing; otherwise
/// the topmost active block at the target point marks the cut, and a target
/// with no active block is unreachable.
pub open spec fn stack_cut(stack: Seq<BlockModel>, target: ChainPoint) -> Option<int>
    decreases stack.len(),
{
    if target is Origin {
        Some(0)
    } else if stack.len() == 0 {
        None
    } else if block_point(stack.last()) == target {
        Some(stack.len() as int)
    } else {
        stack_cut(stack.drop_last(), target)
    }
}

/// The cut, where it exists, lies within the stack.
pub proof fn lemma_stack_cut_range(stack: Seq<BlockModel>, target: ChainPoint)
    ensures
        stack_cut(stack, target) matches Some(cut) ==> 0 <= cut <= stack.len(),
    decreases stack.len(),
{
    if !(target is Origin) && stack.len() > 0 && block_point(stack.last()) != target {
        lemma_stack_cut_range(stack.drop_last(), target);
    }
}

/// The active stack is never longer than the log.
pub proof fn lemma_stack_len(log: Seq<LogModel>)
    ensures
        wal_stack(log).len() <= log.len(),
    decreases log.len(),
{
    if log.len() > 0 {
        lemma_stack_len(log.drop_last());
    }
}

/// Every block on the active stack is the payload of some apply event of
/// the log.
pub proof fn lemma_stack_blocks_applied(log: Seq<LogModel>)
    ensures
        forall|i: int|
            0 <= i < wal_stack(log).len() ==> exists|j: int|
                0 <= j < log.len() && log[j] is Apply && apply_block(log[j]) == #[trigger] wal_stack(
                    log,
                )[i],
    decreases log.len(),
{
    if log.len() > 0 {
        lemma_stack_blocks_applied(log.drop_last());
        let s = wal_stack(log.drop_last());
        assert forall|i: int| 0 <= i < wal_stack(log).len() implies exists|j: int|
            0 <= j < log.len() && log[j] is Apply && apply_block(log[j]) == #[trigger] wal_stack(
                log,
            )[i] by {
            if i < s.len() && wal_stack(log)[i] == s[i] {
                let j = choose|j: int|
                    0 <= j < log.drop_last().len() && log.drop_last()[j] is Apply && apply_block(
                        log.drop_last()[j],
                    ) == s[i];
                assert(log[j] == log.drop_last()[j]);
            } else {
                match log.last() {
                    LogModel::Apply(b) => {
                        if i == s.len() {
                            assert(log[log.len() - 1] is Apply);
                            assert(apply_block(log[log.len() - 1]) == wal_stack(log)[i]);
                        } else {
                            let j = choose|j: int|
                                0 <= j < log.drop_last().len() && log.drop_last()[j] is Apply
                                    && apply_block(log.drop_last()[j]) == s[i];
                            assert(log[j] == log.drop_last()[j]);
                        }
                    },
                    LogModel::Undo(b) => {
                        let j = choose|j: int|
                            0 <= j < log.drop_last().len() && log.drop_last()[j] is Apply
                                && apply_block(log.drop_last()[j]) == s[i];
                        assert(log[j] == log.drop_last()[j]);
                    },
                    LogModel::Mark(_) => {
                        let j = choose|j: int|
                            0 <= j < log.drop_last().len() && log.drop_last()[j] is Apply
                                && apply_block(log.drop_last()[j]) == s[i];
                        assert(log[j] == log.drop_last()[j]);
                    },
                }
            }
        }
    }
}

} // verus!
