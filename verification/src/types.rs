//! Core data model: hashes, chain points, raw blocks, WAL events, errors.

use vstd::prelude::*;

verus! {

/// A 32-byte block or transaction hash, held as four 64-bit words in
/// big-endian word order: `w0` holds bytes 0..8 of the hash, `w3` bytes 24..32.
#[derive(Clone, Copy, PartialEq, Eq, Structural, Debug)]
pub struct BlockHash {
    pub w0: u64,
    pub w1: u64,
    pub w2: u64,
    pub w3: u64,
}

/// A position on the chain: the virtual origin before any block, or a
/// specific block identified by its slot and hash. A point is an identity,
/// not an ordering key for forks.
#[derive(Clone, Copy, PartialEq, Eq, Structural, Debug)]
pub enum ChainPoint {
    Origin,
    Specific(u64, BlockHash),
}

/// The slot a point names; the origin sits before every slot and reports 0.
pub open spec fn point_slot(p: ChainPoint) -> u64 {
    match p {
        ChainPoint::Origin => 0,
        ChainPoint::Specific(s, _) => s,
    }
}

impl ChainPoint {
    pub fn slot(&self) -> (r: u64)
        ensures
            r == point_slot(*self),
    {
        match self {
            ChainPoint::Origin => 0,
            ChainPoint::Specific(s, _) => *s,
        }
    }
}

/// A block as ingested: position, height and opaque body bytes.
#[derive(Debug)]
pub struct RawBlock {
    pub slot: u64,
    pub hash: BlockHash,
    pub height: u64,
    pub body: Vec<u8>,
}

/// Mathematical model of a [`RawBlock`]: the body as a byte sequence.
pub struct BlockModel {
    pub slot: u64,
    pub hash: BlockHash,
    pub height: u64,
    pub body: Seq<u8>,
}

impl View for RawBlock {
    type V = BlockModel;

    open spec fn view(&self) -> BlockModel {
        BlockModel { slot: self.slot, hash: self.hash, height: self.height, body: self.body@ }
    }
}

/// The point a block occupies on the chain.
pub open spec fn block_point(b: BlockModel) -> ChainPoint {
    ChainPoint::Specific(b.slot, b.hash)
}

impl RawBlock {
    /// The point this block occupies on the chain.
    pub fn point(&self) -> (r: ChainPoint)
        ensures
            r == block_point(self@),
    {
        ChainPoint::Specific(self.slot, self.hash)
    }

    /// An owned copy of this block.
    pub fn duplicate(&self) -> (r: RawBlock)
        ensures
            r@ == self@,
    {
        RawBlock {
            slot: self.slot,
            hash: self.hash,
            height: self.height,
            body: clone_bytes(&self.body),
        }
    }
}

/// One WAL event: a block extended the tip, a previously applied block was
/// reverted, or a sentinel naming the new tip after a rollback.
#[derive(Debug)]
pub enum LogValue {
    Apply(RawBlock),
    Undo(RawBlock),
    Mark(ChainPoint),
}

/// Mathematical model of a [`LogValue`].
pub enum LogModel {
    Apply(BlockModel),
    Undo(BlockModel),
    Mark(ChainPoint),
}

impl View for LogValue {
    type V = LogModel;

    open spec fn view(&self) -> LogModel {
        match self {
            LogValue::Apply(b) => LogModel::Apply(b@),
            LogValue::Undo(b) => LogModel::Undo(b@),
            LogValue::Mark(p) => LogModel::Mark(*p),
        }
    }
}

/// The point a WAL event names: the block's point for an apply or undo, the
/// target point for a mark.
pub open spec fn entry_point(v: LogModel) -> ChainPoint {
    match v {
        LogModel::Apply(b) => block_point(b),
        LogModel::Undo(b) => block_point(b),
        LogModel::Mark(p) => p,
    }
}

/// The slot a WAL event names.
pub open spec fn entry_slot(v: LogModel) -> u64 {
    point_slot(entry_point(v))
}

impl LogValue {
    pub fn is_apply(&self) -> (r: bool)
        ensures
            r == (self@ is Apply),
    {
        match self {
            LogValue::Apply(_) => true,
            _ => false,
        }
    }

    pub fn is_undo(&self) -> (r: bool)
        ensures
            r == (self@ is Undo),
    {
        match self {
            LogValue::Undo(_) => true,
            _ => false,
        }
    }

    pub fn is_mark(&self) -> (r: bool)
        ensures
            r == (self@ is Mark),
    {
        match self {
            LogValue::Mark(_) => true,
            _ => false,
        }
    }

    /// The point this event names.
    pub fn point(&self) -> (r: ChainPoint)
        ensures
            r == entry_point(self@),
    {
        match self {
            LogValue::Apply(b) => b.point(),
            LogValue::Undo(b) => b.point(),
            LogValue::Mark(p) => *p,
        }
    }

    /// The slot this event names.
    pub fn slot(&self) -> (r: u64)
        ensures
            r == entry_slot(self@),
    {
        self.point().slot()
    }

    /// An owned copy of this event.
    pub fn duplicate(&self) -> (r: LogValue)
        ensures
            r@ == self@,
    {
        match self {
            LogValue::Apply(b) => LogValue::Apply(b.duplicate()),
            LogValue::Undo(b) => LogValue::Undo(b.duplicate()),
            LogValue::Mark(p) => LogValue::Mark(*p),
        }
    }
}

/// What can go wrong in the log and its surroundings.
#[derive(Clone, Copy, PartialEq, Eq, Structural, Debug)]
pub enum Error {
    /// The storage substrate failed a read or write.
    IO,
    /// A persisted record failed canonical decoding.
    Serde,
    /// A rollback target is not in the WAL tail.
    PointNotReachable,
    /// An asserted point is absent from the WAL.
    PointNotInWal,
    /// The tip was requested from a WAL that holds no data.
    WalEmpty,
}

/// Whether two byte vectors hold the same bytes.
pub fn bytes_eq(a: &Vec<u8>, b: &Vec<u8>) -> (r: bool)
    ensures
        r == (a@ == b@),
{
    if a.len() != b.len() {
        return false;
    }
    let mut i: usize = 0;
    while i < a.len()
        invariant
            a@.len() == b@.len(),
            i <= a.len(),
            forall|j: int| 0 <= j < i ==> a@[j] == b@[j],
        decreases a.len() - i,
    {
        if a[i] != b[i] {
            return false;
        }
        i = i + 1;
    }
    proof {
        assert(a@ =~= b@);
    }
    true
}

/// An owned copy of a byte vector.
pub fn clone_bytes(v: &Vec<u8>) -> (r: Vec<u8>)
    ensures
        r@ == v@,
{
    let mut out: Vec<u8> = Vec::new();
    let mut i: usize = 0;
    while i < v.len()
        invariant
            i <= v.len(),
            out@ == v@.subrange(0, i as int),
        decreases v.len() - i,
    {
        out.push(v[i]);
        i = i + 1;
    }
    assert(out@ == v@);
    out
}

} // verus!
