//! Canonical serialization of WAL records: a one-byte variant tag, 8-byte
//! big-endian integers, 32-byte hashes, and a length-prefixed body. Keys
//! are big-endian so lexicographic iteration equals numeric order.

use vstd::prelude::*;

use crate::types::{BlockHash, BlockModel, ChainPoint, Error, LogModel, LogValue, RawBlock};

verus! {

/// A 64-bit integer as 8 big-endian bytes.
pub open spec fn be8(x: u64) -> Seq<u8> {
    seq![
        (x >> 56) as u8,
        (x >> 48) as u8,
        (x >> 40) as u8,
        (x >> 32) as u8,
        (x >> 24) as u8,
        (x >> 16) as u8,
        (x >> 8) as u8,
        x as u8,
    ]
}

/// The integer 8 big-endian bytes hold.
pub open spec fn dec_u64(s: Seq<u8>) -> u64 {
    (((s[0] as u64) << 56) | ((s[1] as u64) << 48) | ((s[2] as u64) << 40) | ((s[3] as u64) << 32)
        | ((s[4] as u64) << 24) | ((s[5] as u64) << 16) | ((s[6] as u64) << 8) | (s[7] as u64))
}

/// A hash as its 32 bytes, in big-endian word order.
pub open spec fn enc_hash(h: BlockHash) -> Seq<u8> {
    be8(h.w0) + be8(h.w1) + be8(h.w2) + be8(h.w3)
}

/// The hash 32 bytes hold.
pub open spec fn dec_hash(s: Seq<u8>) -> BlockHash {
    BlockHash {
        w0: dec_u64(s.subrange(0, 8)),
        w1: dec_u64(s.subrange(8, 16)),
        w2: dec_u64(s.subrange(16, 24)),
        w3: dec_u64(s.subrange(24, 32)),
    }
}

/// A block as bytes: slot, hash, height, then the length-prefixed body.
pub open spec fn enc_block(b: BlockModel) -> Seq<u8> {
    be8(b.slot) + enc_hash(b.hash) + be8(b.height) + be8(b.body.len() as u64) + b.body
}

/// A point as bytes: a tag byte, then slot and hash for a specific point.
pub open spec fn enc_point(p: ChainPoint) -> Seq<u8> {
    match p {
        ChainPoint::Origin => seq![0u8],
        ChainPoint::Specific(s, h) => seq![1u8] + be8(s) + enc_hash(h),
    }
}

/// A WAL event as bytes: the variant tag, then the variant payload.
pub open spec fn enc_log(v: LogModel) -> Seq<u8> {
    match v {
        LogModel::Apply(b) => seq![0u8] + enc_block(b),
        LogModel::Undo(b) => seq![1u8] + enc_block(b),
        LogModel::Mark(p) => seq![2u8] + enc_point(p),
    }
}

/// The block a byte sequence holds, where it is well-formed: fixed fields,
/// then a body of exactly the prefixed length.
pub open spec fn dec_block(s: Seq<u8>) -> Option<BlockModel> {
    if s.len() < 56 {
        Option::None
    } else if s.len() - 56 == dec_u64(s.subrange(48, 56)) {
        Option::Some(
            BlockModel {
                slot: dec_u64(s.subrange(0, 8)),
                hash: dec_hash(s.subrange(8, 40)),
                height: dec_u64(s.subrange(40, 48)),
                body: s.subrange(56, s.len() as int),
            },
        )
    } else {
        Option::None
    }
}

/// The point a byte sequence holds, where it is well-formed.
pub open spec fn dec_point(s: Seq<u8>) -> Option<ChainPoint> {
    if s.len() == 1 && s[0] == 0 {
        Option::Some(ChainPoint::Origin)
    } else if s.len() == 41 && s[0] == 1 {
        Option::Some(ChainPoint::Specific(dec_u64(s.subrange(1, 9)), dec_hash(s.subrange(9, 41))))
    } else {
        Option::None
    }
}

/// The WAL event a byte sequence holds, where it is well-formed.
pub open spec fn dec_log(s: Seq<u8>) -> Option<LogModel> {
    if s.len() == 0 {
        Option::None
    } else if s[0] == 0 {
        match dec_block(s.subrange(1, s.len() as int)) {
            Option::Some(b) => Option::Some(LogModel::Apply(b)),
            Option::None => Option::None,
        }
    } else if s[0] == 1 {
        match dec_block(s.subrange(1, s.len() as int)) {
            Option::Some(b) => Option::Some(LogModel::Undo(b)),
            Option::None => Option::None,
        }
    } else if s[0] == 2 {
        match dec_point(s.subrange(1, s.len() as int)) {
            Option::Some(p) => Option::Some(LogModel::Mark(p)),
            Option::None => Option::None,
        }
    } else {
        Option::None
    }
}

/// Big-endian encoding and decoding of an integer are inverse.
pub proof fn lemma_u64_round_trip(x: u64)
    ensures
        dec_u64(be8(x)) == x,
{
    let s = be8(x);
    assert(dec_u64(s) == ((((x >> 56) as u8) as u64) << 56) | ((((x >> 48) as u8) as u64) << 48)
        | ((((x >> 40) as u8) as u64) << 40) | ((((x >> 32) as u8) as u64) << 32) | ((((x
        >> 24) as u8) as u64) << 24) | ((((x >> 16) as u8) as u64) << 16) | ((((x
        >> 8) as u8) as u64) << 8) | ((x as u8) as u64));
    assert(((((x >> 56) as u8) as u64) << 56) | ((((x >> 48) as u8) as u64) << 48) | ((((x
        >> 40) as u8) as u64) << 40) | ((((x >> 32) as u8) as u64) << 32) | ((((x
        >> 24) as u8) as u64) << 24) | ((((x >> 16) as u8) as u64) << 16) | ((((x
        >> 8) as u8) as u64) << 8) | ((x as u8) as u64) == x) by (bit_vector);
}

/// Hash encoding and decoding are inverse.
pub proof fn lemma_hash_round_trip(h: BlockHash)
    ensures
        dec_hash(enc_hash(h)) == h,
{
    let s = enc_hash(h);
    assert(s.subrange(0, 8) =~= be8(h.w0));
    assert(s.subrange(8, 16) =~= be8(h.w1));
    assert(s.subrange(16, 24) =~= be8(h.w2));
    assert(s.subrange(24, 32) =~= be8(h.w3));
    lemma_u64_round_trip(h.w0);
    lemma_u64_round_trip(h.w1);
    lemma_u64_round_trip(h.w2);
    lemma_u64_round_trip(h.w3);
}

/// Block encoding and decoding are inverse.
pub proof fn lemma_block_round_trip(b: BlockModel)
    requires
        b.body.len() <= u64::MAX,
    ensures
        dec_block(enc_block(b)) == Some(b),
{
    let s = enc_block(b);
    assert(s.len() == 56 + b.body.len());
    assert(s.subrange(0, 8) =~= be8(b.slot));
    assert(s.subrange(8, 40) =~= enc_hash(b.hash));
    assert(s.subrange(40, 48) =~= be8(b.height));
    assert(s.subrange(48, 56) =~= be8(b.body.len() as u64));
    assert(s.subrange(56, s.len() as int) =~= b.body);
    lemma_u64_round_trip(b.slot);
    lemma_u64_round_trip(b.height);
    lemma_u64_round_trip(b.body.len() as u64);
    lemma_hash_round_trip(b.hash);
}

/// The canonical serialization round-trips: decoding an encoded WAL event
/// gives the event back.
pub proof fn lemma_codec_round_trip(v: LogModel)
    requires
        (v matches LogModel::Apply(b) ==> b.body.len() <= u64::MAX),
        (v matches LogModel::Undo(b) ==> b.body.len() <= u64::MAX),
    ensures
        dec_log(enc_log(v)) == Some(v),
{
    let s = enc_log(v);
    match v {
        LogModel::Apply(b) => {
            assert(s[0] == 0);
            assert(s.subrange(1, s.len() as int) =~= enc_block(b));
            lemma_block_round_trip(b);
        },
        LogModel::Undo(b) => {
            assert(s[0] == 1);
            assert(s.subrange(1, s.len() as int) =~= enc_block(b));
            lemma_block_round_trip(b);
        },
        LogModel::Mark(p) => {
            assert(s[0] == 2);
            assert(s.subrange(1, s.len() as int) =~= enc_point(p));
            match p {
                ChainPoint::Origin => {
                    assert(enc_point(p).len() == 1);
                    assert(enc_point(p)[0] == 0);
                },
                ChainPoint::Specific(sl, h) => {
                    let t = enc_point(p);
                    assert(t.len() == 41);
                    assert(t[0] == 1);
                    assert(t.subrange(1, 9) =~= be8(sl));
                    assert(t.subrange(9, 41) =~= enc_hash(h));
                    lemma_u64_round_trip(sl);
                    lemma_hash_round_trip(h);
                },
            }
        },
    }
}

/// Append an integer as 8 big-endian bytes.
fn push_u64(out: &mut Vec<u8>, x: u64)
    ensures
        final(out)@ == old(out)@ + be8(x),
{
    out.push((x >> 56) as u8);
    out.push((x >> 48) as u8);
    out.push((x >> 40) as u8);
    out.push((x >> 32) as u8);
    out.push((x >> 24) as u8);
    out.push((x >> 16) as u8);
    out.push((x >> 8) as u8);
    out.push(x as u8);
    proof {
        assert(out@ =~= old(out)@ + be8(x));
    }
}

/// Append a hash as its 32 bytes.
fn push_hash(out: &mut Vec<u8>, h: &BlockHash)
    ensures
        final(out)@ == old(out)@ + enc_hash(*h),
{
    push_u64(out, h.w0);
    push_u64(out, h.w1);
    push_u64(out, h.w2);
    push_u64(out, h.w3);
    proof {
        assert(out@ =~= old(out)@ + enc_hash(*h));
    }
}

/// Append a block: slot, hash, height, then the length-prefixed body.
fn push_block(out: &mut Vec<u8>, b: &RawBlock)
    ensures
        final(out)@ == old(out)@ + enc_block(b@),
{
    push_u64(out, b.slot);
    push_hash(out, &b.hash);
    push_u64(out, b.height);
    push_u64(out, b.body.len() as u64);
    let mut i: usize = 0;
    let ghost mid = out@;
    while i < b.body.len()
        invariant
            i <= b.body@.len(),
            out@ == mid + b.body@.subrange(0, i as int),
        decreases b.body@.len() - i,
    {
        out.push(b.body[i]);
        proof {
            assert(out@ =~= mid + b.body@.subrange(0, i + 1));
        }
        i = i + 1;
    }
    proof {
        assert(b.body@.subrange(0, b.body@.len() as int) == b.body@);
        assert(out@ =~= old(out)@ + enc_block(b@));
    }
}

/// A WAL event in its canonical serialization.
pub fn encode(v: &LogValue) -> (r: Vec<u8>)
    ensures
        r@ == enc_log(v@),
{
    let mut out: Vec<u8> = Vec::new();
    match v {
        LogValue::Apply(b) => {
            out.push(0);
            push_block(&mut out, b);
        },
        LogValue::Undo(b) => {
            out.push(1);
            push_block(&mut out, b);
        },
        LogValue::Mark(p) => {
            out.push(2);
            match p {
                ChainPoint::Origin => {
                    out.push(0);
                },
                ChainPoint::Specific(s, h) => {
                    out.push(1);
                    push_u64(&mut out, *s);
                    push_hash(&mut out, h);
                },
            }
        },
    }
    proof {
        assert(out@ =~= enc_log(v@));
    }
    out
}

/// The integer at `off` in a byte buffer.
fn read_u64(bytes: &Vec<u8>, off: usize) -> (r: u64)
    requires
        off + 8 <= bytes@.len(),
    ensures
        r == dec_u64(bytes@.subrange(off as int, off as int + 8)),
{
    let n = bytes.len();
    proof {
        assert(off + 8 <= n);
    }
    let r = ((bytes[off] as u64) << 56) | ((bytes[off + 1] as u64) << 48) | ((bytes[off
        + 2] as u64) << 40) | ((bytes[off + 3] as u64) << 32) | ((bytes[off + 4] as u64) << 24) | ((
    bytes[off + 5] as u64) << 16) | ((bytes[off + 6] as u64) << 8) | (bytes[off + 7] as u64);
    proof {
        let s = bytes@.subrange(off as int, off as int + 8);
        assert(s[0] == bytes@[off as int]);
        assert(s[1] == bytes@[off as int + 1]);
        assert(s[2] == bytes@[off as int + 2]);
        assert(s[3] == bytes@[off as int + 3]);
        assert(s[4] == bytes@[off as int + 4]);
        assert(s[5] == bytes@[off as int + 5]);
        assert(s[6] == bytes@[off as int + 6]);
        assert(s[7] == bytes@[off as int + 7]);
    }
    r
}

/// The hash at `off` in a byte buffer.
fn read_hash(bytes: &Vec<u8>, off: usize) -> (r: BlockHash)
    requires
        off + 32 <= bytes@.len(),
    ensures
        r == dec_hash(bytes@.subrange(off as int, off as int + 32)),
{
    let n = bytes.len();
    proof {
        assert(off + 32 <= n);
    }
    let r = BlockHash {
        w0: read_u64(bytes, off),
        w1: read_u64(bytes, off + 8),
        w2: read_u64(bytes, off + 16),
        w3: read_u64(bytes, off + 24),
    };
    proof {
        let s = bytes@.subrange(off as int, off as int + 32);
        assert(s.subrange(0, 8) =~= bytes@.subrange(off as int, off as int + 8));
        assert(s.subrange(8, 16) =~= bytes@.subrange(off as int + 8, off as int + 16));
        assert(s.subrange(16, 24) =~= bytes@.subrange(off as int + 16, off as int + 24));
        assert(s.subrange(24, 32) =~= bytes@.subrange(off as int + 24, off as int + 32));
    }
    r
}

/// The block a buffer holds from `off` on, where it is well-formed.
fn read_block(bytes: &Vec<u8>, off: usize) -> (r: Result<RawBlock, Error>)
    requires
        off <= bytes@.len(),
    ensures
        ({
            let s = bytes@.subrange(off as int, bytes@.len() as int);
            match dec_block(s) {
                Option::Some(b) => r matches Ok(rb) && rb@ == b,
                Option::None => r == Err::<RawBlock, Error>(Error::Serde),
            }
        }),
{
    let ghost s = bytes@.subrange(off as int, bytes@.len() as int);
    let n = bytes.len();
    if n - off < 56 {
        return Err(Error::Serde);
    }
    let slot = read_u64(bytes, off);
    let hash = read_hash(bytes, off + 8);
    let height = read_u64(bytes, off + 40);
    let blen = read_u64(bytes, off + 48);
    proof {
        assert(s.subrange(0, 8) =~= bytes@.subrange(off as int, off as int + 8));
        assert(s.subrange(8, 40) =~= bytes@.subrange(off as int + 8, off as int + 40));
        assert(s.subrange(40, 48) =~= bytes@.subrange(off as int + 40, off as int + 48));
        assert(s.subrange(48, 56) =~= bytes@.subrange(off as int + 48, off as int + 56));
    }
    if (n - off - 56) as u64 != blen {
        return Err(Error::Serde);
    }
    let mut body: Vec<u8> = Vec::new();
    let mut i: usize = off + 56;
    while i < n
        invariant
            off + 56 <= i <= n,
            n == bytes@.len(),
            body@ == bytes@.subrange(off as int + 56, i as int),
        decreases n - i,
    {
        body.push(bytes[i]);
        proof {
            assert(body@ =~= bytes@.subrange(off as int + 56, i + 1));
        }
        i = i + 1;
    }
    proof {
        assert(s.subrange(56, s.len() as int) =~= bytes@.subrange(
            off as int + 56,
            bytes@.len() as int,
        ));
    }
    Ok(RawBlock { slot, hash, height, body })
}

/// The WAL event a buffer holds, where it is well-formed; corrupt bytes
/// are a decoding error.
pub fn decode(bytes: &Vec<u8>) -> (r: Result<LogValue, Error>)
    ensures
        match dec_log(bytes@) {
            Option::Some(v) => r matches Ok(lv) && lv@ == v,
            Option::None => r == Err::<LogValue, Error>(Error::Serde),
        },
{
    if bytes.len() == 0 {
        return Err(Error::Serde);
    }
    let ghost rest = bytes@.subrange(1, bytes@.len() as int);
    let tag = bytes[0];
    if tag == 0 || tag == 1 {
        let b = match read_block(bytes, 1) {
            Ok(b) => b,
            Err(e) => {
                return Err(e);
            },
        };
        if tag == 0 {
            Ok(LogValue::Apply(b))
        } else {
            Ok(LogValue::Undo(b))
        }
    } else if tag == 2 {
        if bytes.len() == 2 && bytes[1] == 0 {
            proof {
                assert(rest.len() == 1 && rest[0] == 0);
            }
            Ok(LogValue::Mark(ChainPoint::Origin))
        } else if bytes.len() == 42 && bytes[1] == 1 {
            let slot = read_u64(bytes, 2);
            let hash = read_hash(bytes, 10);
            proof {
                assert(rest.len() == 41 && rest[0] == 1);
                assert(rest.subrange(1, 9) =~= bytes@.subrange(2, 10));
                assert(rest.subrange(9, 41) =~= bytes@.subrange(10, 42));
            }
            Ok(LogValue::Mark(ChainPoint::Specific(slot, hash)))
        } else {
            proof {
                assert(rest.len() >= 1 ==> rest[0] == bytes@[1]);
            }
            Err(Error::Serde)
        }
    } else {
        Err(Error::Serde)
    }
}

} // verus!
