use rolldb::codec::{decode, encode};
use rolldb::types::{BlockHash, ChainPoint, Error, LogValue, RawBlock};

fn hash(n: u64) -> BlockHash {
    BlockHash { w0: n, w1: n + 1, w2: n + 2, w3: n + 3 }
}

fn block(slot: u64, body: Vec<u8>) -> RawBlock {
    RawBlock { slot, hash: hash(slot), height: slot / 10, body }
}

#[test]
fn apply_record_layout_is_canonical() {
    let bytes = encode(&LogValue::Apply(block(0x0102, vec![0xAA, 0xBB])));
    // tag, slot, hash (four words), height, body length, body
    let mut want = vec![0u8];
    want.extend_from_slice(&0x0102u64.to_be_bytes());
    want.extend_from_slice(&0x0102u64.to_be_bytes());
    want.extend_from_slice(&0x0103u64.to_be_bytes());
    want.extend_from_slice(&0x0104u64.to_be_bytes());
    want.extend_from_slice(&0x0105u64.to_be_bytes());
    want.extend_from_slice(&(0x0102u64 / 10).to_be_bytes());
    want.extend_from_slice(&2u64.to_be_bytes());
    want.extend_from_slice(&[0xAA, 0xBB]);
    assert_eq!(bytes, want);
}

#[test]
fn mark_records_round_trip() {
    let origin = LogValue::Mark(ChainPoint::Origin);
    let enc = encode(&origin);
    assert_eq!(enc, vec![2u8, 0u8]);
    match decode(&enc).unwrap() {
        LogValue::Mark(ChainPoint::Origin) => {}
        other => panic!("decoded {other:?}"),
    }

    let specific = LogValue::Mark(ChainPoint::Specific(77, hash(77)));
    match decode(&encode(&specific)).unwrap() {
        LogValue::Mark(p) => assert_eq!(p, ChainPoint::Specific(77, hash(77))),
        other => panic!("decoded {other:?}"),
    }
}

#[test]
fn apply_and_undo_round_trip() {
    for (mk, is_apply) in [
        (LogValue::Apply(block(5, vec![1, 2, 3])), true),
        (LogValue::Undo(block(9, vec![])), false),
    ] {
        let decoded = decode(&encode(&mk)).unwrap();
        assert_eq!(decoded.is_apply(), is_apply);
        assert_eq!(decoded.is_undo(), !is_apply);
        match (&mk, &decoded) {
            (LogValue::Apply(a), LogValue::Apply(b)) | (LogValue::Undo(a), LogValue::Undo(b)) => {
                assert_eq!(a.slot, b.slot);
                assert_eq!(a.hash, b.hash);
                assert_eq!(a.height, b.height);
                assert_eq!(a.body, b.body);
            }
            _ => panic!("variant changed in the round trip"),
        }
    }
}

#[test]
fn corrupt_records_are_serde_errors() {
    assert_eq!(decode(&vec![]).unwrap_err(), Error::Serde);
    assert_eq!(decode(&vec![9u8]).unwrap_err(), Error::Serde);
    // an apply record cut short
    assert_eq!(decode(&vec![0u8; 10]).unwrap_err(), Error::Serde);
    // a body length prefix that disagrees with the bytes present
    let mut bytes = encode(&LogValue::Apply(block(1, vec![7, 8, 9])));
    bytes.pop();
    assert_eq!(decode(&bytes).unwrap_err(), Error::Serde);
    // a mark with a bad point tag
    assert_eq!(decode(&vec![2u8, 9u8]).unwrap_err(), Error::Serde);
}
