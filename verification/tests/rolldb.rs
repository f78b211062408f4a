use rolldb::rolldb::RollDB;
use rolldb::types::{BlockHash, ChainPoint, Error, LogValue};

fn dummy_hash(slot: u64) -> BlockHash {
    BlockHash { w0: slot, w1: slot.wrapping_mul(31), w2: slot.wrapping_add(7), w3: !slot }
}

fn dummy_block(slot: u64) -> (u64, BlockHash, Vec<u8>) {
    (slot, dummy_hash(slot), slot.to_be_bytes().to_vec())
}

#[test]
fn test_roll_forward_blackbox() {
    let mut db = RollDB::open();
    let (slot, hash, body) = dummy_block(11);
    db.roll_forward(slot, hash, slot, body.clone()).unwrap();

    let persisted = db.get_block(hash).unwrap().unwrap();
    assert_eq!(persisted, body);

    let (_, tip_point) = db.find_tip().unwrap();
    assert_eq!(tip_point, ChainPoint::Specific(slot, hash));
}

#[test]
fn test_roll_back_blackbox() {
    let mut db = RollDB::open();
    for i in 0..5 {
        let (slot, hash, body) = dummy_block(i * 10);
        db.roll_forward(slot, hash, i, body).unwrap();
    }

    db.roll_back(ChainPoint::Specific(20, dummy_hash(20))).unwrap();

    let (_, tip_point) = db.find_tip().unwrap();
    assert_eq!(tip_point.slot(), 20);
    assert_eq!(tip_point, ChainPoint::Specific(20, dummy_hash(20)));
}

#[test]
fn test_compact_linear() {
    let mut db = RollDB::open();
    for i in 0..100 {
        let (slot, hash, body) = dummy_block(i * 10);
        db.roll_forward(slot, hash, i, body).unwrap();
    }

    db.compact(30).unwrap();

    let chain = db.crawl_chain();
    let mut chain_iter = chain.iter();

    for i in 0..96u64 {
        let (slot, _) = chain_iter.next().unwrap();
        assert_eq!(i * 10, *slot);
    }

    assert!(chain_iter.next().is_none());

    let wal = db.crawl_wal();
    let mut wal_iter = wal.iter();

    for i in 96..100u64 {
        let entry = wal_iter.next().unwrap();
        assert_eq!(entry.slot(), i * 10);
    }

    assert!(wal_iter.next().is_none());
}

#[test]
fn test_compact_with_rollback() {
    let mut db = RollDB::open();
    for i in 0..100 {
        let (slot, hash, body) = dummy_block(i * 10);
        db.roll_forward(slot, hash, i, body).unwrap();
    }

    db.roll_back(ChainPoint::Specific(800, dummy_hash(800))).unwrap();

    db.compact(30).unwrap();

    let chain = db.crawl_chain();
    let mut chain_iter = chain.iter();

    for i in 0..77u64 {
        let (slot, _) = chain_iter.next().unwrap();
        assert_eq!(i * 10, *slot);
    }

    assert!(chain_iter.next().is_none());

    let wal = db.crawl_wal();
    let mut wal_iter = wal.iter();

    for i in 77..100u64 {
        let entry = wal_iter.next().unwrap();
        assert!(entry.is_apply());
        assert_eq!(entry.slot(), i * 10);
    }

    for i in (81..100u64).rev() {
        let entry = wal_iter.next().unwrap();
        assert!(entry.is_undo());
        assert_eq!(entry.slot(), i * 10);
    }

    let entry = wal_iter.next().unwrap();
    assert!(entry.is_mark());
    assert_eq!(entry.slot(), 800);

    assert!(wal_iter.next().is_none());
}

#[test]
fn intersect_and_follow() {
    let mut db = RollDB::open();
    for i in 0..50 {
        let (slot, hash, body) = dummy_block(i);
        db.roll_forward(slot, hash, i, body).unwrap();
    }
    let (tip_seq, tip_point) = db.find_tip().unwrap();

    let (slot, hash, body) = dummy_block(50);
    db.roll_forward(slot, hash, 50, body).unwrap();

    // the follower resets to the intersect, skips the intersect entry
    // itself, and then sees the 51st block first
    let (seq, reset_point) = db.follow_plan(&vec![tip_point]).unwrap();
    assert_eq!(reset_point, tip_point);
    assert_eq!(seq, tip_seq);

    let next = db.entries_from(seq + 1);
    assert_eq!(next.len(), 1);
    assert!(next[0].1.is_apply());
    assert_eq!(next[0].1.slot(), 50);
}

#[test]
fn follow_plan_on_empty_wal() {
    let db = RollDB::open();
    assert_eq!(db.follow_plan(&vec![]), Err(Error::WalEmpty));
}

#[test]
fn rollback_below_horizon_fails() {
    let mut db = RollDB::open();
    for i in 0..100 {
        let (slot, hash, body) = dummy_block(i * 10);
        db.roll_forward(slot, hash, i, body).unwrap();
    }
    db.compact(30).unwrap();

    let r = db.roll_back(ChainPoint::Specific(100, dummy_hash(100)));
    assert_eq!(r, Err(Error::PointNotReachable));

    // nothing changed
    assert_eq!(db.crawl_chain().len(), 96);
    assert_eq!(db.crawl_wal().len(), 4);
}

#[test]
fn assert_point_finds_and_rejects() {
    let mut db = RollDB::open();
    for i in 1..=3 {
        let (slot, hash, body) = dummy_block(i);
        db.roll_forward(slot, hash, i, body).unwrap();
    }
    assert_eq!(db.assert_point(&ChainPoint::Specific(2, dummy_hash(2))), Ok(2));
    assert_eq!(
        db.assert_point(&ChainPoint::Specific(9, dummy_hash(9))),
        Err(Error::PointNotInWal)
    );
}

#[test]
fn find_intersect_picks_newest_candidate() {
    let mut db = RollDB::open();
    for i in 0..10 {
        let (slot, hash, body) = dummy_block(i);
        db.roll_forward(slot, hash, i, body).unwrap();
    }
    let candidates = vec![
        ChainPoint::Specific(3, dummy_hash(3)),
        ChainPoint::Specific(7, dummy_hash(7)),
        ChainPoint::Specific(99, dummy_hash(99)),
    ];
    // seqs start at 1, so slot 7 sits at seq 8
    assert_eq!(db.find_intersect(&candidates), Some((8, ChainPoint::Specific(7, dummy_hash(7)))));
    assert_eq!(db.find_intersect(&vec![ChainPoint::Specific(99, dummy_hash(99))]), None);
}

#[test]
fn read_block_page_returns_oldest_applies_in_slot_order() {
    let mut db = RollDB::open();
    for i in 0..10 {
        let (slot, hash, body) = dummy_block(i * 5);
        db.roll_forward(slot, hash, i, body).unwrap();
    }
    let page = db.read_block_page(None, 4).unwrap();
    assert_eq!(page.len(), 4);
    for i in 0..4u64 {
        assert_eq!(page[i as usize].slot, i * 5);
    }
    // ascending slot order
    for w in page.windows(2) {
        assert!(w[0].slot < w[1].slot);
    }

    // paging after a point continues just past it
    let from = ChainPoint::Specific(15, dummy_hash(15));
    let page2 = db.read_block_page(Some(&from), 3).unwrap();
    assert_eq!(page2.len(), 3);
    assert_eq!(page2[0].slot, 20);

    let missing = ChainPoint::Specific(999, dummy_hash(999));
    assert!(db.read_block_page(Some(&missing), 3).is_err());
}

#[test]
fn read_sparse_blocks_omits_unresolved() {
    let mut db = RollDB::open();
    for i in 0..5 {
        let (slot, hash, body) = dummy_block(i);
        db.roll_forward(slot, hash, i, body).unwrap();
    }
    let points = vec![
        ChainPoint::Specific(1, dummy_hash(1)),
        ChainPoint::Specific(42, dummy_hash(42)),
        ChainPoint::Specific(3, dummy_hash(3)),
    ];
    let blocks = db.read_sparse_blocks(&points).unwrap();
    assert_eq!(blocks.len(), 2);
    assert_eq!(blocks[0].slot, 1);
    assert_eq!(blocks[0].body, 1u64.to_be_bytes().to_vec());
    assert_eq!(blocks[1].slot, 3);
}

#[test]
fn wal_events_expose_their_shape() {
    let b = dummy_block(4);
    let apply = LogValue::Apply(rolldb::types::RawBlock {
        slot: b.0,
        hash: b.1,
        height: 0,
        body: b.2,
    });
    assert!(apply.is_apply());
    assert!(!apply.is_undo());
    assert!(!apply.is_mark());
    assert_eq!(apply.slot(), 4);
    assert_eq!(apply.point(), ChainPoint::Specific(4, dummy_hash(4)));

    let mark = LogValue::Mark(ChainPoint::Origin);
    assert!(mark.is_mark());
    assert_eq!(mark.slot(), 0);
}
