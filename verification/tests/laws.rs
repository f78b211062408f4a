use rolldb::rolldb::RollDB;
use rolldb::types::{BlockHash, ChainPoint};

fn dummy_hash(slot: u64) -> BlockHash {
    BlockHash { w0: slot, w1: slot.wrapping_mul(31), w2: slot.wrapping_add(7), w3: !slot }
}

fn dummy_block(slot: u64) -> (u64, BlockHash, Vec<u8>) {
    (slot, dummy_hash(slot), slot.to_be_bytes().to_vec())
}

#[test]
fn wal_seqs_are_contiguous_from_one() {
    let mut db = RollDB::open();
    for i in 0..7 {
        let (slot, hash, body) = dummy_block(i * 3);
        let seq = db.roll_forward(slot, hash, i, body).unwrap();
        assert_eq!(seq, i + 1);
    }
    db.roll_back(ChainPoint::Specific(9, dummy_hash(9))).unwrap();

    let entries = db.entries_from(0);
    for (i, (seq, _)) in entries.iter().enumerate() {
        assert_eq!(*seq, i as u64 + 1);
    }
}

#[test]
fn rollback_marks_the_tip() {
    let mut db = RollDB::open();
    for i in 0..4 {
        let (slot, hash, body) = dummy_block(i);
        db.roll_forward(slot, hash, i, body).unwrap();
    }
    let target = ChainPoint::Specific(1, dummy_hash(1));
    let mark_seq = db.roll_back(target).unwrap();

    let (tip_seq, tip_point) = db.find_tip().unwrap();
    assert_eq!(tip_seq, mark_seq);
    assert_eq!(tip_point, target);

    let wal = db.crawl_wal();
    let last = wal.last().unwrap();
    assert!(last.is_mark());
    assert_eq!(last.point(), target);
}

#[test]
fn rollback_to_origin_on_empty_wal_appends_nothing() {
    let mut db = RollDB::open();
    assert_eq!(db.roll_back(ChainPoint::Origin), Ok(0));
    assert!(db.find_tip().is_none());
    assert_eq!(db.append_origin(), Ok(0));
    assert!(db.find_tip().is_none());
}

#[test]
fn append_origin_undoes_the_whole_tail() {
    let mut db = RollDB::open();
    for i in 0..3 {
        let (slot, hash, body) = dummy_block(i);
        db.roll_forward(slot, hash, i, body).unwrap();
    }
    // three applies, three undos, one mark
    let seq = db.append_origin().unwrap();
    assert_eq!(seq, 7);
    let (tip_seq, tip_point) = db.find_tip().unwrap();
    assert_eq!(tip_seq, 7);
    assert_eq!(tip_point, ChainPoint::Origin);
}

#[test]
fn follower_waits_for_the_ledger() {
    let mut db = RollDB::open();
    for i in 0..5 {
        let (slot, hash, body) = dummy_block(i);
        db.roll_forward(slot, hash, i, body).unwrap();
    }
    let cursor = ChainPoint::Specific(2, dummy_hash(2));
    // the cursor sits at seq 3
    assert_eq!(db.ledger_caught_up(&cursor, 3), Ok(true));
    assert_eq!(db.ledger_caught_up(&cursor, 4), Ok(false));
    let unknown = ChainPoint::Specific(77, dummy_hash(77));
    assert!(db.ledger_caught_up(&unknown, 1).is_err());
}

#[test]
fn no_double_undo_of_one_block() {
    let mut db = RollDB::open();
    for i in 0..3 {
        let (slot, hash, body) = dummy_block(i);
        db.roll_forward(slot, hash, i, body).unwrap();
    }
    // two rollbacks to the same point: the second finds nothing left to undo
    let target = ChainPoint::Specific(0, dummy_hash(0));
    db.roll_back(target).unwrap();
    db.roll_back(target).unwrap();

    let wal = db.crawl_wal();
    let undos_of_2: usize =
        wal.iter().filter(|e| e.is_undo() && e.slot() == 2).count();
    assert_eq!(undos_of_2, 1);
}

#[test]
fn compact_is_idempotent() {
    let mut db = RollDB::open();
    for i in 0..40 {
        let (slot, hash, body) = dummy_block(i * 2);
        db.roll_forward(slot, hash, i, body).unwrap();
    }
    db.roll_back(ChainPoint::Specific(60, dummy_hash(60))).unwrap();

    db.compact(10).unwrap();
    let chain1 = db.crawl_chain();
    let wal1: Vec<(u64, u64)> =
        db.crawl_wal().iter().map(|e| (e.slot(), e.is_apply() as u64)).collect();

    db.compact(10).unwrap();
    let chain2 = db.crawl_chain();
    let wal2: Vec<(u64, u64)> =
        db.crawl_wal().iter().map(|e| (e.slot(), e.is_apply() as u64)).collect();

    assert_eq!(chain1, chain2);
    assert_eq!(wal1, wal2);
}

#[test]
fn wider_horizon_compacts_a_prefix() {
    let mut db_narrow = RollDB::open();
    let mut db_wide = RollDB::open();
    for i in 0..50 {
        let (slot, hash, body) = dummy_block(i * 4);
        db_narrow.roll_forward(slot, hash, i, body.clone()).unwrap();
        db_wide.roll_forward(slot, hash, i, body).unwrap();
    }
    db_narrow.compact(20).unwrap();
    db_wide.compact(100).unwrap();

    let chain_narrow = db_narrow.crawl_chain();
    let chain_wide = db_wide.crawl_chain();
    assert!(chain_wide.len() <= chain_narrow.len());
    assert_eq!(chain_narrow[..chain_wide.len()], chain_wide[..]);
}

#[test]
fn applied_body_is_retrievable() {
    let mut db = RollDB::open();
    let (slot, hash, body) = dummy_block(123);
    db.roll_forward(slot, hash, 1, body.clone()).unwrap();
    assert_eq!(db.get_block(hash).unwrap(), Some(body));
    assert_eq!(db.get_block(dummy_hash(999)).unwrap(), None);
}

#[test]
fn rollback_restores_previous_tip_and_leaves_chain_alone() {
    let mut db = RollDB::open();
    let (slot, hash, body) = dummy_block(5);
    db.roll_forward(slot, hash, 1, body).unwrap();
    let (_, point_before) = db.find_tip().unwrap();

    let (slot2, hash2, body2) = dummy_block(6);
    db.roll_forward(slot2, hash2, 2, body2).unwrap();

    db.roll_back(point_before).unwrap();

    let (_, tip_point) = db.find_tip().unwrap();
    assert_eq!(tip_point, point_before);

    // the undone block is not reachable through the chain index
    assert!(db.crawl_chain().iter().all(|(s, _)| *s != 6));
}
