use rolldb::mempool::{BlockMonitorMessage, MempoolEvent, Monitor, Transaction};
use rolldb::types::BlockHash;

fn tx_hash(n: u64) -> BlockHash {
    BlockHash { w0: n, w1: n + 1, w2: n + 2, w3: n + 3 }
}

fn tx(n: u64) -> Transaction {
    Transaction { hash: tx_hash(n), raw: n.to_be_bytes().to_vec() }
}

#[test]
fn inclusion_then_prune() {
    let mut m = Monitor::new();
    m.submit(&vec![tx(1)]);
    assert_eq!(m.inclusion(&tx_hash(1)), Some(None));

    m.on_chain_update(&BlockMonitorMessage::NewBlock(100, vec![tx_hash(1)]), 6);
    assert_eq!(m.inclusion(&tx_hash(1)), Some(Some(100)));
    assert_eq!(m.tip_slot(), 100);

    m.on_chain_update(&BlockMonitorMessage::NewBlock(107, vec![]), 6);
    // 107 - 100 > 6: pruned
    assert_eq!(m.inclusion(&tx_hash(1)), None);
    assert_eq!(m.tip_slot(), 107);
}

#[test]
fn rollback_clears_inclusion() {
    let mut m = Monitor::new();
    m.submit(&vec![tx(1)]);
    m.on_chain_update(&BlockMonitorMessage::NewBlock(100, vec![tx_hash(1)]), 6);
    m.on_chain_update(&BlockMonitorMessage::Rollback(90), 6);

    assert_eq!(m.inclusion(&tx_hash(1)), Some(None));
    assert_eq!(m.tip_slot(), 90);
}

#[test]
fn submit_does_not_overwrite_tracked_txs() {
    let mut m = Monitor::new();
    m.submit(&vec![tx(1)]);
    m.on_chain_update(&BlockMonitorMessage::NewBlock(50, vec![tx_hash(1)]), 100);
    // a resubmission of a tracked transaction keeps its inclusion
    m.submit(&vec![tx(1), tx(2)]);
    assert_eq!(m.inclusion(&tx_hash(1)), Some(Some(50)));
    assert_eq!(m.inclusion(&tx_hash(2)), Some(None));
}

#[test]
fn inclusion_at_exact_prune_height_survives() {
    let mut m = Monitor::new();
    m.submit(&vec![tx(1)]);
    m.on_chain_update(&BlockMonitorMessage::NewBlock(100, vec![tx_hash(1)]), 6);
    m.on_chain_update(&BlockMonitorMessage::NewBlock(106, vec![]), 6);
    // 106 - 100 == 6: kept
    assert_eq!(m.inclusion(&tx_hash(1)), Some(Some(100)));
}

#[test]
fn unincluded_txs_are_never_pruned() {
    let mut m = Monitor::new();
    m.submit(&vec![tx(9)]);
    m.on_chain_update(&BlockMonitorMessage::NewBlock(1000, vec![]), 1);
    assert_eq!(m.inclusion(&tx_hash(9)), Some(None));
}

#[test]
fn confirmations_count_depth_below_tip() {
    let mut m = Monitor::new();
    m.submit(&vec![tx(1)]);
    assert_eq!(m.confirmations(&tx_hash(1)), None);

    m.on_chain_update(&BlockMonitorMessage::NewBlock(100, vec![tx_hash(1)]), 1000);
    assert_eq!(m.confirmations(&tx_hash(1)), Some(0));

    m.on_chain_update(&BlockMonitorMessage::NewBlock(104, vec![]), 1000);
    assert_eq!(m.confirmations(&tx_hash(1)), Some(4));

    assert_eq!(m.confirmations(&tx_hash(2)), None);
}

#[test]
fn worker_forwards_submissions_downstream() {
    let mut m = Monitor::new();
    let forwarded = m.handle_event(&MempoolEvent::AddTxs(vec![tx(1), tx(2)]), 6).unwrap();
    assert_eq!(forwarded.len(), 2);
    assert_eq!(forwarded[0].hash, tx_hash(1));
    assert_eq!(forwarded[0].raw, 1u64.to_be_bytes().to_vec());

    let none = m.handle_event(
        &MempoolEvent::ChainUpdate(BlockMonitorMessage::NewBlock(10, vec![tx_hash(1)])),
        6,
    );
    assert!(none.is_none());
    assert_eq!(m.inclusion(&tx_hash(1)), Some(Some(10)));
}

#[test]
fn default_monitor_is_empty() {
    let m = Monitor::default();
    assert_eq!(m.tip_slot(), 0);
    assert_eq!(m.inclusion(&tx_hash(1)), None);
}
