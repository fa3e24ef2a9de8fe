use consensus_lab::primitives::types::Extrinsic;
use consensus_lab::protocol::tx_pool::TransactionPool;

fn set(k: u8) -> Extrinsic {
    Extrinsic::SetState { key: vec![k], value: vec![k, k] }
}

#[test]
fn submit_returns_hash_and_refuses_duplicates() {
    let mut pool = TransactionPool::new(10);
    let h = pool.submit(set(1)).unwrap();
    assert_eq!(h, set(1).hash());
    assert_eq!(pool.submit(set(1)), Err("Transaction already seen"));
    assert_eq!(pool.pending.len(), 1);
}

#[test]
fn full_pool_refuses_first() {
    let mut pool = TransactionPool::new(2);
    pool.submit(set(1)).unwrap();
    pool.submit(set(2)).unwrap();
    assert_eq!(pool.submit(set(3)), Err("Pool is full"));
    // Fullness is checked before the seen set.
    assert_eq!(pool.submit(set(1)), Err("Pool is full"));
    assert_eq!(pool.pending.len(), 2);
}

#[test]
fn zero_capacity_pool_accepts_nothing() {
    let mut pool = TransactionPool::new(0);
    assert_eq!(pool.submit(set(1)), Err("Pool is full"));
}

#[test]
fn reap_takes_oldest_first_and_never_readmits() {
    let mut pool = TransactionPool::new(10);
    for k in 1..=5u8 {
        pool.submit(set(k)).unwrap();
    }
    let ready = pool.reap_ready(3);
    assert_eq!(ready.len(), 3);
    assert_eq!(ready[0].hash(), set(1).hash());
    assert_eq!(ready[2].hash(), set(3).hash());
    assert_eq!(pool.pending.len(), 2);
    // Reaped transactions stay seen.
    assert_eq!(pool.submit(set(1)), Err("Transaction already seen"));
    let rest = pool.reap_ready(10);
    assert_eq!(rest.len(), 2);
    assert_eq!(pool.pending.len(), 0);
    assert!(pool.reap_ready(1).is_empty());
}

#[test]
fn remove_mined_drops_listed_transactions() {
    let mut pool = TransactionPool::new(10);
    for k in 1..=4u8 {
        pool.submit(set(k)).unwrap();
    }
    pool.remove_mined(&[set(2), set(4), set(9)]);
    assert_eq!(pool.pending.len(), 2);
    assert!(pool.pending.contains_key(&set(1).hash()));
    assert!(!pool.pending.contains_key(&set(2).hash()));
    assert!(pool.pending.contains_key(&set(3).hash()));
}
