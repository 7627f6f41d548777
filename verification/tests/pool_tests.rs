use mini_chain::mini_chain::block::{Block, Transaction};
use mini_chain::mini_chain::chain::Blockchain;
use mini_chain::mini_chain::mempool::Mempool;
use mini_chain::mini_chain::metadata::BlockchainMetadata;
use mini_chain::mini_chain::txset::TransactionSet;
use rand::rngs::StdRng;
use rand::SeedableRng;
use std::sync::Arc;

fn pool_over(chain: Blockchain) -> Mempool {
    Mempool {
        queue: Vec::new(),
        in_flight: TransactionSet::new(),
        blockchain: Arc::new(chain),
        blockchain_metadata: Arc::new(BlockchainMetadata::default()),
    }
}

#[test]
fn push_pop_and_tick() {
    let mut rng = StdRng::seed_from_u64(1);
    let t1 = Transaction::random(&mut rng);
    let t2 = Transaction::random(&mut rng);
    let mut pool = Mempool::default();
    assert_eq!(pool.peek_from_queue().unwrap(), None);
    assert_eq!(pool.pop_transaction().unwrap(), None);
    pool.push_transaction(t1.clone()).unwrap();
    pool.push_transaction(t2.clone()).unwrap();
    assert_eq!(pool.queue.len(), 2);
    assert_eq!(pool.peek_from_queue().unwrap(), Some(&t1));

    let popped = pool.pop_transaction().unwrap();
    assert_eq!(popped, Some(t1.clone()));
    assert!(pool.is_in_flight(&t1).unwrap());
    assert!(!pool.is_in_flight(&t2).unwrap());
    assert_eq!(pool.queue, vec![t2.clone()]);

    // a transaction in flight is not taken in again
    pool.push_transaction(t1.clone()).unwrap();
    assert_eq!(pool.queue, vec![t2.clone()]);
    assert!(!pool.is_transaction_acceptable(&t1).unwrap());
    assert!(!pool.is_transaction_deliverable(&t1).unwrap());
    assert!(pool.is_transaction_acceptable(&t2).unwrap());

    pool.tick_mempool().unwrap();
    assert!(!pool.is_in_flight(&t1).unwrap());
    assert_eq!(pool.in_flight.len(), 0);
    assert_eq!(pool.queue, vec![t2.clone(), t1.clone()]);
}

#[test]
fn reenter_needs_a_transaction_in_flight() {
    let mut rng = StdRng::seed_from_u64(2);
    let t = Transaction::random(&mut rng);
    let mut pool = Mempool::default();
    assert_eq!(pool.reenter(t.clone()), Err("Transaction not in flight".to_string()));
    assert!(pool.queue.is_empty());
    pool.mark_in_flight(t.clone()).unwrap();
    assert_eq!(pool.pop_from_in_flight().unwrap(), Some(t.clone()));
    assert_eq!(pool.in_flight.len(), 1);
    pool.reenter(t.clone()).unwrap();
    assert_eq!(pool.queue, vec![t.clone()]);
    assert_eq!(pool.in_flight.len(), 0);
    assert_eq!(pool.pop_from_in_flight().unwrap(), None);
    assert_eq!(pool.pop_from_queue().unwrap(), Some(t));
    assert_eq!(pool.pop_from_queue().unwrap(), None);
}

#[test]
fn tick_returns_in_flight_in_order() {
    let mut rng = StdRng::seed_from_u64(3);
    let mut pool = Mempool::default();
    let mut all = Vec::new();
    for _ in 0..6 {
        let t = Transaction::random(&mut rng);
        pool.mark_in_flight(t.clone()).unwrap();
        all.push(t);
    }
    all.sort();
    pool.tick_mempool().unwrap();
    assert_eq!(pool.queue, all);
    assert_eq!(pool.in_flight.len(), 0);
}

#[test]
fn transactions_held_by_the_chain_are_refused() {
    let mut rng = StdRng::seed_from_u64(4);
    let held = Transaction::random(&mut rng);
    let fresh = Transaction::random(&mut rng);
    let mut chain = Blockchain::new(Arc::new(BlockchainMetadata::default()));
    let mut txns = TransactionSet::new();
    txns.insert(held.clone());
    chain.add_block(Block::new_at(txns, "", 8, 80)).unwrap();
    let mut pool = pool_over(chain);

    assert!(pool.blockchain_has_transaction_since(&held, 10));
    assert!(!pool.blockchain_has_transaction_since(&held, 11));
    assert!(!pool.is_transaction_acceptable_since(&held, 10));
    assert!(pool.is_transaction_acceptable_since(&held, 11));
    pool.push_transaction_since(held.clone(), 0);
    assert!(pool.queue.is_empty());
    pool.push_transaction_since(fresh.clone(), 0);
    assert_eq!(pool.queue, vec![fresh.clone()]);

    // held transactions leaving the queue are dropped
    pool.queue.insert(0, held.clone());
    assert_eq!(pool.peek_from_queue().unwrap(), Some(&held));
    assert_eq!(pool.pop_transaction_since(0), None);
    assert_eq!(pool.queue, vec![fresh.clone()]);
    assert_eq!(pool.in_flight.len(), 0);
    assert_eq!(pool.pop_transaction_since(0), Some(fresh.clone()));
    assert!(pool.is_in_flight(&fresh).unwrap());
    assert_eq!(pool.pop_transaction_since(0), None);
}

#[test]
fn expiry_of_pool_transactions() {
    let mut rng = StdRng::seed_from_u64(5);
    let mut t = Transaction::random(&mut rng);
    t.timestamp = 0;
    let pool = Mempool::default();
    assert_eq!(pool.transaction_has_expired(&t), Ok(true));
    t.timestamp = u64::MAX;
    assert_eq!(pool.transaction_has_expired(&t), Ok(false));
}
