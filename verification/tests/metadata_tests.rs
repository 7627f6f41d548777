use mini_chain::mini_chain::metadata::BlockchainMetadata;

#[test]
fn default_and_fast_parameters() {
    let d = BlockchainMetadata::default();
    assert_eq!(d.get_slot_secs(), Ok(8));
    assert_eq!(d.get_query_slots_count(), Ok(4));
    assert_eq!(d.get_fork_resolution_slots(), Ok(8));
    assert_eq!(d.get_block_size(), Ok(64));
    assert_eq!(d.get_maximum_proposer_time(), Ok(2));
    assert_eq!(d.get_mempool_reentrancy_secs(), Ok(2));
    assert_eq!(d.get_transaction_expiry_secs(), Ok(32));
    assert_eq!(d.get_difficulty(), Ok(8));
    assert_eq!(d.get_proposer_wait_ms(), Ok(100));
    let f = BlockchainMetadata::fast_chain();
    assert_eq!(f.slot_secs, 2);
    assert_eq!(f.block_size, 128);
    assert_eq!(f.maximum_proposer_time, 1);
    assert_eq!(f.transaction_expiry_secs, 8);
    assert_eq!(f.difficulty, 2);
}

#[test]
fn slot_arithmetic() {
    let d = BlockchainMetadata::default();
    assert_eq!(d.get_slot_start_time(25), Ok(24));
    assert_eq!(d.get_slot_start_time(7), Ok(0));
    assert_eq!(d.get_fork_resolution_secs(), Ok(64));
    assert_eq!(d.get_fork_resolution_time(25), Ok(88));
    assert_eq!(d.query_slot_lower_bound_at(100), Ok(64));
    assert!(d.query_slot_lower_bound_at(31).is_err());
    assert_eq!(d.query_slot_lower_bound_at(32), Ok(0));
    assert!(d.get_query_slot_lower_bound().is_ok());
}

#[test]
fn expiry_counts_from_the_slot_start() {
    let d = BlockchainMetadata::default();
    assert_eq!(d.transaction_expired_at(100, 50), Ok(true));
    assert_eq!(d.transaction_expired_at(100, 64), Ok(false));
    assert_eq!(d.transaction_expired_at(100, 63), Ok(true));
    assert_eq!(d.transaction_expired_at(100, 96), Ok(false));
    assert_eq!(d.transaction_expired_at(100, 97), Ok(false));
    assert_eq!(d.transaction_expired_at(100, u64::MAX), Ok(false));
    assert_eq!(d.has_transaction_expired(0), Ok(true));
    assert_eq!(d.has_transaction_expired(u64::MAX), Ok(false));
}
