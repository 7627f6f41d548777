use mini_chain::mini_chain::block::{Block, Transaction};
use mini_chain::mini_chain::chain::Blockchain;
use mini_chain::mini_chain::metadata::BlockchainMetadata;
use mini_chain::mini_chain::txset::TransactionSet;
use rand::rngs::StdRng;
use rand::{Rng, SeedableRng};
use std::collections::HashSet;
use std::sync::Arc;

fn create_fork(
    blockchain: &mut Blockchain,
    rng: &mut StdRng,
    slot_secs: u64,
    previous_hash: String,
    depth: usize,
) -> Result<usize, String> {
    if depth == 0 {
        return Ok(0);
    }

    let mut block = Block::random(rng, slot_secs);
    block.previous_hash = previous_hash;
    blockchain.add_block(block.clone())?;
    let current_hash = block.hash.clone();

    let should_fork_left: bool = rng.gen::<f32>() < 0.7;
    let should_fork_right: bool = rng.gen::<f32>() < 0.7;

    let mut left_length = 0;
    let mut right_length = 0;

    if should_fork_left {
        left_length = create_fork(blockchain, rng, slot_secs, current_hash.clone(), depth - 1)?;
    }

    if should_fork_right {
        right_length = create_fork(blockchain, rng, slot_secs, current_hash, depth - 1)?;
    }

    Ok(1 + std::cmp::max(left_length, right_length))
}

fn grow_trunk(blockchain: &mut Blockchain, rng: &mut StdRng, slot_secs: u64) -> (usize, String) {
    let genesis_block = Block::random(rng, slot_secs);
    blockchain.add_block(genesis_block.clone()).unwrap();
    let trunk_size = rng.gen_range(1..4);
    let mut last_hash = genesis_block.hash.clone();
    for _ in 0..trunk_size {
        let mut block = Block::random(rng, slot_secs);
        block.previous_hash = last_hash;
        last_hash = block.hash.clone();
        blockchain.add_block(block).unwrap();
    }
    (trunk_size, last_hash)
}

#[test]
fn test_add_block() {
    let metadata = Arc::new(BlockchainMetadata::default());
    let mut blockchain = Blockchain::new(metadata.clone());
    let block = Block::random(&mut StdRng::from_entropy(), metadata.clone().get_slot_secs().unwrap());
    blockchain.add_block(block).unwrap();
    assert_eq!(blockchain.block_hashes().len(), 1);
    assert_eq!(blockchain.get_leaf_hashes().unwrap().len(), 1);
}

#[test]
fn test_get_chain_tip() {
    let metadata = Arc::new(BlockchainMetadata::default());
    let mut blockchain = Blockchain::new(metadata.clone());
    let slot_secs = metadata.clone().get_slot_secs().unwrap();

    let tip_zero = blockchain.get_chain_tip().unwrap();
    assert!(tip_zero.is_none());

    let first_block = Block::random(&mut StdRng::from_entropy(), slot_secs);
    blockchain.add_block(first_block.clone()).unwrap();
    let tip_one = blockchain.get_chain_tip().unwrap().unwrap();
    assert_eq!(tip_one.calculate_hash(), first_block.calculate_hash());

    let mut second_block = Block::random(&mut StdRng::from_entropy(), slot_secs);
    second_block.previous_hash = blockchain.get_chain_tip().unwrap().unwrap().hash.clone();
    blockchain.add_block(second_block.clone()).unwrap();
    let tip_two = blockchain.get_chain_tip().unwrap().unwrap();
    assert_eq!(tip_two.calculate_hash(), second_block.calculate_hash());
}

#[test]
fn test_fork() {
    let mut rng = StdRng::from_entropy();
    let metadata = Arc::new(BlockchainMetadata::default());
    let mut blockchain = Blockchain::new(metadata.clone());
    let slot_secs = metadata.clone().get_slot_secs().unwrap();

    let (trunk_size, last_hash) = grow_trunk(&mut blockchain, &mut rng, slot_secs);
    let fork_depth = 6;
    let fork_length = create_fork(&mut blockchain, &mut rng, slot_secs, last_hash, fork_depth).unwrap();

    let longest_chain = blockchain.get_main_chain().unwrap();
    assert_eq!(longest_chain.len(), 1 + trunk_size + fork_length);
}

#[test]
fn test_fork_and_resolve() {
    let mut rng = StdRng::from_entropy();
    let metadata = Arc::new(BlockchainMetadata::default());
    let mut blockchain = Blockchain::new(metadata.clone());
    let slot_secs = metadata.clone().get_slot_secs().unwrap();

    let (trunk_size, last_hash) = grow_trunk(&mut blockchain, &mut rng, slot_secs);
    let fork_depth = 6;
    let fork_length = create_fork(&mut blockchain, &mut rng, slot_secs, last_hash, fork_depth).unwrap();

    let longest_chain = blockchain.get_main_chain().unwrap();
    assert_eq!(longest_chain.len(), 1 + trunk_size + fork_length);

    blockchain.resolve_chain().unwrap();

    let longest_chain_hashes =
        longest_chain.iter().map(|block| block.hash.clone()).collect::<HashSet<String>>();
    for hash in blockchain.block_hashes().iter() {
        assert!(longest_chain_hashes.contains(hash));
    }
}

#[test]
fn test_get_transaction() {
    let metadata = Arc::new(BlockchainMetadata::default());
    let mut blockchain = Blockchain::new(metadata.clone());
    let slot_secs = metadata.clone().get_slot_secs().unwrap();

    let mut block = Block::random(&mut StdRng::from_entropy(), slot_secs);
    let transaction = Transaction::random(&mut StdRng::from_entropy());
    block.transactions.insert(transaction.clone());

    blockchain.add_block(block).unwrap();

    let transaction_copy = blockchain.get_transaction(&transaction).unwrap().unwrap();
    assert_eq!(transaction, transaction_copy);
}

fn child_of(parent: &Block, timestamp: u64) -> Block {
    Block::new_at(TransactionSet::new(), &parent.hash, 8, timestamp)
}

#[test]
fn orphans_are_ignored_and_forks_tracked() {
    let mut chain = Blockchain::new(Arc::new(BlockchainMetadata::default()));
    let g = Block::new_at(TransactionSet::new(), "", 8, 0);
    chain.add_block(g.clone()).unwrap();
    let orphan = Block::new_at(TransactionSet::new(), "nowhere", 8, 5);
    chain.add_block(orphan.clone()).unwrap();
    assert!(!chain.has_block(orphan.hash.clone()).unwrap());
    assert!(chain.get_block(orphan.hash.clone()).unwrap().is_none());

    let a = child_of(&g, 10);
    let b = child_of(&g, 20);
    chain.add_block(a.clone()).unwrap();
    assert!(chain.is_resolved());
    chain.add_block(b.clone()).unwrap();
    assert!(!chain.is_resolved());
    assert_eq!(chain.get_leaf_hashes().unwrap().len(), 2);
    assert_eq!(chain.get_leaves().unwrap().len(), 2);
    assert_eq!(chain.get_block(a.hash.clone()).unwrap().unwrap(), a);

    let a2 = child_of(&a, 30);
    chain.add_block(a2.clone()).unwrap();
    let main = chain.get_main_chain().unwrap();
    let hashes: Vec<String> = main.iter().map(|b| b.hash.clone()).collect();
    assert_eq!(hashes, vec![a2.hash.clone(), a.hash.clone(), g.hash.clone()]);
    assert_eq!(chain.get_chain_tip().unwrap().unwrap(), a2);

    chain.resolve_chain().unwrap();
    assert!(chain.is_resolved());
    assert!(!chain.has_block(b.hash.clone()).unwrap());
    assert_eq!(chain.block_hashes().len(), 3);
    assert_eq!(chain.get_main_chain().unwrap().len(), 3);
}

#[test]
fn trunk_and_genesis() {
    let mut chain = Blockchain::new(Arc::new(BlockchainMetadata::default()));
    assert!(chain.compute_genesis_block().unwrap().is_none());
    let g = Block::new_at(TransactionSet::new(), "", 8, 0);
    chain.add_block(g.clone()).unwrap();
    let a = child_of(&g, 10);
    chain.add_block(a.clone()).unwrap();
    let b = child_of(&a, 20);
    let c = child_of(&a, 30);
    chain.add_block(b.clone()).unwrap();
    chain.add_block(c.clone()).unwrap();
    let (genesis, children) = chain.compute_genesis_block().unwrap().unwrap();
    assert_eq!(genesis, g);
    assert_eq!(children.len(), 1);
    let trunk = chain.get_trunk().unwrap();
    let trunk_hashes: Vec<String> = trunk.iter().map(|b| b.hash.clone()).collect();
    assert_eq!(trunk_hashes, vec![g.hash.clone()]);
    // main chain of three blocks: 3 - 2 * floor(log2 3) = 1, and the trunk holds 1
    assert!(chain.is_trunk_tall().unwrap());
}

#[test]
fn transactions_of_the_main_chain() {
    let mut rng = StdRng::seed_from_u64(21);
    let mut chain = Blockchain::new(Arc::new(BlockchainMetadata::default()));
    let t1 = Transaction::random(&mut rng);
    let t2 = Transaction::random(&mut rng);
    let t3 = Transaction::random(&mut rng);
    let mut s = TransactionSet::new();
    s.insert(t1.clone());
    let g = Block::new_at(s, "", 8, 0);
    chain.add_block(g.clone()).unwrap();
    let mut s = TransactionSet::new();
    s.insert(t2.clone());
    let a = Block::new_at(s, &g.hash, 8, 8);
    chain.add_block(a.clone()).unwrap();
    let all = chain.main_chain_transactions().unwrap();
    assert_eq!(all, vec![t2.clone(), t1.clone()]);
    let counted = chain
        .count_included_transactions(&vec![t1.clone(), t3.clone(), t2.clone(), t1.clone()])
        .unwrap();
    assert_eq!(counted, 3);
    assert!(chain.has_transaction_since(&t2, 0));
    assert!(chain.has_transaction_since(&t2, 1));
    assert!(!chain.has_transaction_since(&t2, 2));
    assert!(!chain.has_transaction_since(&t1, 1));
    assert!(!chain.has_transaction_since(&t3, 0));
    assert_eq!(chain.get_transaction_since(&t1, 0), Some(t1.clone()));
    assert_eq!(chain.get_transaction_since(&t3, 0), None);
}

#[test]
fn extending_the_tip_keeps_one_leaf() {
    let mut chain = Blockchain::new(Arc::new(BlockchainMetadata::default()));
    let mut parent = Block::new_at(TransactionSet::new(), "", 8, 0);
    chain.add_block(parent.clone()).unwrap();
    for k in 1..6 {
        let next = child_of(&parent, 8 * k);
        chain.add_block(next.clone()).unwrap();
        assert!(chain.is_resolved());
        assert_eq!(chain.get_chain_tip().unwrap().unwrap(), next);
        assert_eq!(chain.get_leaf_hashes().unwrap().to_vec(), vec![next.hash.clone()]);
        parent = next;
    }
    assert_eq!(chain.get_main_chain().unwrap().len(), 6);
}

#[test]
fn resolution_keeps_the_main_chain_read_before() {
    let mut chain = Blockchain::new(Arc::new(BlockchainMetadata::default()));
    let g = Block::new_at(TransactionSet::new(), "", 8, 0);
    chain.add_block(g.clone()).unwrap();
    // two forks of the same length
    let a = child_of(&g, 8);
    let b = child_of(&g, 16);
    chain.add_block(a.clone()).unwrap();
    chain.add_block(b.clone()).unwrap();
    let main = chain.get_main_chain().unwrap();
    assert_eq!(chain.get_main_chain().unwrap(), main);
    chain.resolve_chain().unwrap();
    let kept: Vec<String> = chain.get_main_chain().unwrap().iter().map(|b| b.hash.clone()).collect();
    let before: Vec<String> = main.iter().map(|b| b.hash.clone()).collect();
    assert_eq!(kept, before);
    assert_eq!(chain.block_hashes().len(), 2);
}

#[test]
fn leaves_are_the_childless_blocks() {
    let mut chain = Blockchain::new(Arc::new(BlockchainMetadata::default()));
    let g = Block::new_at(TransactionSet::new(), "", 8, 0);
    chain.add_block(g.clone()).unwrap();
    let a = child_of(&g, 8);
    let b = child_of(&g, 16);
    let c = child_of(&a, 24);
    for blk in [&a, &b, &c] {
        chain.add_block((*blk).clone()).unwrap();
    }
    let mut leaves = chain.get_leaf_hashes().unwrap().to_vec();
    leaves.sort();
    let mut expected = vec![b.hash.clone(), c.hash.clone()];
    expected.sort();
    assert_eq!(leaves, expected);
}
