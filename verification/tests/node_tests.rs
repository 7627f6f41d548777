use mini_chain::mini_chain::block::{Block, Transaction};
use mini_chain::mini_chain::chain::Blockchain;
use mini_chain::mini_chain::metadata::BlockchainMetadata;
use mini_chain::mini_chain::mempool::Mempool;
use mini_chain::mini_chain::node::{
    fork_resolution_due, propose_step, select_proposed_block, take_next_transaction, ProposeAction, SynchronizerResponses,
};
use mini_chain::mini_chain::strset::StringSet;
use mini_chain::mini_chain::txset::TransactionSet;
use rand::rngs::StdRng;
use rand::SeedableRng;
use std::sync::Arc;

fn block_named(name: &str) -> Block {
    let mut b = Block::new_at(TransactionSet::new(), "", 8, 0);
    b.hash = name.to_string();
    b
}

#[test]
fn requests_and_responses() {
    let mut book = SynchronizerResponses::new();
    let key = "h".to_string();
    assert!(book.lookup(&key).is_none());
    assert!(book.add_synchronizer_request(key.clone()).is_none());
    assert_eq!(book.lookup(&key), Some((1, None)));
    assert!(book.add_synchronizer_request(key.clone()).is_none());
    assert_eq!(book.lookup(&key), Some((2, None)));

    // a response nobody asked for is ignored
    book.add_synchronizer_response(block_named("other"));
    assert!(book.lookup(&"other".to_string()).is_none());

    let b = block_named("h");
    book.add_synchronizer_response(b.clone());
    assert_eq!(book.lookup(&key), Some((2, Some(b.clone()))));
    // a request for a block that has come is answered at once
    assert_eq!(book.add_synchronizer_request(key.clone()), Some(b.clone()));
    assert_eq!(book.lookup(&key), Some((2, Some(b.clone()))));

    assert_eq!(book.get_synchronizer_response(key.clone(), false), Some(b.clone()));
    assert_eq!(book.lookup(&key), Some((1, Some(b.clone()))));
    assert_eq!(book.get_synchronizer_response(key.clone(), false), Some(b.clone()));
    assert!(book.lookup(&key).is_none());
}

#[test]
fn waiting_without_a_response() {
    let mut book = SynchronizerResponses::new();
    let key = "k".to_string();
    book.add_synchronizer_request(key.clone());
    book.add_synchronizer_request(key.clone());
    assert_eq!(book.get_synchronizer_response(key.clone(), false), None);
    assert_eq!(book.lookup(&key), Some((2, None)));
    assert_eq!(book.get_synchronizer_response(key.clone(), true), None);
    assert_eq!(book.lookup(&key), Some((1, None)));
    assert_eq!(book.get_synchronizer_response(key.clone(), true), None);
    assert!(book.lookup(&key).is_none());
    assert_eq!(book.get_synchronizer_response(key.clone(), true), None);
    assert!(book.lookup(&key).is_none());
}

#[test]
fn candidates_drop_held_transactions_and_cover_leaves() {
    let mut rng = StdRng::seed_from_u64(9);
    let held = Transaction::random(&mut rng);
    let fresh = Transaction::random(&mut rng);
    let mut chain = Blockchain::new(Arc::new(BlockchainMetadata::default()));
    let mut txns = TransactionSet::new();
    txns.insert(held.clone());
    let g = Block::new_at(txns, "", 8, 0);
    chain.add_block(g.clone()).unwrap();
    let a = Block::new_at(TransactionSet::new(), &g.hash, 8, 8);
    let b = Block::new_at(TransactionSet::new(), &g.hash, 8, 16);
    chain.add_block(a.clone()).unwrap();
    chain.add_block(b.clone()).unwrap();

    let mut proposal_txns = TransactionSet::new();
    proposal_txns.insert(held.clone());
    proposal_txns.insert(fresh.clone());
    let proposal = Block::new_at(proposal_txns, "", 8, 40);
    let candidates = chain.mining_candidates(&proposal, 0);
    assert_eq!(candidates.len(), 2);
    let mut parents: Vec<String> = candidates.iter().map(|c| c.previous_hash.clone()).collect();
    parents.sort();
    let mut leaves = vec![a.hash.clone(), b.hash.clone()];
    leaves.sort();
    assert_eq!(parents, leaves);
    for c in &candidates {
        assert_eq!(c.transactions.len(), 1);
        assert_eq!(c.transactions.get(0), &fresh);
        assert_eq!(c.timestamp, proposal.timestamp);
        assert_eq!(c.hash, proposal.hash);
    }
    // outside the query window nothing is dropped
    let wide = chain.mining_candidates(&proposal, 1);
    assert_eq!(wide[0].transactions.len(), 2);
}

#[test]
fn mined_blocks_join_the_chain() {
    let mut chain = Blockchain::new(Arc::new(BlockchainMetadata::default()));
    let g = Block::new_at(TransactionSet::new(), "", 8, 0);
    chain.accept_mined_block(g.clone(), &String::new()).unwrap();
    assert!(chain.has_block(g.hash.clone()).unwrap());
    let mut a = Block::new_at(TransactionSet::new(), &g.hash, 8, 8);
    a.mine_block(1);
    chain.accept_mined_block(a.clone(), &g.hash).unwrap();
    assert_eq!(chain.get_chain_tip().unwrap().unwrap(), a);
    let orphan = Block::new_at(TransactionSet::new(), "missing", 8, 8);
    chain.accept_mined_block(orphan.clone(), &a.hash).unwrap();
    assert!(!chain.has_block(orphan.hash.clone()).unwrap());
}

#[test]
fn proposals_pick_the_least_block() {
    assert_eq!(select_proposed_block(&vec![], 8), Block::genesis(8));
    let mut rng = StdRng::seed_from_u64(12);
    let mut blocks = Vec::new();
    for _ in 0..6 {
        blocks.push(Block::random(&mut rng, 8));
    }
    let mut same_time = Block::new_at(TransactionSet::new(), "b", 8, 100);
    blocks.push(same_time.clone());
    same_time.previous_hash = "a".to_string();
    blocks.push(same_time.clone());
    let expected = blocks.iter().min().unwrap().clone();
    assert_eq!(select_proposed_block(&blocks, 8), expected);
    let mut tied = vec![
        Block::new_at(TransactionSet::new(), "b", 8, 100),
        Block::new_at(TransactionSet::new(), "a", 8, 100),
    ];
    tied[1].hash = tied[0].hash.clone();
    assert_eq!(select_proposed_block(&tied, 8).previous_hash, "a");
}

#[test]
fn block_order_matches_derived_order() {
    let mut rng = StdRng::seed_from_u64(13);
    let mut blocks = Vec::new();
    for _ in 0..5 {
        blocks.push(Block::random(&mut rng, 8));
    }
    let base = Block::new_at(TransactionSet::new(), "p", 8, 64);
    let mut other_nonce = base.clone();
    other_nonce.nonce = 3;
    let mut other_parent = base.clone();
    other_parent.previous_hash = "pé".to_string();
    let mut with_txn = base.clone();
    with_txn.add_transaction(Transaction::random(&mut rng));
    blocks.push(base);
    blocks.push(other_nonce);
    blocks.push(other_parent);
    blocks.push(with_txn);
    for x in &blocks {
        for y in &blocks {
            let expected = match x.cmp(y) {
                std::cmp::Ordering::Less => -1,
                std::cmp::Ordering::Equal => 0,
                std::cmp::Ordering::Greater => 1,
            };
            assert_eq!(x.compare(y) as i32, expected);
        }
    }
}

#[test]
fn waiting_rounds_for_a_block() {
    let mut book = SynchronizerResponses::new();
    let key = "want".to_string();
    book.add_synchronizer_request(key.clone());
    book.add_synchronizer_request(key.clone());
    // nothing came: the book is only looked at
    assert_eq!(book.handle_response(&key, None), None);
    assert_eq!(book.lookup(&key), Some((2, None)));
    // the block itself came: handed out, the book is left alone
    let wanted = block_named("want");
    assert_eq!(book.handle_response(&key, Some(wanted.clone())), Some(wanted.clone()));
    assert_eq!(book.lookup(&key), Some((2, None)));
    // another block came that somebody else asked for: it is kept for them
    book.add_synchronizer_request("else".to_string());
    let other = block_named("else");
    assert_eq!(book.handle_response(&key, Some(other.clone())), None);
    assert_eq!(book.lookup(&"else".to_string()), Some((1, Some(other.clone()))));
    assert_eq!(book.lookup(&key), Some((2, None)));
    // a single open request survives an empty round, and its answer is kept
    let lone = "lone".to_string();
    book.add_synchronizer_request(lone.clone());
    assert_eq!(book.handle_response(&lone, None), None);
    assert_eq!(book.lookup(&lone), Some((1, None)));
    let late = block_named("lone");
    book.add_synchronizer_response(late.clone());
    assert_eq!(book.get_synchronizer_response(lone.clone(), false), Some(late));
    assert!(book.lookup(&lone).is_none());
}

#[test]
fn building_a_block_from_the_pool() {
    let mut rng = StdRng::seed_from_u64(14);
    let t1 = Transaction::random(&mut rng);
    let t2 = Transaction::random(&mut rng);
    let mut pool = Mempool::default();
    pool.push_transaction(t1.clone()).unwrap();
    pool.push_transaction(t2.clone()).unwrap();
    let mut block = Block::new_at(TransactionSet::new(), "", 8, 0);
    assert_eq!(take_next_transaction(&mut block, &mut pool), Ok(true));
    assert_eq!(block.transactions.len(), 1);
    assert!(block.transactions.contains(&t1));
    assert!(pool.is_in_flight(&t1).unwrap());
    assert_eq!(take_next_transaction(&mut block, &mut pool), Ok(true));
    assert_eq!(block.transactions.len(), 2);
    assert_eq!(take_next_transaction(&mut block, &mut pool), Ok(false));
    assert_eq!(block.transactions.len(), 2);
}

#[test]
fn tree_rows_walk_the_tree() {
    let mut chain = Blockchain::new(Arc::new(BlockchainMetadata::default()));
    assert!(chain.tree_rows().unwrap().is_empty());
    let g = Block::new_at(TransactionSet::new(), "", 8, 0);
    chain.add_block(g.clone()).unwrap();
    let a = Block::new_at(TransactionSet::new(), &g.hash, 8, 8);
    let b = Block::new_at(TransactionSet::new(), &g.hash, 8, 16);
    chain.add_block(a.clone()).unwrap();
    chain.add_block(b.clone()).unwrap();
    let a2 = Block::new_at(TransactionSet::new(), &a.hash, 8, 24);
    chain.add_block(a2.clone()).unwrap();
    let rows = chain.tree_rows().unwrap();
    assert_eq!(rows.len(), 4);
    assert_eq!(rows[0].hash, g.hash);
    assert_eq!(rows[0].depth, 0);
    assert!(rows[0].is_last);
    assert!(rows[0].ancestors_last.is_empty());
    assert!(!rows[0].is_leaf);
    assert!(rows[0].in_main_chain);
    for row in &rows {
        assert_eq!(row.depth, row.ancestors_last.len());
        let on_main = row.hash == g.hash || row.hash == a.hash || row.hash == a2.hash;
        assert_eq!(row.in_main_chain, on_main);
        assert_eq!(row.is_leaf, row.hash == b.hash || row.hash == a2.hash);
    }
    let pos = |h: &String| rows.iter().position(|r| &r.hash == h).unwrap();
    assert_eq!(pos(&a2.hash), pos(&a.hash) + 1);
    assert_eq!(rows[pos(&a2.hash)].depth, 2);
    assert_eq!(rows[pos(&a2.hash)].ancestors_last, vec![true, rows[pos(&a.hash)].is_last]);
    assert!(rows[pos(&a.hash)].is_last != rows[pos(&b.hash)].is_last);
}

#[test]
fn one_request_one_answer_leaves_no_trace() {
    let mut book = SynchronizerResponses::new();
    book.add_synchronizer_request("x".to_string());
    let other_key = "y".to_string();
    book.add_synchronizer_request(other_key.clone());
    let b = block_named("x");
    book.add_synchronizer_response(b.clone());
    assert_eq!(book.get_synchronizer_response("x".to_string(), true), Some(b));
    assert!(book.lookup(&"x".to_string()).is_none());
    assert_eq!(book.lookup(&other_key), Some((1, None)));
}

#[test]
fn proposing_stops_at_the_block_size() {
    let mut rng = StdRng::seed_from_u64(15);
    let mut pool = Mempool::default();
    for _ in 0..4 {
        pool.push_transaction(Transaction::random(&mut rng)).unwrap();
    }
    let mut block = Block::new_at(TransactionSet::new(), "", 8, 0);
    let block_size = 2;
    let mut step = 0;
    loop {
        match propose_step(&mut block, &mut pool, step, block_size).unwrap() {
            ProposeAction::Done => break,
            ProposeAction::Took => {}
            ProposeAction::Wait => panic!("the pool is not empty"),
        }
        step += 1;
    }
    assert_eq!(step, 2);
    assert_eq!(block.transactions.len(), 2);
    assert_eq!(pool.queue.len(), 2);
    let mut empty = Mempool::default();
    assert_eq!(propose_step(&mut block, &mut empty, 0, 5), Ok(ProposeAction::Wait));
}

#[test]
fn branch_rows_from_any_block() {
    let mut chain = Blockchain::new(Arc::new(BlockchainMetadata::default()));
    let g = Block::new_at(TransactionSet::new(), "", 8, 0);
    chain.add_block(g.clone()).unwrap();
    let a = Block::new_at(TransactionSet::new(), &g.hash, 8, 8);
    chain.add_block(a.clone()).unwrap();
    let a2 = Block::new_at(TransactionSet::new(), &a.hash, 8, 16);
    chain.add_block(a2.clone()).unwrap();
    let mut main = StringSet::new();
    main.insert(a2.hash.clone());
    let rows = chain.branch_rows_from(&a.hash, &vec![false], false, &main);
    assert_eq!(rows.len(), 2);
    assert_eq!(rows[0].hash, a.hash);
    assert_eq!(rows[0].depth, 1);
    assert_eq!(rows[0].ancestors_last, vec![false]);
    assert!(!rows[0].is_last && !rows[0].in_main_chain && !rows[0].is_leaf);
    assert_eq!(rows[1].hash, a2.hash);
    assert_eq!(rows[1].ancestors_last, vec![false, false]);
    assert!(rows[1].is_last && rows[1].in_main_chain && rows[1].is_leaf);
    assert!(chain.branch_rows_from(&"missing".to_string(), &vec![], true, &main).is_empty());
}

#[test]
fn fork_resolution_timing() {
    assert!(!fork_resolution_due(10, 5, 8));
    assert!(fork_resolution_due(13, 5, 8));
    assert!(fork_resolution_due(20, 5, 8));
    assert!(!fork_resolution_due(u64::MAX, u64::MAX, 1));
    assert!(fork_resolution_due(0, 0, 0));
}

#[test]
fn a_head_in_flight_is_dropped_without_failing() {
    let mut rng = StdRng::seed_from_u64(16);
    let t = Transaction::random(&mut rng);
    let mut pool = Mempool::default();
    pool.mark_in_flight(t.clone()).unwrap();
    pool.add_to_queue(t.clone()).unwrap();
    let mut block = Block::new_at(TransactionSet::new(), "", 8, 0);
    assert_eq!(propose_step(&mut block, &mut pool, 0, 4), Ok(ProposeAction::Wait));
    assert!(pool.queue.is_empty());
    assert_eq!(pool.in_flight.len(), 1);
    assert_eq!(block.transactions.len(), 0);
}
