use mini_chain::mini_chain::block::{
    Address, Argument, Block, ExecutionPayload, Label, Signature, Signer, Transaction,
    TransactionPayload, TypeArgument,
};
use mini_chain::mini_chain::canonical::{push_transaction_payload_text, push_transaction_text};
use mini_chain::mini_chain::txset::TransactionSet;
use rand::rngs::StdRng;
use rand::{Rng, SeedableRng};
use sha2::{Digest, Sha256};
use std::collections::BTreeSet;

fn sha256_hex(text: &str) -> String {
    let digest = Sha256::digest(text.as_bytes());
    let mut out = String::new();
    for b in digest.iter() {
        out.push_str(&format!("{:02x}", b));
    }
    out
}

fn sample_transaction(timestamp: u64, nonce: u64) -> Transaction {
    let payload = TransactionPayload::ExecutionPayload(ExecutionPayload {
        address: Address(vec![1, 2, 3]),
        label: Label(vec![7]),
        arguments: vec![
            Argument::U8(5),
            Argument::U128(340282366920938463463374607431768211455),
            Argument::Signer(Signer(Address(vec![9]))),
            Argument::Vector(vec![Argument::U16(65535), Argument::Struct(vec![])]),
        ],
        type_arguments: vec![
            TypeArgument::U64,
            TypeArgument::Vector(Box::new(TypeArgument::Address)),
            TypeArgument::Struct(vec![TypeArgument::Signer, TypeArgument::U32]),
        ],
    });
    Transaction::new(
        timestamp,
        nonce,
        payload,
        vec![vec![Address(vec![4, 5])]],
        vec![vec![Signature(vec![6])]],
    )
}

#[test]
fn test_mine_block() {
    let slot_secs = 12;
    let difficulty = 2;
    let mut block = Block::new(TransactionSet::new(), "0", slot_secs);
    block.mine_block(difficulty);
    assert!(block.pre_verify_self(slot_secs));
    assert!(block.verify_proof_of_work(2));
    assert!(block.verify_self(slot_secs, difficulty));
}

#[test]
fn test_randomized_mine_block() {
    let slot_secs = 12;
    let difficulty = 2;
    let rng = &mut StdRng::from_entropy();
    for _ in 0..rng.gen_range(8..32) {
        let mut block = Block::random(rng, slot_secs);
        block.mine_block(difficulty);
        assert!(block.pre_verify_self(slot_secs));
        assert!(block.verify_proof_of_work(2));
        assert!(block.verify_self(slot_secs, difficulty));
    }
}

#[test]
fn test_different_transactions_are_different() {
    let mut rng = StdRng::from_entropy();
    let txn1 = Transaction::random_now(&mut rng);
    let txn2 = Transaction::random_now(&mut rng);
    assert_ne!(txn1, txn2);
}

#[test]
fn test_btree() {
    let mut set = TransactionSet::new();
    let mut rng = StdRng::from_entropy();
    for _ in 0..32 {
        let txn = Transaction::random_now(&mut rng);
        assert!(!set.contains(&txn));
        set.insert(txn.clone());
    }
}

#[test]
fn transaction_text_matches_debug_format() {
    let t = sample_transaction(17, 42);
    let mut text = String::new();
    push_transaction_text(&mut text, &t);
    assert_eq!(text, format!("{:?}", t));
    let mut rng = StdRng::seed_from_u64(7);
    for _ in 0..40 {
        let t = Transaction::random(&mut rng);
        let mut text = String::new();
        push_transaction_text(&mut text, &t);
        assert_eq!(text, format!("{:?}", t));
        let mut payload = String::new();
        push_transaction_payload_text(&mut payload, &t.payload);
        assert_eq!(payload, format!("{:?}", t.payload));
    }
}

#[test]
fn transaction_hash_is_sha256_of_its_text() {
    let t = sample_transaction(1700000000, 3);
    let expected = sha256_hex(&format!("{}{}{:?}", t.timestamp, t.nonce, t.payload));
    assert_eq!(t.hash(), expected);
    assert_eq!(t.hash().len(), 64);
    let other = sample_transaction(1700000000, 4);
    assert_ne!(t.hash(), other.hash());
}

#[test]
fn display_hash_spaces_every_eight_characters() {
    let t = sample_transaction(5, 6);
    let hash = t.hash();
    let expected = format!(" {} {}", &hash[0..8], &hash[8..16]);
    assert_eq!(t.display_hash(), expected);
    assert_eq!(t.display_hash().len(), 18);
    assert!(hash.starts_with(&t.display_hash().replace(' ', "")));
}

#[test]
fn block_hash_matches_reference_digest() {
    let mut transactions = TransactionSet::new();
    let a = sample_transaction(3, 1);
    let b = sample_transaction(2, 9);
    transactions.insert(a.clone());
    transactions.insert(b.clone());
    let block = Block::new_at(transactions, "abc", 12, 1000);
    let mut hasher = Sha256::new();
    hasher.update(format!("{}{}{}", 1000, "abc", 0));
    hasher.update(format!("{:?}", b));
    hasher.update(format!("{:?}", a));
    let expected: String = hasher.finalize().iter().map(|x| format!("{:02x}", x)).collect();
    assert_eq!(block.hash, expected);
    assert_eq!(block.calculate_hash(), expected);
    assert!(block.check_hash());
    assert_eq!(block.slot_number, 83);
    assert_eq!(block.nonce, 0);
    assert_eq!(block.previous_hash, "abc");
}

#[test]
fn genesis_block_is_fixed() {
    let g = Block::genesis(12);
    assert_eq!(g.timestamp, 0);
    assert_eq!(g.slot_number, 0);
    assert_eq!(g.transactions.len(), 0);
    assert_eq!(g.previous_hash, "");
    assert_eq!(g.hash, sha256_hex("00"));
    assert_eq!(g, Block::genesis(5));
    assert!(g.pre_verify_self(12));
}

#[test]
fn block_hash_ignores_insertion_order() {
    let a = sample_transaction(3, 1);
    let b = sample_transaction(2, 9);
    let mut s1 = TransactionSet::new();
    s1.insert(a.clone());
    s1.insert(b.clone());
    let mut s2 = TransactionSet::new();
    s2.insert(b.clone());
    s2.insert(a.clone());
    let b1 = Block::new_at(s1, "p", 8, 64);
    let b2 = Block::new_at(s2, "p", 8, 64);
    assert_eq!(b1.hash, b2.hash);
}

#[test]
fn add_then_drop_transaction() {
    let mut block = Block::new_at(TransactionSet::new(), "", 8, 16);
    let t = sample_transaction(1, 1);
    assert!(block.add_transaction(t.clone()));
    assert!(!block.add_transaction(t.clone()));
    assert_eq!(block.transactions.len(), 1);
    assert!(!block.check_hash());
    assert!(block.drop_transaction(&t));
    assert!(!block.drop_transaction(&t));
    assert_eq!(block.transactions.len(), 0);
    assert!(block.check_hash());
}

#[test]
fn proof_of_work_checks_leading_zero_bytes() {
    let mut block = Block::new_at(TransactionSet::new(), "", 8, 16);
    block.hash = "00ab".to_string();
    assert!(block.verify_proof_of_work(0));
    assert!(block.verify_proof_of_work(2));
    assert!(!block.verify_proof_of_work(3));
    assert!(!block.verify_proof_of_work(5));
    assert!(!block.pre_verify_self(8));
}

#[test]
fn mining_finds_the_first_nonce() {
    let mut block = Block::new_at(TransactionSet::new(), "x", 8, 16);
    block.mine_block(1);
    assert!(block.hash.starts_with('0'));
    assert!(block.check_hash());
    let mut probe = Block::new_at(TransactionSet::new(), "x", 8, 16);
    for n in 0..block.nonce {
        probe.nonce = n;
        assert!(!probe.calculate_hash().starts_with('0'));
    }
    assert!(block.verify_self(8, 1));
}

#[test]
fn slot_numbers_divide_by_slot_length() {
    let block = Block::new_at(TransactionSet::new(), "", 12, 25);
    assert_eq!(block.compute_slot_number(12), 2);
    assert_eq!(block.compute_slot_number(5), 5);
    assert!(block.pre_verify_self(12));
    assert!(!block.pre_verify_self(5));
}

#[test]
fn transaction_order_matches_derived_order() {
    let mut rng = StdRng::seed_from_u64(11);
    let mut all = Vec::new();
    for _ in 0..20 {
        all.push(Transaction::random(&mut rng));
    }
    all.push(sample_transaction(1, 1));
    all.push(sample_transaction(1, 2));
    all.push(sample_transaction(2, 1));
    let mut tweaked = sample_transaction(1, 1);
    tweaked.signers = vec![vec![Address(vec![4, 5, 0])]];
    all.push(tweaked);
    for x in &all {
        for y in &all {
            let expected = match x.cmp(y) {
                std::cmp::Ordering::Less => -1,
                std::cmp::Ordering::Equal => 0,
                std::cmp::Ordering::Greater => 1,
            };
            assert_eq!(x.compare(y) as i32, expected);
        }
    }
}

#[test]
fn transaction_set_iterates_in_order() {
    let mut rng = StdRng::seed_from_u64(3);
    let mut set = TransactionSet::new();
    let mut reference = BTreeSet::new();
    for _ in 0..25 {
        let t = Transaction::random(&mut rng);
        assert_eq!(set.insert(t.clone()), reference.insert(t.clone()));
        assert!(!set.insert(t.clone()));
    }
    assert_eq!(set.len(), reference.len());
    for (i, t) in reference.iter().enumerate() {
        assert_eq!(set.get(i), t);
    }
    let victim = reference.iter().nth(4).unwrap().clone();
    assert!(set.remove(&victim));
    assert!(!set.remove(&victim));
    reference.remove(&victim);
    for (i, t) in reference.iter().enumerate() {
        assert_eq!(set.get(i), t);
    }
}

#[test]
fn random_values_have_their_shapes() {
    let mut rng = StdRng::seed_from_u64(5);
    let a = Address::random(&mut rng);
    assert_eq!(a.0.len(), 32);
    let s = Signature::random(&mut rng);
    assert_eq!(s.0.len(), 32);
    for _ in 0..20 {
        let t = Transaction::random(&mut rng);
        assert_eq!(t.signers.len(), 1);
        assert_eq!(t.signers[0].len(), 1);
        assert_eq!(t.signers[0][0].0.len(), 32);
        assert_eq!(t.signatures[0][0].0.len(), 32);
        let TransactionPayload::ExecutionPayload(p) = &t.payload;
        assert!(!p.label.0.is_empty() && p.label.0.len() < 32);
        assert_eq!(p.arguments.len(), 1);
        assert_eq!(p.type_arguments.len(), 1);
    }
    for _ in 0..20 {
        match Argument::random(&mut rng, 0) {
            Argument::Vector(_) | Argument::Struct(_) => panic!("a list at depth zero"),
            _ => {}
        }
        match TypeArgument::random(&mut rng, 0) {
            TypeArgument::Vector(_) | TypeArgument::Struct(_) => panic!("a list at depth zero"),
            _ => {}
        }
    }
    let b = Block::random(&mut rng, 12);
    assert!(b.transactions.len() < 32);
    assert!(b.pre_verify_self(12));
    assert_eq!(b.previous_hash, "");
}

#[test]
fn transaction_hash_ignores_signers() {
    let a = sample_transaction(9, 9);
    let mut b = a.clone();
    b.signers = vec![vec![Address(vec![200; 32])], vec![]];
    b.signatures = vec![];
    assert_ne!(a, b);
    assert_eq!(a.hash(), b.hash());
}
