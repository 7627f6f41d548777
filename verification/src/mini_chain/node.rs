//! The decisions a full node makes between its network steps: which
//! blocks to mine from a proposal, how to take in a mined block, and the
//! bookkeeping of block requests and responses between nodes.
use vstd::prelude::*;
use super::block::{Block, BlockModel, Transaction, TransactionModel, genesis_block_model};
use super::mempool::{Mempool, pop_outcome_at};
use super::chain::txn_models;
use super::order::{compare_block, lemma_block_basic, lemma_block_trans};
use super::chain::{Blockchain, ChainModel, add_block_model, chain_has_transaction};
use super::strset::{StringSet, string_views};
use super::txset::is_strictly_sorted;

verus! {

/// The abstract value of an optional block.
pub open spec fn opt_block_model(o: Option<Block>) -> Option<BlockModel> {
    match o {
        Some(b) => Some(b@),
        None => None,
    }
}

/// One entry of the response book: how many requests for a hash are open,
/// and the block once one has come.
#[derive(Debug)]
struct ResponseEntry {
    key: String,
    count: u64,
    block: Option<Block>,
}

spec fn entry_has_key(e: Seq<ResponseEntry>, k: Seq<char>) -> bool {
    exists|i: int| 0 <= i < e.len() && (#[trigger] e[i]).key@ == k
}

spec fn entry_index(e: Seq<ResponseEntry>, k: Seq<char>) -> int {
    choose|i: int| 0 <= i < e.len() && (#[trigger] e[i]).key@ == k
}

spec fn entry_keys_unique(e: Seq<ResponseEntry>) -> bool {
    forall|i: int, j: int| 0 <= i < e.len() && 0 <= j < e.len() && i != j ==> (#[trigger] e[i]).key@
        != (#[trigger] e[j]).key@
}

spec fn entry_blocks_keyed(e: Seq<ResponseEntry>) -> bool {
    forall|i: int| 0 <= i < e.len() ==> match (#[trigger] e[i]).block {
        Some(b) => b.hash@ == e[i].key@,
        None => true,
    }
}

spec fn entry_value(r: ResponseEntry) -> (u64, Option<BlockModel>) {
    (r.count, opt_block_model(r.block))
}

spec fn entries_map(e: Seq<ResponseEntry>) -> Map<Seq<char>, (u64, Option<BlockModel>)> {
    Map::new(|k: Seq<char>| entry_has_key(e, k), |k: Seq<char>| entry_value(e[entry_index(e, k)]))
}

proof fn lemma_entry_index(e: Seq<ResponseEntry>, i: int)
    requires
        entry_keys_unique(e),
        0 <= i < e.len(),
    ensures
        entry_has_key(e, e[i].key@),
        entry_index(e, e[i].key@) == i,
{
    assert(entry_has_key(e, e[i].key@));
}

/// The book of block requests a node has sent and the responses it has
/// seen, by block hash: an open-request count and the block, once known.
#[derive(Debug)]
pub struct SynchronizerResponses {
    entries: Vec<ResponseEntry>,
}

impl View for SynchronizerResponses {
    type V = Map<Seq<char>, (u64, Option<BlockModel>)>;

    closed spec fn view(&self) -> Map<Seq<char>, (u64, Option<BlockModel>)> {
        entries_map(self.entries@)
    }
}

/// Every block the book keeps is kept under its own hash.
pub open spec fn blocks_under_own_hash(m: Map<Seq<char>, (u64, Option<BlockModel>)>) -> bool {
    forall|k: Seq<char>| #[trigger] m.dom().contains(k) ==> match m[k].1 {
        Some(b) => b.hash == k,
        None => true,
    }
}

/// The entry of hash `k`, or no requests and no block.
pub open spec fn entry_or_default(m: Map<Seq<char>, (u64, Option<BlockModel>)>, k: Seq<char>) -> (u64, Option<BlockModel>) {
    if m.dom().contains(k) {
        m[k]
    } else {
        (0, None)
    }
}

/// The book after a request for hash `k`: unchanged when its block has
/// come, otherwise with one more open request.
pub open spec fn book_after_request(m: Map<Seq<char>, (u64, Option<BlockModel>)>, k: Seq<char>) -> Map<Seq<char>, (u64, Option<BlockModel>)> {
    let (count, block) = entry_or_default(m, k);
    match block {
        Some(_) => m,
        None => m.insert(k, ((count + 1) as u64, None)),
    }
}

/// The book after block `b` came in: kept under its hash when a request
/// for it is open, ignored otherwise.
pub open spec fn book_after_response(m: Map<Seq<char>, (u64, Option<BlockModel>)>, b: BlockModel) -> Map<Seq<char>, (u64, Option<BlockModel>)> {
    let count: u64 = entry_or_default(m, b.hash).0;
    if count == 0 {
        m
    } else {
        m.insert(b.hash, (count, Some(b)))
    }
}

/// The book after a wait for hash `k` ended: when the block has come, or
/// on the last chance, one open request is closed and the entry goes once
/// no request is open; otherwise the wait only looked and the book is as
/// it was.
pub open spec fn book_after_get(m: Map<Seq<char>, (u64, Option<BlockModel>)>, k: Seq<char>, last_chance: bool) -> Map<Seq<char>, (u64, Option<BlockModel>)> {
    let (count, block) = entry_or_default(m, k);
    let new_count: u64 = if count < 1 {
        0
    } else {
        (count - 1) as u64
    };
    if block is None && !last_chance {
        m
    } else if new_count < 1 {
        m.remove(k)
    } else {
        m.insert(k, (new_count, block))
    }
}

/// A block that comes in answer to a request is what the wait for it hands
/// out, and the book then forgets it: starting from a book with no entry
/// for the block, a request, the response and the wait leave the book as it
/// was.
pub proof fn lemma_request_response_wait(
    m: Map<Seq<char>, (u64, Option<BlockModel>)>,
    b: BlockModel,
    last_chance: bool,
)
    requires
        !m.dom().contains(b.hash),
    ensures
        entry_or_default(book_after_response(book_after_request(m, b.hash), b), b.hash).1 == Some(b),
        book_after_get(book_after_response(book_after_request(m, b.hash), b), b.hash, last_chance) == m,
{
    let m2: Map<Seq<char>, (u64, Option<BlockModel>)> = book_after_response(book_after_request(m, b.hash), b);
    assert(m2 == m.insert(b.hash, (1u64, Some(b))));
    assert(book_after_get(m2, b.hash, last_chance) =~= m);
}

/// A request for a block that has already come is answered with it at once
/// and changes nothing.
pub proof fn lemma_request_after_response(m: Map<Seq<char>, (u64, Option<BlockModel>)>, b: BlockModel)
    requires
        entry_or_default(m, b.hash).0 > 0,
    ensures
        entry_or_default(book_after_response(m, b), b.hash).1 == Some(b),
        book_after_request(book_after_response(m, b), b.hash) == book_after_response(m, b),
{
}

impl SynchronizerResponses {
    #[verifier::type_invariant]
    spec fn unique(self) -> bool {
        &&& entry_keys_unique(self.entries@)
        &&& entry_blocks_keyed(self.entries@)
    }

    proof fn lemma_keyed(&self)
        requires
            entry_keys_unique(self.entries@),
            entry_blocks_keyed(self.entries@),
        ensures
            blocks_under_own_hash(self@),
    {
        assert forall|k: Seq<char>| #[trigger] self@.dom().contains(k) implies match self@[k].1 {
            Some(b) => b.hash == k,
            None => true,
        } by {
            let i: int = entry_index(self.entries@, k);
            assert(self.entries@[i].key@ == k);
        }
    }

    /// An empty book.
    pub fn new() -> (r: Self)
        ensures
            r@ == Map::<Seq<char>, (u64, Option<BlockModel>)>::empty(),
            blocks_under_own_hash(r@),
    {
        let r: SynchronizerResponses = SynchronizerResponses { entries: Vec::new() };
        assert(r@ =~= Map::<Seq<char>, (u64, Option<BlockModel>)>::empty());
        r
    }

    fn find(&self, key: &String) -> (r: Option<usize>)
        ensures
            r matches Some(i) ==> i < self.entries@.len() && self.entries@[i as int].key@ == key@
                && entry_index(self.entries@, key@) == i,
            r is None ==> !entry_has_key(self.entries@, key@),
    {
        proof {
            use_type_invariant(self);
        }
        let n: usize = self.entries.len();
        let mut i: usize = 0;
        while i < n
            invariant
                n == self.entries@.len(),
                entry_keys_unique(self.entries@),
                i <= n,
                forall|j: int| 0 <= j < i ==> (#[trigger] self.entries@[j]).key@ != key@,
            decreases n - i,
        {
            if self.entries[i].key == *key {
                proof {
                    lemma_entry_index(self.entries@, i as int);
                }
                return Some(i);
            }
            i = i + 1;
        }
        None
    }

    /// The open-request count and block recorded for a hash.
    pub fn lookup(&self, key: &String) -> (r: Option<(u64, Option<Block>)>)
        ensures
            match r {
                Some((c, b)) => self@.dom().contains(key@) && self@[key@] == (c, opt_block_model(b)),
                None => !self@.dom().contains(key@),
            },
            r matches Some((_, Some(b))) ==> b@.hash == key@,
            blocks_under_own_hash(self@),
    {
        proof {
            use_type_invariant(self);
            self.lemma_keyed();
        }
        match self.find(key) {
            Some(i) => {
                let b: Option<Block> = match &self.entries[i].block {
                    Some(b) => Some(b.clone()),
                    None => None,
                };
                Some((self.entries[i].count, b))
            },
            None => None,
        }
    }

    fn put(&mut self, key: String, count: u64, block: Option<Block>)
        requires
            block matches Some(b) ==> b@.hash == key@,
        ensures
            final(self)@ == old(self)@.insert(key@, (count, opt_block_model(block))),
    {
        proof {
            use_type_invariant(&*self);
        }
        let ghost e0: Seq<ResponseEntry> = self.entries@;
        let ghost k: Seq<char> = key@;
        let ghost v: (u64, Option<BlockModel>) = (count, opt_block_model(block));
        let found: Option<usize> = self.find(&key);
        let mut entries: Vec<ResponseEntry> = Vec::new();
        std::mem::swap(&mut entries, &mut self.entries);
        match found {
            Some(i) => {
                entries.set(i, ResponseEntry { key, count, block });
                proof {
                    let e1: Seq<ResponseEntry> = entries@;
                    assert(entry_keys_unique(e1)) by {
                        assert forall|p: int, q: int| 0 <= p < e1.len() && 0 <= q < e1.len() && p != q implies (#[trigger] e1[p]).key@
                            != (#[trigger] e1[q]).key@ by {
                            assert(e1[p].key@ == e0[p].key@);
                            assert(e1[q].key@ == e0[q].key@);
                            assert(e0[p].key@ != e0[q].key@);
                        }
                    }
                    assert(entry_blocks_keyed(e1)) by {
                        assert forall|p: int| 0 <= p < e1.len() implies match (#[trigger] e1[p]).block {
                            Some(b) => b.hash@ == e1[p].key@,
                            None => true,
                        } by {
                            if p != i {
                                assert(e1[p] == e0[p]);
                            }
                        }
                    }
                    lemma_entry_index(e1, i as int);
                    assert(entries_map(e1) =~= entries_map(e0).insert(k, v)) by {
                        assert forall|x: Seq<char>| entry_has_key(e1, x) == entry_has_key(e0, x) by {
                            if entry_has_key(e1, x) {
                                let j: int = choose|j: int| 0 <= j < e1.len() && (#[trigger] e1[j]).key@ == x;
                                assert(e0[j].key@ == x);
                            }
                            if entry_has_key(e0, x) {
                                let j: int = choose|j: int| 0 <= j < e0.len() && (#[trigger] e0[j]).key@ == x;
                                assert(e1[j].key@ == x);
                            }
                        }
                        assert forall|x: Seq<char>| #[trigger] entries_map(e1).dom().contains(x) && x != k implies entries_map(e1)[x] == entries_map(e0)[x] by {
                            let j: int = entry_index(e1, x);
                            assert(j != i);
                            assert(e0[j].key@ == x);
                            lemma_entry_index(e0, j);
                        }
                    }
                }
            },
            None => {
                entries.push(ResponseEntry { key, count, block });
                proof {
                    let e1: Seq<ResponseEntry> = entries@;
                    let n: int = e0.len() as int;
                    assert(entry_keys_unique(e1)) by {
                        assert forall|p: int, q: int| 0 <= p < e1.len() && 0 <= q < e1.len() && p != q implies (#[trigger] e1[p]).key@
                            != (#[trigger] e1[q]).key@ by {
                            if p < n && q < n {
                                assert(e1[p] == e0[p] && e1[q] == e0[q]);
                            } else if p < n {
                                assert(e1[p] == e0[p]);
                            } else {
                                assert(e1[q] == e0[q]);
                            }
                        }
                    }
                    assert(entry_blocks_keyed(e1)) by {
                        assert forall|p: int| 0 <= p < e1.len() implies match (#[trigger] e1[p]).block {
                            Some(b) => b.hash@ == e1[p].key@,
                            None => true,
                        } by {
                            if p < n {
                                assert(e1[p] == e0[p]);
                            }
                        }
                    }
                    lemma_entry_index(e1, n);
                    assert(entries_map(e1) =~= entries_map(e0).insert(k, v)) by {
                        assert forall|x: Seq<char>| #[trigger] entry_has_key(e0, x) implies entry_has_key(e1, x) by {
                            let j: int = choose|j: int| 0 <= j < e0.len() && (#[trigger] e0[j]).key@ == x;
                            assert(e1[j].key@ == x);
                        }
                        assert forall|x: Seq<char>| #[trigger] entries_map(e1).dom().contains(x) && x != k implies entry_has_key(e0, x) && entries_map(e1)[x] == entries_map(e0)[x] by {
                            let j: int = entry_index(e1, x);
                            assert(j < n);
                            assert(e0[j].key@ == x);
                            lemma_entry_index(e0, j);
                        }
                    }
                }
            },
        }
        self.entries = entries;
    }

    fn erase(&mut self, key: &String)
        ensures
            final(self)@ == old(self)@.remove(key@),
    {
        proof {
            use_type_invariant(&*self);
        }
        let ghost e0: Seq<ResponseEntry> = self.entries@;
        match self.find(key) {
            Some(i) => {
                let mut entries: Vec<ResponseEntry> = Vec::new();
                std::mem::swap(&mut entries, &mut self.entries);
                let _gone: ResponseEntry = entries.remove(i);
                proof {
                    let e1: Seq<ResponseEntry> = entries@;
                    assert(e1 =~= e0.remove(i as int));
                    assert(entry_blocks_keyed(e1)) by {
                        assert forall|p: int| 0 <= p < e1.len() implies match (#[trigger] e1[p]).block {
                            Some(b) => b.hash@ == e1[p].key@,
                            None => true,
                        } by {
                            let p1: int = if p < i { p } else { p + 1 };
                            assert(e1[p] == e0[p1]);
                        }
                    }
                    assert(entry_keys_unique(e1)) by {
                        assert forall|p: int, q: int| 0 <= p < e1.len() && 0 <= q < e1.len() && p != q implies (#[trigger] e1[p]).key@
                            != (#[trigger] e1[q]).key@ by {
                            let p1: int = if p < i { p } else { p + 1 };
                            let q1: int = if q < i { q } else { q + 1 };
                            assert(e1[p] == e0[p1]);
                            assert(e1[q] == e0[q1]);
                        }
                    }
                    assert(entries_map(e1) =~= entries_map(e0).remove(key@)) by {
                        assert forall|x: Seq<char>| entry_has_key(e1, x) <==> (entry_has_key(e0, x) && x != key@) by {
                            if entry_has_key(e1, x) {
                                let j: int = choose|j: int| 0 <= j < e1.len() && (#[trigger] e1[j]).key@ == x;
                                let j1: int = if j < i { j } else { j + 1 };
                                assert(e0[j1].key@ == x);
                                assert(j1 != i);
                            }
                            if entry_has_key(e0, x) && x != key@ {
                                let j: int = choose|j: int| 0 <= j < e0.len() && (#[trigger] e0[j]).key@ == x;
                                assert(j != i);
                                let j1: int = if j < i { j } else { j - 1 };
                                assert(e1[j1].key@ == x);
                            }
                        }
                        assert forall|x: Seq<char>| #[trigger] entries_map(e1).dom().contains(x) implies entries_map(e1)[x] == entries_map(e0)[x] by {
                            let j: int = entry_index(e1, x);
                            let j1: int = if j < i { j } else { j + 1 };
                            assert(e1[j] == e0[j1]);
                            lemma_entry_index(e0, j1);
                        }
                    }
                }
                self.entries = entries;
            },
            None => {
                assert(self@.remove(key@) =~= self@);
            },
        }
    }

    /// Records a request for `block_hash`: when its block has come it is
    /// returned and nothing changes; otherwise the open-request count goes
    /// up by one.
    pub fn add_synchronizer_request(&mut self, block_hash: String) -> (r: Option<Block>)
        requires
            entry_or_default(old(self)@, block_hash@).1 is None ==> entry_or_default(
                old(self)@,
                block_hash@,
            ).0 < u64::MAX,
        ensures
            opt_block_model(r) == entry_or_default(old(self)@, block_hash@).1,
            r matches Some(b) ==> b@.hash == block_hash@,
            final(self)@ == book_after_request(old(self)@, block_hash@),
            blocks_under_own_hash(final(self)@),
    {
        let (count, block) = match self.lookup(&block_hash) {
            Some((c, b)) => (c, b),
            None => (0u64, None),
        };
        match block {
            Some(b) => Some(b),
            None => {
                self.put(block_hash, count + 1, None);
                None
            },
        }
    }

    /// Records a block that came in answer to some request: kept when a
    /// request for its hash is open (with the count unchanged), ignored
    /// otherwise.
    pub fn add_synchronizer_response(&mut self, block: Block)
        ensures
            final(self)@ == book_after_response(old(self)@, block@),
            blocks_under_own_hash(final(self)@),
    {
        let count: u64 = match self.lookup(&block.hash) {
            Some((c, _)) => c,
            None => 0,
        };
        if count == 0 {
            return;
        }
        let key: String = block.hash.clone();
        self.put(key, count, Some(block));
    }

    /// Answers a waiting request for `block_hash`: the block is returned if
    /// it has come. Then, or on the last chance, one open request is closed
    /// and the entry is dropped once no request is open; otherwise the book
    /// is only looked at.
    pub fn get_synchronizer_response(&mut self, block_hash: String, last_chance: bool) -> (r: Option<Block>)
        ensures
            opt_block_model(r) == entry_or_default(old(self)@, block_hash@).1,
            r matches Some(b) ==> b@.hash == block_hash@,
            final(self)@ == book_after_get(old(self)@, block_hash@, last_chance),
            blocks_under_own_hash(final(self)@),
    {
        let (count, block) = match self.lookup(&block_hash) {
            Some((c, b)) => (c, b),
            None => (0u64, None),
        };
        if block.is_none() && !last_chance {
            proof {
                use_type_invariant(&*self);
                self.lemma_keyed();
            }
            return None;
        }
        let new_count: u64 = if count < 1 {
            0
        } else {
            count - 1
        };
        let res: Option<Block> = match &block {
            Some(b) => Some(b.clone()),
            None => None,
        };
        if new_count < 1 {
            self.erase(&block_hash);
        } else {
            self.put(block_hash.clone(), new_count, block);
        }
        proof {
            use_type_invariant(&*self);
            self.lemma_keyed();
        }
        res
    }

    /// One round of waiting for the block of `block_hash`, given what the
    /// round received: that block is handed out at once; another block is
    /// recorded as a response; then the book is asked for the block as in
    /// [`SynchronizerResponses::get_synchronizer_response`] (not on the
    /// last chance).
    pub fn handle_response(&mut self, block_hash: &String, received: Option<Block>) -> (r: Option<Block>)
        ensures
            match received {
                Some(b) => if b@.hash == block_hash@ {
                    opt_block_model(r) == Some(b@) && final(self)@ == old(self)@
                } else {
                    opt_block_model(r) == entry_or_default(book_after_response(old(self)@, b@), block_hash@).1
                        && final(self)@ == book_after_get(book_after_response(old(self)@, b@), block_hash@, false)
                },
                None => opt_block_model(r) == entry_or_default(old(self)@, block_hash@).1
                    && final(self)@ == book_after_get(old(self)@, block_hash@, false),
            },
            r matches Some(b) ==> b@.hash == block_hash@,
            blocks_under_own_hash(final(self)@),
    {
        proof {
            use_type_invariant(&*self);
            self.lemma_keyed();
        }
        match received {
            Some(b) => {
                if b.hash == *block_hash {
                    return Some(b);
                }
                self.add_synchronizer_response(b);
            },
            None => {},
        }
        self.get_synchronizer_response(block_hash.clone(), false)
    }
}

/// The transactions of a block that no block of the chain's query window
/// from `slot_lower_bound` holds.
pub open spec fn fresh_transactions(c: ChainModel, txns: Seq<TransactionModel>, slot_lower_bound: u64) -> Set<TransactionModel> {
    txns.to_set().filter(|t: TransactionModel| !chain_has_transaction(c, t, slot_lower_bound))
}

impl Blockchain {
    /// The blocks to mine from a proposal: the proposal without the
    /// transactions the chain already holds (judged against the query
    /// window from `slot_lower_bound`), once for each leaf, with that leaf
    /// as its parent. The hashes are not recomputed; mining does that.
    pub fn mining_candidates(&self, proposal: &Block, slot_lower_bound: u64) -> (r: Vec<Block>)
        requires
            self.wf(),
        ensures
            r@.len() == self@.leaves.len(),
            forall|l: Seq<char>| #[trigger] self@.leaves.contains(l) ==> exists|i: int| 0 <= i < r@.len() && r@[i]@.previous_hash == l,
            forall|i: int| 0 <= i < r@.len() ==> {
                &&& self@.leaves.contains(#[trigger] r@[i]@.previous_hash)
                &&& r@[i]@.transactions.to_set() == fresh_transactions(self@, proposal@.transactions, slot_lower_bound)
                &&& is_strictly_sorted(r@[i]@.transactions)
                &&& r@[i]@ == (BlockModel {
                    transactions: r@[i]@.transactions,
                    previous_hash: r@[i]@.previous_hash,
                    ..proposal@
                })
            },
    {
        let mut block: Block = proposal.clone();
        let n: usize = proposal.transactions.len();
        let ghost proposed: Seq<TransactionModel> = proposal@.transactions;
        let mut i: usize = 0;
        while i < n
            invariant
                self.wf(),
                n == proposed.len(),
                proposed == proposal@.transactions,
                i <= n,
                block@ == (BlockModel { transactions: block@.transactions, ..proposal@ }),
                is_strictly_sorted(block@.transactions),
                block@.transactions.to_set() == proposed.to_set().filter(|t: TransactionModel| !(proposed.take(i as int).contains(t) && chain_has_transaction(self@, t, slot_lower_bound))),
            decreases n - i,
        {
            let t: &super::block::Transaction = proposal.transactions.get(i);
            if self.has_transaction_since(t, slot_lower_bound) {
                block.drop_transaction(t);
            }
            proof {
                let after_pred = |x: TransactionModel| !(proposed.take(i + 1).contains(x) && chain_has_transaction(self@, x, slot_lower_bound));
                assert(proposed.take(i + 1) =~= proposed.take(i as int).push(proposed[i as int]));
                let p1: Seq<TransactionModel> = proposed.take(i + 1);
                let p0: Seq<TransactionModel> = proposed.take(i as int);
                assert forall|x: TransactionModel| p1.contains(x) <==> (p0.contains(x) || x == proposed[i as int]) by {
                    if p1.contains(x) {
                        let k: int = choose|k: int| 0 <= k < p1.len() && #[trigger] p1[k] == x;
                        if k < i {
                            assert(p0[k] == x);
                        }
                    }
                    if p0.contains(x) {
                        let k: int = choose|k: int| 0 <= k < p0.len() && #[trigger] p0[k] == x;
                        assert(p1[k] == x);
                    }
                    if x == proposed[i as int] {
                        assert(p1[i as int] == x);
                    }
                }
                assert(block@.transactions.to_set() =~= proposed.to_set().filter(after_pred));
            }
            i = i + 1;
        }
        proof {
            assert(proposed.take(n as int) =~= proposed);
            assert(block@.transactions.to_set() =~= fresh_transactions(self@, proposed, slot_lower_bound)) by {
                assert forall|x: TransactionModel| proposed.to_set().contains(x) implies proposed.take(n as int).contains(x) by {}
            }
        }
        let leaves: Vec<String> = match self.get_leaf_hashes() {
            Ok(s) => s.to_vec(),
            Err(_) => Vec::new(),
        };
        let ghost lv: Seq<Seq<char>> = string_views(leaves@);
        let mut out: Vec<Block> = Vec::new();
        let m: usize = leaves.len();
        let mut k: usize = 0;
        while k < m
            invariant
                m == leaves@.len(),
                lv == string_views(leaves@),
                lv.to_set() == self@.leaves,
                k <= m,
                out@.len() == k,
                block@ == (BlockModel { transactions: block@.transactions, ..proposal@ }),
                is_strictly_sorted(block@.transactions),
                block@.transactions.to_set() == fresh_transactions(self@, proposal@.transactions, slot_lower_bound),
                forall|j: int| 0 <= j < k ==> (#[trigger] out@[j])@ == (BlockModel { previous_hash: lv[j], ..block@ }),
            decreases m - k,
        {
            let mut candidate: Block = block.clone();
            candidate.previous_hash = leaves[k].clone();
            out.push(candidate);
            k = k + 1;
        }
        proof {
            lv.unique_seq_to_set();
            assert forall|l: Seq<char>| #[trigger] self@.leaves.contains(l) implies exists|i: int| 0 <= i < out@.len() && out@[i]@.previous_hash == l by {
                let j: int = choose|j: int| 0 <= j < lv.len() && lv[j] == l;
                assert(out@[j]@.previous_hash == l);
            }
            assert forall|i: int| 0 <= i < out@.len() implies self@.leaves.contains(#[trigger] out@[i]@.previous_hash) by {
                assert(lv.to_set().contains(lv[i]));
            }
        }
        out
    }

    /// Takes in a mined block: it is added, and added once more when its
    /// parent is `tip_hash` and the first addition did not hold it (which
    /// changes nothing, as the tree is the same).
    pub fn accept_mined_block(&mut self, block: Block, tip_hash: &String) -> (r: Result<(), String>)
        requires
            old(self).wf(),
        ensures
            r is Ok,
            final(self).wf(),
            final(self).metadata_spec() == old(self).metadata_spec(),
            final(self)@ == add_block_model(old(self)@, block@),
    {
        let ghost start: ChainModel = self@;
        let again: Block = block.clone();
        match self.add_block(block) {
            Ok(()) => {},
            Err(e) => {
                return Err(e);
            },
        }
        let held: bool = match self.has_block(again.hash.clone()) {
            Ok(b) => b,
            Err(e) => {
                return Err(e);
            },
        };
        if again.previous_hash == *tip_hash && !held {
            proof {
                assert(add_block_model(start, again@) == start);
            }
            match self.add_block(again) {
                Ok(()) => {},
                Err(e) => {
                    return Err(e);
                },
            }
        }
        Ok(())
    }
}

/// The proposal a miner takes up: the least of the blocks it received, in
/// the order of blocks, or the genesis block when none came.
pub fn select_proposed_block(blocks: &Vec<Block>, slot_secs: u64) -> (r: Block)
    requires
        slot_secs > 0,
    ensures
        blocks@.len() == 0 ==> r@ == genesis_block_model(),
        blocks@.len() > 0 ==> exists|i: int| 0 <= i < blocks@.len() && r@ == #[trigger] blocks@[i]@,
        forall|j: int| 0 <= j < blocks@.len() ==> compare_block(r@, #[trigger] blocks@[j]@) <= 0,
{
    let n: usize = blocks.len();
    if n == 0 {
        return Block::genesis(slot_secs);
    }
    let mut best: usize = 0;
    let mut i: usize = 1;
    proof {
        lemma_block_basic(blocks@[0]@, blocks@[0]@);
    }
    while i < n
        invariant
            n == blocks@.len(),
            1 <= i <= n,
            best < i,
            forall|j: int| 0 <= j < i ==> compare_block(blocks@[best as int]@, #[trigger] blocks@[j]@) <= 0,
        decreases n - i,
    {
        let c: i8 = blocks[i].compare(&blocks[best]);
        proof {
            lemma_block_basic(blocks@[i as int]@, blocks@[best as int]@);
        }
        if c < 0 {
            proof {
                assert forall|j: int| 0 <= j < i + 1 implies compare_block(blocks@[i as int]@, #[trigger] blocks@[j]@) <= 0 by {
                    if j < i {
                        lemma_block_basic(blocks@[best as int]@, blocks@[j]@);
                        if compare_block(blocks@[best as int]@, blocks@[j]@) < 0 {
                            lemma_block_trans(blocks@[i as int]@, blocks@[best as int]@, blocks@[j]@);
                        }
                    } else {
                        lemma_block_basic(blocks@[i as int]@, blocks@[i as int]@);
                    }
                }
            }
            best = i;
        }
        i = i + 1;
    }
    blocks[best].clone()
}

/// The transaction a step of building a block took from the pool: `t`
/// when the step reports a transaction taken, nothing otherwise.
pub open spec fn taken_into_block(r: Result<bool, String>, t: TransactionModel) -> Option<TransactionModel> {
    if r == Ok::<bool, String>(true) {
        Some(t)
    } else {
        None
    }
}

/// One step of building a block from the pool: the pool's next
/// deliverable transaction, if any, goes into the block. Returns whether one
/// was taken; when none was, a proposer waits before the next step.
pub fn take_next_transaction(block: &mut Block, mempool: &mut Mempool) -> (r: Result<bool, String>)
    requires
        old(mempool).chain_ready(),
    ensures
        final(mempool).blockchain == old(mempool).blockchain,
        old(mempool).queue@.len() == 0 ==> r == Ok::<bool, String>(false) && final(mempool).queue@
            == old(mempool).queue@ && final(mempool).in_flight@ == old(mempool).in_flight@,
        old(mempool).queue@.len() > 0 ==> txn_models(final(mempool).queue@) == txn_models(
            old(mempool).queue@,
        ).drop_first(),
        r == Ok::<bool, String>(true) ==> {
            &&& old(mempool).queue@.len() > 0
            &&& final(mempool).in_flight@.to_set() == old(mempool).in_flight@.to_set().insert(
                old(mempool).queue@[0]@,
            )
            &&& final(block)@.transactions.to_set() == old(block)@.transactions.to_set().insert(
                old(mempool).queue@[0]@,
            )
            &&& final(block)@ == (BlockModel { transactions: final(block)@.transactions, ..old(block)@ })
            &&& is_strictly_sorted(final(block)@.transactions)
        },
        old(mempool).queue@.len() > 0 ==> exists|now: u64|
            #[trigger] pop_outcome_at(
                old(mempool).in_flight@,
                final(mempool).in_flight@,
                old(mempool).blockchain@,
                old(mempool).blockchain.metadata_spec(),
                old(mempool).queue@[0]@,
                now,
                r is Err,
                taken_into_block(r, old(mempool).queue@[0]@),
            ),
        old(mempool).queue@.len() > 0 && old(mempool).in_flight@.contains(old(mempool).queue@[0]@) ==> r
            == Ok::<bool, String>(false) && final(mempool).in_flight@ == old(mempool).in_flight@,
        old(mempool).blockchain.metadata_spec().query_slots * old(mempool).blockchain.metadata_spec().slot_secs
            == 0 ==> r is Ok,
        final(mempool).blockchain_metadata == old(mempool).blockchain_metadata,
        r != Ok::<bool, String>(true) ==> final(block)@ == old(block)@,
        final(block)@.transactions.len() <= old(block)@.transactions.len() + 1,
{
    let popped: Result<Option<Transaction>, String> = mempool.pop_transaction();
    let ghost taken: Option<TransactionModel> = super::mempool::handed_out(popped);
    let r: Result<bool, String> = match popped {
        Ok(Some(t)) => {
            block.add_transaction(t);
            Ok(true)
        },
        Ok(None) => Ok(false),
        Err(e) => Err(e),
    };
    proof {
        if old(mempool).queue@.len() > 0 {
            let now: u64 = choose|now: u64|
                #[trigger] pop_outcome_at(
                    old(mempool).in_flight@,
                    mempool.in_flight@,
                    old(mempool).blockchain@,
                    old(mempool).blockchain.metadata_spec(),
                    old(mempool).queue@[0]@,
                    now,
                    popped is Err,
                    taken,
                );
            assert(pop_outcome_at(
                old(mempool).in_flight@,
                mempool.in_flight@,
                old(mempool).blockchain@,
                old(mempool).blockchain.metadata_spec(),
                old(mempool).queue@[0]@,
                now,
                r is Err,
                taken_into_block(r, old(mempool).queue@[0]@),
            ));
        }
    }
    r
}

/// What a proposer does after a step of building a block.
#[derive(Debug, PartialEq, Eq)]
pub enum ProposeAction {
    /// A transaction went into the block.
    Took,
    /// The pool had nothing to deliver; wait before the next step.
    Wait,
    /// The block has had all its steps.
    Done,
}

/// Whether a step of building a block took a transaction, in the form
/// [`take_next_transaction`] reports it.
pub open spec fn step_took(r: Result<ProposeAction, String>) -> Result<bool, String> {
    match r {
        Ok(ProposeAction::Took) => Ok(true),
        Ok(_) => Ok(false),
        Err(e) => Err(e),
    }
}

/// Step number `step` of building a block of at most `block_size`
/// transactions: once `block_size` steps are done the block is done and
/// nothing changes; otherwise the pool's next deliverable transaction, if
/// any, goes into the block (see [`take_next_transaction`]). A block that
/// holds no more transactions than steps done stays within `block_size`.
pub fn propose_step(block: &mut Block, mempool: &mut Mempool, step: u64, block_size: u64) -> (r: Result<ProposeAction, String>)
    requires
        old(mempool).chain_ready(),
    ensures
        (r matches Ok(ProposeAction::Done)) <==> step >= block_size,
        step >= block_size ==> final(block)@ == old(block)@ && final(mempool).queue@ == old(mempool).queue@
            && final(mempool).in_flight@ == old(mempool).in_flight@,
        final(mempool).blockchain == old(mempool).blockchain,
        step < block_size && old(mempool).queue@.len() == 0 ==> (r matches Ok(ProposeAction::Wait))
            && final(mempool).queue@ == old(mempool).queue@ && final(mempool).in_flight@ == old(
            mempool,
        ).in_flight@,
        step < block_size && old(mempool).queue@.len() > 0 ==> txn_models(final(mempool).queue@)
            == txn_models(old(mempool).queue@).drop_first(),
        r matches Ok(ProposeAction::Took) ==> {
            &&& old(mempool).queue@.len() > 0
            &&& final(mempool).in_flight@.to_set() == old(mempool).in_flight@.to_set().insert(
                old(mempool).queue@[0]@,
            )
            &&& final(block)@.transactions.to_set() == old(block)@.transactions.to_set().insert(
                old(mempool).queue@[0]@,
            )
            &&& final(block)@ == (BlockModel { transactions: final(block)@.transactions, ..old(block)@ })
        },
        step < block_size && old(mempool).queue@.len() > 0 ==> exists|now: u64|
            #[trigger] pop_outcome_at(
                old(mempool).in_flight@,
                final(mempool).in_flight@,
                old(mempool).blockchain@,
                old(mempool).blockchain.metadata_spec(),
                old(mempool).queue@[0]@,
                now,
                r is Err,
                taken_into_block(step_took(r), old(mempool).queue@[0]@),
            ),
        step < block_size && old(mempool).queue@.len() > 0 && old(mempool).in_flight@.contains(
            old(mempool).queue@[0]@,
        ) ==> (r matches Ok(ProposeAction::Wait)) && final(mempool).in_flight@ == old(mempool).in_flight@,
        old(mempool).blockchain.metadata_spec().query_slots * old(mempool).blockchain.metadata_spec().slot_secs
            == 0 ==> r is Ok,
        final(mempool).blockchain_metadata == old(mempool).blockchain_metadata,
        !(r matches Ok(ProposeAction::Took)) ==> final(block)@ == old(block)@,
        final(block)@.transactions.len() <= old(block)@.transactions.len() + 1,
        old(block)@.transactions.len() <= step && step <= block_size ==> final(block)@.transactions.len()
            <= block_size,
{
    if step >= block_size {
        return Ok(ProposeAction::Done);
    }
    let taken: Result<bool, String> = take_next_transaction(block, mempool);
    let r: Result<ProposeAction, String> = match taken {
        Ok(true) => Ok(ProposeAction::Took),
        Ok(false) => Ok(ProposeAction::Wait),
        Err(e) => Err(e),
    };
    proof {
        assert(step_took(r) == taken);
        if old(mempool).queue@.len() > 0 {
            let now: u64 = choose|now: u64|
                #[trigger] pop_outcome_at(
                    old(mempool).in_flight@,
                    mempool.in_flight@,
                    old(mempool).blockchain@,
                    old(mempool).blockchain.metadata_spec(),
                    old(mempool).queue@[0]@,
                    now,
                    taken is Err,
                    taken_into_block(taken, old(mempool).queue@[0]@),
                );
            assert(pop_outcome_at(
                old(mempool).in_flight@,
                mempool.in_flight@,
                old(mempool).blockchain@,
                old(mempool).blockchain.metadata_spec(),
                old(mempool).queue@[0]@,
                now,
                r is Err,
                taken_into_block(step_took(r), old(mempool).queue@[0]@),
            ));
        }
    }
    r
}

/// Whether fork resolution is due at second `now`, the last resolution
/// having run at second `last`: once `fork_resolution_secs` have passed.
pub fn fork_resolution_due(now: u64, last: u64, fork_resolution_secs: u64) -> (r: bool)
    ensures
        r == (now >= last + fork_resolution_secs),
{
    match last.checked_add(fork_resolution_secs) {
        Some(due) => now >= due,
        None => false,
    }
}

} // verus!
