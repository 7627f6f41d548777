//! The block tree of one node: every block it holds, the children of each,
//! the leaves (tips of forks), and the blocks of each slot.
use vstd::prelude::*;
use std::sync::Arc;
use super::block::{Block, BlockModel, Transaction, TransactionModel, genesis_block_model};
use super::strset::string_views;
use super::metadata::{BlockchainMetadata, window_start, window_underflows};
use super::strset::StringSet;
pub use super::edit::levenshtein_distance_vec;

verus! {

/// The abstract value of a [`Blockchain`]: blocks by hash, children by
/// parent hash, the leaf hashes, and block hashes by slot number.
pub struct ChainModel {
    pub blocks: Map<Seq<char>, BlockModel>,
    pub children: Map<Seq<char>, Set<Seq<char>>>,
    pub leaves: Set<Seq<char>>,
    pub slots: Map<u64, Set<Seq<char>>>,
}

/// The empty tree.
pub open spec fn empty_chain() -> ChainModel {
    ChainModel {
        blocks: Map::empty(),
        children: Map::empty(),
        leaves: Set::empty(),
        slots: Map::empty(),
    }
}

/// Adding a block. It is taken when its parent is held or when no block is
/// held at all; it then replaces any block of the same hash (with no
/// children), joins its slot, becomes a child of its parent, and replaces
/// its parent among the leaves. Otherwise (an orphan) nothing changes.
pub open spec fn add_block_model(c: ChainModel, b: BlockModel) -> ChainModel {
    if c.blocks.dom().contains(b.previous_hash) || c.blocks.dom() == Set::<Seq<char>>::empty() {
        let blocks: Map<Seq<char>, BlockModel> = c.blocks.insert(b.hash, b);
        let children0: Map<Seq<char>, Set<Seq<char>>> = c.children.insert(b.hash, Set::empty());
        let children: Map<Seq<char>, Set<Seq<char>>> = if children0.dom().contains(b.previous_hash) {
            children0.insert(b.previous_hash, children0[b.previous_hash].insert(b.hash))
        } else {
            children0
        };
        let slot: Set<Seq<char>> = if c.slots.dom().contains(b.slot_number) {
            c.slots[b.slot_number]
        } else {
            Set::empty()
        };
        ChainModel {
            blocks,
            children,
            leaves: c.leaves.remove(b.previous_hash).insert(b.hash),
            slots: c.slots.insert(b.slot_number, slot.insert(b.hash)),
        }
    } else {
        c
    }
}

/// A block tree.
#[derive(Debug)]
pub struct Blockchain {
    blocks: Vec<Block>,
    children: Vec<StringSet>,
    leaves: StringSet,
    slot_numbers: Vec<u64>,
    slot_hashes: Vec<StringSet>,
    metadata: Arc<BlockchainMetadata>,
}

pub open spec fn has_hash(b: Seq<Block>, h: Seq<char>) -> bool {
    exists|i: int| 0 <= i < b.len() && (#[trigger] b[i]).hash@ == h
}

pub open spec fn hash_index(b: Seq<Block>, h: Seq<char>) -> int {
    choose|i: int| 0 <= i < b.len() && (#[trigger] b[i]).hash@ == h
}

pub open spec fn hashes_unique(b: Seq<Block>) -> bool {
    forall|i: int, j: int| 0 <= i < b.len() && 0 <= j < b.len() && i != j ==> (#[trigger] b[i]).hash@
        != (#[trigger] b[j]).hash@
}

pub open spec fn has_slot(s: Seq<u64>, n: u64) -> bool {
    exists|i: int| 0 <= i < s.len() && s[i] == n
}

pub open spec fn slot_index(s: Seq<u64>, n: u64) -> int {
    choose|i: int| 0 <= i < s.len() && s[i] == n
}

pub open spec fn slots_unique(s: Seq<u64>) -> bool {
    forall|i: int, j: int| 0 <= i < s.len() && 0 <= j < s.len() && i != j ==> s[i] != s[j]
}

pub open spec fn set_views(s: Seq<StringSet>) -> Seq<Set<Seq<char>>> {
    Seq::new(s.len(), |i: int| s[i]@)
}

pub open spec fn blocks_map(b: Seq<Block>) -> Map<Seq<char>, BlockModel> {
    Map::new(|h: Seq<char>| has_hash(b, h), |h: Seq<char>| b[hash_index(b, h)]@)
}

pub open spec fn children_map(b: Seq<Block>, c: Seq<Set<Seq<char>>>) -> Map<Seq<char>, Set<Seq<char>>> {
    Map::new(|h: Seq<char>| has_hash(b, h), |h: Seq<char>| c[hash_index(b, h)])
}

pub open spec fn slots_map(s: Seq<u64>, h: Seq<Set<Seq<char>>>) -> Map<u64, Set<Seq<char>>> {
    Map::new(|n: u64| has_slot(s, n), |n: u64| h[slot_index(s, n)])
}

/// With distinct hashes, the entry of a hash is found at its position.
pub proof fn lemma_hash_index(b: Seq<Block>, i: int)
    requires
        hashes_unique(b),
        0 <= i < b.len(),
    ensures
        has_hash(b, b[i].hash@),
        hash_index(b, b[i].hash@) == i,
{
    assert(has_hash(b, b[i].hash@));
    let j: int = hash_index(b, b[i].hash@);
    assert(b[j].hash@ == b[i].hash@);
}

/// With distinct slot numbers, the entry of a slot is found at its
/// position.
pub proof fn lemma_slot_index(s: Seq<u64>, i: int)
    requires
        slots_unique(s),
        0 <= i < s.len(),
    ensures
        has_slot(s, s[i]),
        slot_index(s, s[i]) == i,
{
    assert(has_slot(s, s[i]));
}

/// Replacing the block at a position by one with the same hash.
pub proof fn lemma_maps_update(
    b: Seq<Block>,
    c: Seq<Set<Seq<char>>>,
    i: int,
    blk: Block,
    x: Set<Seq<char>>,
)
    requires
        hashes_unique(b),
        b.len() == c.len(),
        0 <= i < b.len(),
        blk.hash@ == b[i].hash@,
    ensures
        hashes_unique(b.update(i, blk)),
        blocks_map(b.update(i, blk)) == blocks_map(b).insert(blk.hash@, blk@),
        children_map(b.update(i, blk), c.update(i, x)) == children_map(b, c).insert(blk.hash@, x),
{
    let b2: Seq<Block> = b.update(i, blk);
    let c2: Seq<Set<Seq<char>>> = c.update(i, x);
    assert(hashes_unique(b2)) by {
        assert forall|p: int, q: int| 0 <= p < b2.len() && 0 <= q < b2.len() && p != q implies (#[trigger] b2[p]).hash@
            != (#[trigger] b2[q]).hash@ by {
            assert(b2[p].hash@ == b[p].hash@);
            assert(b2[q].hash@ == b[q].hash@);
            assert(b[p].hash@ != b[q].hash@);
        }
    }
    assert forall|h: Seq<char>| has_hash(b2, h) == has_hash(b, h) by {
        if has_hash(b2, h) {
            let j: int = choose|j: int| 0 <= j < b2.len() && (#[trigger] b2[j]).hash@ == h;
            assert(b[j].hash@ == h);
        }
        if has_hash(b, h) {
            let j: int = choose|j: int| 0 <= j < b.len() && (#[trigger] b[j]).hash@ == h;
            assert(b2[j].hash@ == h);
        }
    }
    assert forall|h: Seq<char>| has_hash(b2, h) implies hash_index(b2, h) == hash_index(b, h) by {
        let j: int = hash_index(b2, h);
        assert(b[j].hash@ == h);
        lemma_hash_index(b, j);
    }
    assert(blocks_map(b2) =~= blocks_map(b).insert(blk.hash@, blk@)) by {
        lemma_hash_index(b2, i);
        assert forall|h: Seq<char>| #[trigger] blocks_map(b2).dom().contains(h) implies blocks_map(b2)[h]
            == blocks_map(b).insert(blk.hash@, blk@)[h] by {
            let j: int = hash_index(b2, h);
            if h != blk.hash@ {
                assert(j != i);
            }
        }
    }
    assert(children_map(b2, c2) =~= children_map(b, c).insert(blk.hash@, x)) by {
        lemma_hash_index(b2, i);
        assert forall|h: Seq<char>| #[trigger] children_map(b2, c2).dom().contains(h) implies children_map(
            b2,
            c2,
        )[h] == children_map(b, c).insert(blk.hash@, x)[h] by {
            let j: int = hash_index(b2, h);
            if h != blk.hash@ {
                assert(j != i);
            }
        }
    }
}

/// Appending a block with a new hash.
pub proof fn lemma_maps_push(b: Seq<Block>, c: Seq<Set<Seq<char>>>, blk: Block, x: Set<Seq<char>>)
    requires
        hashes_unique(b),
        b.len() == c.len(),
        !has_hash(b, blk.hash@),
    ensures
        hashes_unique(b.push(blk)),
        blocks_map(b.push(blk)) == blocks_map(b).insert(blk.hash@, blk@),
        children_map(b.push(blk), c.push(x)) == children_map(b, c).insert(blk.hash@, x),
        forall|h: Seq<char>| has_hash(b, h) ==> #[trigger] has_hash(b.push(blk), h),
{
    let b2: Seq<Block> = b.push(blk);
    let c2: Seq<Set<Seq<char>>> = c.push(x);
    let n: int = b.len() as int;
    assert(hashes_unique(b2)) by {
        assert forall|p: int, q: int| 0 <= p < b2.len() && 0 <= q < b2.len() && p != q implies (#[trigger] b2[p]).hash@
            != (#[trigger] b2[q]).hash@ by {
            if p < n && q < n {
                assert(b2[p] == b[p] && b2[q] == b[q]);
            } else if p < n {
                assert(b2[p] == b[p]);
                assert(b2[q] == blk);
            } else {
                assert(b2[q] == b[q]);
                assert(b2[p] == blk);
            }
        }
    }
    assert forall|h: Seq<char>| has_hash(b, h) implies #[trigger] has_hash(b2, h) by {
        let j: int = choose|j: int| 0 <= j < b.len() && (#[trigger] b[j]).hash@ == h;
        assert(b2[j].hash@ == h);
    }
    assert forall|h: Seq<char>| has_hash(b2, h) && h != blk.hash@ implies has_hash(b, h) && hash_index(
        b2,
        h,
    ) == hash_index(b, h) by {
        let j: int = hash_index(b2, h);
        assert(j < n);
        assert(b[j].hash@ == h);
        lemma_hash_index(b, j);
    }
    lemma_hash_index(b2, n);
    assert(b2[n] == blk);
    assert(blocks_map(b2) =~= blocks_map(b).insert(blk.hash@, blk@)) by {
        assert forall|h: Seq<char>| #[trigger] blocks_map(b2).dom().contains(h) implies blocks_map(b2)[h]
            == blocks_map(b).insert(blk.hash@, blk@)[h] by {
            if h != blk.hash@ {
                let j: int = hash_index(b2, h);
                assert(b2[j] == b[j]);
            }
        }
    }
    assert(children_map(b2, c2) =~= children_map(b, c).insert(blk.hash@, x)) by {
        assert forall|h: Seq<char>| #[trigger] children_map(b2, c2).dom().contains(h) implies children_map(
            b2,
            c2,
        )[h] == children_map(b, c).insert(blk.hash@, x)[h] by {
            if h != blk.hash@ {
                let j: int = hash_index(b2, h);
                assert(c2[j] == c[j]);
            }
        }
    }
}

/// Replacing the set stored for a held key.
pub proof fn lemma_children_set(b: Seq<Block>, c: Seq<Set<Seq<char>>>, i: int, x: Set<Seq<char>>)
    requires
        hashes_unique(b),
        b.len() == c.len(),
        0 <= i < b.len(),
    ensures
        children_map(b, c.update(i, x)) == children_map(b, c).insert(b[i].hash@, x),
{
    lemma_hash_index(b, i);
    assert(children_map(b, c.update(i, x)) =~= children_map(b, c).insert(b[i].hash@, x)) by {
        assert forall|h: Seq<char>| #[trigger] children_map(b, c.update(i, x)).dom().contains(
            h,
        ) implies children_map(b, c.update(i, x))[h] == children_map(b, c).insert(b[i].hash@, x)[h] by {
            let j: int = hash_index(b, h);
            if h != b[i].hash@ {
                assert(j != i);
            }
        }
    }
}

/// Replacing the set stored for a held slot.
pub proof fn lemma_slots_set(s: Seq<u64>, hs: Seq<Set<Seq<char>>>, i: int, x: Set<Seq<char>>)
    requires
        slots_unique(s),
        s.len() == hs.len(),
        0 <= i < s.len(),
    ensures
        slots_map(s, hs.update(i, x)) == slots_map(s, hs).insert(s[i], x),
{
    lemma_slot_index(s, i);
    assert(slots_map(s, hs.update(i, x)) =~= slots_map(s, hs).insert(s[i], x)) by {
        assert forall|n: u64| #[trigger] slots_map(s, hs.update(i, x)).dom().contains(n) implies slots_map(
            s,
            hs.update(i, x),
        )[n] == slots_map(s, hs).insert(s[i], x)[n] by {
            let j: int = slot_index(s, n);
            if n != s[i] {
                assert(j != i);
            }
        }
    }
}

/// Appending a new slot.
pub proof fn lemma_slots_push(s: Seq<u64>, hs: Seq<Set<Seq<char>>>, n: u64, x: Set<Seq<char>>)
    requires
        slots_unique(s),
        s.len() == hs.len(),
        !has_slot(s, n),
    ensures
        slots_unique(s.push(n)),
        slots_map(s.push(n), hs.push(x)) == slots_map(s, hs).insert(n, x),
{
    let s2: Seq<u64> = s.push(n);
    let h2: Seq<Set<Seq<char>>> = hs.push(x);
    let len: int = s.len() as int;
    assert(slots_unique(s2)) by {
        assert forall|p: int, q: int| 0 <= p < s2.len() && 0 <= q < s2.len() && p != q implies s2[p]
            != s2[q] by {
            if p < len && q < len {
                assert(s2[p] == s[p] && s2[q] == s[q]);
            } else if p < len {
                assert(s2[p] == s[p]);
            } else {
                assert(s2[q] == s[q]);
            }
        }
    }
    lemma_slot_index(s2, len);
    assert(slots_map(s2, h2) =~= slots_map(s, hs).insert(n, x)) by {
        assert forall|m: u64| #[trigger] slots_map(s2, h2).dom().contains(m) implies slots_map(s2, h2)[m]
            == slots_map(s, hs).insert(n, x)[m] by {
            if m != n {
                let j: int = slot_index(s2, m);
                assert(j < len);
                assert(s[j] == m);
                lemma_slot_index(s, j);
            }
        }
        assert forall|m: u64| slots_map(s, hs).insert(n, x).dom().contains(m) implies #[trigger] slots_map(
            s2,
            h2,
        ).dom().contains(m) by {
            if m != n {
                let j: int = slot_index(s, m);
                assert(s2[j] == m);
            }
        }
    }
}

/// The blocks met walking back from hash `h` through previous hashes,
/// starting with the block of `h`, for at most `fuel` steps; the walk
/// stops at a hash that is not held.
pub open spec fn ancestry(blocks: Map<Seq<char>, BlockModel>, h: Seq<char>, fuel: nat) -> Seq<BlockModel>
    decreases fuel,
{
    if fuel == 0 || !blocks.dom().contains(h) {
        Seq::empty()
    } else {
        seq![blocks[h]] + ancestry(blocks, blocks[h].previous_hash, (fuel - 1) as nat)
    }
}

/// The chain ending at hash `h`: the walk back from `h`, for at most as
/// many steps as there are blocks (on a tree without cycles, the whole
/// walk back to a block whose parent is not held).
pub open spec fn chain_from(c: ChainModel, h: Seq<char>) -> Seq<BlockModel> {
    ancestry(c.blocks, h, c.blocks.dom().len())
}

/// `m` is a main chain of `c`: no leaf's chain is longer, and when it is
/// not empty it is the chain of some leaf.
pub open spec fn is_main_chain(c: ChainModel, m: Seq<BlockModel>) -> bool {
    &&& forall|l: Seq<char>| #[trigger] c.leaves.contains(l) ==> chain_from(c, l).len() <= m.len()
    &&& m.len() > 0 ==> exists|l: Seq<char>| #[trigger] c.leaves.contains(l) && m == chain_from(c, l)
}

/// The chain kept when the leaves `ls` are looked at in order: a leaf's
/// chain replaces the one kept only when it is strictly longer, so the
/// first of the longest chains is kept.
pub open spec fn longest_chain(c: ChainModel, ls: Seq<Seq<char>>) -> Seq<BlockModel>
    decreases ls.len(),
{
    if ls.len() == 0 {
        Seq::empty()
    } else {
        let kept: Seq<BlockModel> = longest_chain(c, ls.drop_last());
        let candidate: Seq<BlockModel> = chain_from(c, ls.last());
        if candidate.len() > kept.len() {
            candidate
        } else {
            kept
        }
    }
}

/// Each block's previous hash is the hash of the block after it.
pub open spec fn is_linked(m: Seq<BlockModel>) -> bool {
    forall|k: int| 0 <= k < m.len() - 1 ==> (#[trigger] m[k]).previous_hash == m[k + 1].hash
}

/// The hashes of a list of blocks.
pub open spec fn hashes_of(m: Seq<BlockModel>) -> Seq<Seq<char>> {
    Seq::new(m.len(), |i: int| m[i].hash)
}

/// The abstract values of a list of blocks.
pub open spec fn block_models(s: Seq<Block>) -> Seq<BlockModel> {
    Seq::new(s.len(), |i: int| s[i]@)
}

/// The tree that chain resolution starts from: nothing held but the hash
/// of the oldest block of the main chain as the one leaf.
pub open spec fn resolution_start(m: Seq<BlockModel>) -> ChainModel {
    ChainModel { leaves: Set::empty().insert(m.last().hash), ..empty_chain() }
}

/// Adding the blocks of `m` from its last (oldest) to its first to `c`.
pub open spec fn replay(m: Seq<BlockModel>, c: ChainModel) -> ChainModel
    decreases m.len(),
{
    if m.len() == 0 {
        c
    } else {
        add_block_model(replay(m.drop_first(), c), m[0])
    }
}

/// Some transaction of the block with hash `h` in a slot at or above
/// `slot_lower_bound` equals `t`.
pub open spec fn chain_has_transaction(c: ChainModel, t: super::block::TransactionModel, slot_lower_bound: u64) -> bool {
    exists|s: u64, h: Seq<char>|
        #![trigger c.slots[s].contains(h)]
        c.slots.dom().contains(s) && s >= slot_lower_bound && c.slots[s].contains(h)
            && c.blocks.dom().contains(h) && c.blocks[h].transactions.contains(t)
}

/// The answer to whether the chain holds `t`, given at second `now`: an
/// error exactly when the query window at `now` reaches back before the
/// epoch; otherwise whether a block of a slot of that window holds `t`.
pub open spec fn holding_at(
    c: ChainModel,
    m: BlockchainMetadata,
    t: super::block::TransactionModel,
    now: u64,
    r: Result<bool, String>,
) -> bool {
    &&& (r is Err <==> window_underflows(m, now))
    &&& (r matches Ok(b) ==> b == chain_has_transaction(c, t, window_start(m, now)))
}

/// The trunk from hash `h`: the blocks met walking forward through only
/// children while a block has exactly one child, for at most `fuel` steps;
/// the block where the walk stops is not included.
pub open spec fn trunk_from(c: ChainModel, h: Seq<char>, fuel: nat) -> Seq<BlockModel>
    decreases fuel,
{
    if fuel == 0 || !c.blocks.dom().contains(h) || !c.children.dom().contains(h)
        || c.children[h].len() != 1 {
        Seq::empty()
    } else {
        seq![c.blocks[h]] + trunk_from(c, c.children[h].choose(), (fuel - 1) as nat)
    }
}

/// A held block with an empty previous hash.
pub open spec fn is_genesis_of(c: ChainModel, h: Seq<char>) -> bool {
    c.blocks.dom().contains(h) && c.blocks[h].previous_hash.len() == 0
}

/// The integer part of the base-two logarithm; zero for zero and one.
pub open spec fn floor_log2(n: nat) -> nat
    decreases n,
{
    if n <= 1 {
        0
    } else {
        1 + floor_log2(n / 2)
    }
}

/// A trunk is tall when it is no shorter than the main chain less twice
/// the base-two logarithm of the main chain's length.
pub open spec fn trunk_is_tall(trunk_len: nat, main_len: nat) -> bool {
    trunk_len >= main_len - 2 * floor_log2(main_len)
}

/// The transactions of a list of blocks, block after block, each block's
/// in ascending order.
pub open spec fn all_transactions(m: Seq<BlockModel>) -> Seq<TransactionModel>
    decreases m.len(),
{
    if m.len() == 0 {
        Seq::empty()
    } else {
        all_transactions(m.drop_last()) + m.last().transactions
    }
}

/// How many entries of `list` occur in `pool`.
pub open spec fn count_included(list: Seq<TransactionModel>, pool: Seq<TransactionModel>) -> nat
    decreases list.len(),
{
    if list.len() == 0 {
        0
    } else {
        count_included(list.drop_last(), pool) + if pool.contains(list.last()) {
            1nat
        } else {
            0nat
        }
    }
}

/// `v` lists the held leaf blocks: each entry is the held block of a
/// leaf, and every held leaf is listed.
pub open spec fn lists_leaf_blocks(c: ChainModel, v: Seq<BlockModel>) -> bool {
    &&& forall|i: int| 0 <= i < v.len() ==> c.leaves.contains(#[trigger] v[i].hash)
        && c.blocks.dom().contains(v[i].hash) && v[i] == c.blocks[v[i].hash]
    &&& forall|l: Seq<char>| #[trigger] c.leaves.contains(l) && c.blocks.dom().contains(l)
        ==> exists|i: int| 0 <= i < v.len() && v[i].hash == l
}

/// The abstract values of a list of transactions.
pub open spec fn txn_models(s: Seq<Transaction>) -> Seq<TransactionModel> {
    Seq::new(s.len(), |i: int| s[i]@)
}

/// One row of the drawing of the block tree: a block, how deep it sits,
/// for each of its ancestors from the root whether that ancestor is the
/// last child of its parent, the same for the block itself, and whether it
/// is a leaf and on the main chain.
#[derive(Debug)]
pub struct TreeRow {
    pub depth: usize,
    pub ancestors_last: Vec<bool>,
    pub is_last: bool,
    pub hash: String,
    pub is_leaf: bool,
    pub in_main_chain: bool,
}

/// The abstract value of a [`TreeRow`].
pub struct RowModel {
    pub depth: nat,
    pub ancestors_last: Seq<bool>,
    pub is_last: bool,
    pub hash: Seq<char>,
    pub is_leaf: bool,
    pub in_main_chain: bool,
}

impl View for TreeRow {
    type V = RowModel;

    open spec fn view(&self) -> RowModel {
        RowModel {
            depth: self.depth as nat,
            ancestors_last: self.ancestors_last@,
            is_last: self.is_last,
            hash: self.hash@,
            is_leaf: self.is_leaf,
            in_main_chain: self.in_main_chain,
        }
    }
}

/// The abstract values of a list of rows.
pub open spec fn row_models(s: Seq<TreeRow>) -> Seq<RowModel> {
    Seq::new(s.len(), |i: int| s[i]@)
}

/// `kids` lists the children of every held block, each child once.
pub open spec fn lists_children(c: ChainModel, kids: spec_fn(Seq<char>) -> Seq<Seq<char>>) -> bool {
    forall|h: Seq<char>| #[trigger] c.blocks.dom().contains(h) ==> kids(h).to_set() == c.children[h]
        && kids(h).no_duplicates()
}

/// The rows drawn for the branch from hash `h` down, depth first, the
/// children of each block in the order `kids` lists them; `lasts` are the
/// last-child marks of the ancestors of `h`. The walk goes at most `fuel`
/// blocks deep and stops at a hash that is not held.
pub open spec fn branch_rows(
    c: ChainModel,
    kids: spec_fn(Seq<char>) -> Seq<Seq<char>>,
    main: Set<Seq<char>>,
    h: Seq<char>,
    lasts: Seq<bool>,
    is_last: bool,
    fuel: nat,
) -> Seq<RowModel>
    decreases fuel, 0nat,
{
    if fuel == 0 || !c.blocks.dom().contains(h) {
        Seq::empty()
    } else {
        seq![
            RowModel {
                depth: lasts.len(),
                ancestors_last: lasts,
                is_last,
                hash: h,
                is_leaf: c.children[h] == Set::<Seq<char>>::empty(),
                in_main_chain: main.contains(h),
            },
        ] + children_rows(c, kids, main, kids(h), 0, lasts.push(is_last), (fuel - 1) as nat)
    }
}

/// The rows drawn for the branches from `list[i]`, `list[i + 1]`, ... in
/// turn, the last of the list marked as the last child.
pub open spec fn children_rows(
    c: ChainModel,
    kids: spec_fn(Seq<char>) -> Seq<Seq<char>>,
    main: Set<Seq<char>>,
    list: Seq<Seq<char>>,
    i: nat,
    lasts: Seq<bool>,
    fuel: nat,
) -> Seq<RowModel>
    decreases fuel, (list.len() - i) as nat,
{
    if i >= list.len() {
        Seq::empty()
    } else {
        branch_rows(c, kids, main, list[i as int], lasts, i == list.len() - 1, fuel) + children_rows(
            c,
            kids,
            main,
            list,
            i + 1,
            lasts,
            fuel,
        )
    }
}

/// A block whose parent is held, or the first block of an empty tree, is
/// held once added: it is stored under its hash, has no children yet, is
/// a child of its parent, is listed in its slot and is a leaf, while its
/// parent is a leaf no more and every other block stays as it was.
pub proof fn lemma_added_block_is_held(c: ChainModel, b: BlockModel)
    requires
        c.blocks.dom().contains(b.previous_hash) || c.blocks.dom() == Set::<Seq<char>>::empty(),
        c.blocks.dom() == c.children.dom(),
    ensures
        add_block_model(c, b).blocks.dom() == c.blocks.dom().insert(b.hash),
        add_block_model(c, b).blocks[b.hash] == b,
        b.previous_hash != b.hash ==> add_block_model(c, b).children[b.hash] == Set::<Seq<char>>::empty(),
        c.blocks.dom().contains(b.previous_hash) ==> add_block_model(c, b).children[b.previous_hash].contains(
            b.hash,
        ),
        add_block_model(c, b).slots[b.slot_number].contains(b.hash),
        add_block_model(c, b).leaves.contains(b.hash),
        b.previous_hash != b.hash ==> !add_block_model(c, b).leaves.contains(b.previous_hash),
        forall|h: Seq<char>| #[trigger] c.blocks.dom().contains(h) && h != b.hash ==> add_block_model(c, b).blocks[h] == c.blocks[h],
{
    assert(add_block_model(c, b).blocks.dom() =~= c.blocks.dom().insert(b.hash));
}

/// A block added on the tip of an unforked tree, or as the first block of
/// an empty one, becomes the tip: every main chain of the new tree starts
/// with it.
pub proof fn lemma_added_block_becomes_tip(c: ChainModel, b: BlockModel, m: Seq<BlockModel>)
    requires
        c.blocks.dom().finite(),
        (c.blocks.dom() == Set::<Seq<char>>::empty() && c.leaves == Set::<Seq<char>>::empty()) || (
        c.leaves == Set::<Seq<char>>::empty().insert(b.previous_hash) && c.blocks.dom().contains(
            b.previous_hash,
        )),
        is_main_chain(add_block_model(c, b), m),
    ensures
        m.len() > 0,
        m[0] == b,
{
    let c2: ChainModel = add_block_model(c, b);
    assert(c2.leaves =~= Set::<Seq<char>>::empty().insert(b.hash));
    assert(c2.blocks.dom() =~= c.blocks.dom().insert(b.hash));
    assert(c2.blocks.dom().len() > 0) by {
        vstd::set::axiom_set_contains_len(c2.blocks.dom(), b.hash);
    }
    assert(c2.leaves.contains(b.hash));
    let l: Seq<char> = choose|l: Seq<char>| #[trigger] c2.leaves.contains(l) && m == chain_from(c2, l);
    assert(l == b.hash);
}

/// Adding a block only adds to the slot index: an accepted block is listed
/// in its slot, every hash listed before stays listed in its slot, and no
/// slot gains any other hash; an orphan changes nothing.
pub proof fn lemma_add_block_extends_slots(c: ChainModel, b: BlockModel)
    ensures
        forall|s: u64, h: Seq<char>|
            #![trigger add_block_model(c, b).slots[s].contains(h)]
            c.slots.dom().contains(s) && c.slots[s].contains(h) ==> add_block_model(c, b).slots.dom().contains(s)
                && add_block_model(c, b).slots[s].contains(h),
        forall|s: u64, h: Seq<char>|
            #![trigger add_block_model(c, b).slots[s].contains(h)]
            add_block_model(c, b).slots.dom().contains(s) && add_block_model(c, b).slots[s].contains(h) ==> (
            c.slots.dom().contains(s) && c.slots[s].contains(h)) || (s == b.slot_number && h == b.hash),
        c.blocks.dom().contains(b.previous_hash) || c.blocks.dom() == Set::<Seq<char>>::empty()
            ==> add_block_model(c, b).slots.dom().contains(b.slot_number) && add_block_model(
            c,
            b,
        ).slots[b.slot_number].contains(b.hash),
{
}

/// Adding a block never loses a transaction the tree could find: when the
/// block's hash is new, every transaction found from a slot bound before
/// the addition is still found from it after, and an accepted block's own
/// transactions are found from any bound at or below its slot.
pub proof fn lemma_add_block_keeps_found_transactions(
    c: ChainModel,
    b: BlockModel,
    t: TransactionModel,
    slot_lower_bound: u64,
)
    requires
        !c.blocks.dom().contains(b.hash),
    ensures
        chain_has_transaction(c, t, slot_lower_bound) ==> chain_has_transaction(
            add_block_model(c, b),
            t,
            slot_lower_bound,
        ),
        (c.blocks.dom().contains(b.previous_hash) || c.blocks.dom() == Set::<Seq<char>>::empty())
            && b.transactions.contains(t) && slot_lower_bound <= b.slot_number ==> chain_has_transaction(
            add_block_model(c, b),
            t,
            slot_lower_bound,
        ),
{
    let d: ChainModel = add_block_model(c, b);
    lemma_add_block_extends_slots(c, b);
    if chain_has_transaction(c, t, slot_lower_bound) {
        let (s, h): (u64, Seq<char>) = choose|s: u64, h: Seq<char>|
            #![trigger c.slots[s].contains(h)]
            c.slots.dom().contains(s) && s >= slot_lower_bound && c.slots[s].contains(h)
                && c.blocks.dom().contains(h) && c.blocks[h].transactions.contains(t);
        assert(h != b.hash);
        assert(d.slots[s].contains(h));
        assert(d.blocks.dom().contains(h) && d.blocks[h] == c.blocks[h]);
    }
    if (c.blocks.dom().contains(b.previous_hash) || c.blocks.dom() == Set::<Seq<char>>::empty())
        && b.transactions.contains(t) && slot_lower_bound <= b.slot_number {
        assert(d.slots[b.slot_number].contains(b.hash));
        assert(d.blocks[b.hash] == b);
    }
}

/// The links of a tree agree with its blocks: the leaves are exactly the
/// held blocks without children, and the children of each held block are
/// exactly the held blocks that name it as their parent.
pub open spec fn links_consistent(c: ChainModel) -> bool {
    &&& c.blocks.dom() == c.children.dom()
    &&& forall|h: Seq<char>| #[trigger] c.leaves.contains(h) <==> c.blocks.dom().contains(h) && c.children[h]
        == Set::<Seq<char>>::empty()
    &&& forall|h: Seq<char>, k: Seq<char>|
        #![trigger c.children[h].contains(k)]
        c.blocks.dom().contains(h) ==> (c.children[h].contains(k) <==> c.blocks.dom().contains(k)
            && c.blocks[k].previous_hash == h)
}

/// Adding a block keeps the links of a tree consistent, whether the block
/// is taken or ignored as an orphan, when it is new: its hash is not held,
/// it is not its own parent, and no held block names it as a parent.
pub proof fn lemma_add_block_keeps_links(c: ChainModel, b: BlockModel)
    requires
        links_consistent(c),
        !c.blocks.dom().contains(b.hash),
        b.hash != b.previous_hash,
        forall|k: Seq<char>| #[trigger] c.blocks.dom().contains(k) ==> c.blocks[k].previous_hash != b.hash,
    ensures
        links_consistent(add_block_model(c, b)),
{
    let d: ChainModel = add_block_model(c, b);
    if c.blocks.dom().contains(b.previous_hash) || c.blocks.dom() == Set::<Seq<char>>::empty() {
        let p: Seq<char> = b.previous_hash;
        assert(d.blocks.dom() =~= c.blocks.dom().insert(b.hash));
        assert(d.children.dom() =~= c.children.dom().insert(b.hash));
        assert forall|h: Seq<char>| #[trigger] d.leaves.contains(h) <==> d.blocks.dom().contains(h)
            && d.children[h] == Set::<Seq<char>>::empty() by {
            if h == b.hash {
                assert(d.children[h] == Set::<Seq<char>>::empty());
            } else if h == p {
                if c.blocks.dom().contains(p) {
                    assert(d.children[p].contains(b.hash));
                }
            } else {
                assert(d.leaves.contains(h) == c.leaves.contains(h));
                if c.blocks.dom().contains(h) {
                    assert(d.children[h] == c.children[h]);
                }
            }
        }
        assert forall|h: Seq<char>, k: Seq<char>| d.blocks.dom().contains(h) implies (#[trigger] d.children[h].contains(k)
            <==> d.blocks.dom().contains(k) && d.blocks[k].previous_hash == h) by {
            if h == b.hash {
                assert(d.children[h] == Set::<Seq<char>>::empty());
                if d.blocks.dom().contains(k) && k != b.hash {
                    assert(c.blocks.dom().contains(k));
                }
            } else {
                assert(c.blocks.dom().contains(h));
                if h == p {
                    assert(d.children[h] == c.children[h].insert(b.hash));
                } else {
                    assert(d.children[h] == c.children[h]);
                }
                if k != b.hash {
                    assert(c.children[h].contains(k) <==> c.blocks.dom().contains(k) && c.blocks[k].previous_hash
                        == h);
                }
            }
        }
    }
}

/// A tree that holds blocks ignores a block whose parent it does not hold.
pub proof fn lemma_orphan_is_ignored(c: ChainModel, b: BlockModel)
    requires
        !c.blocks.dom().contains(b.previous_hash),
        c.blocks.dom() != Set::<Seq<char>>::empty(),
    ensures
        add_block_model(c, b) == c,
{
}

/// Adding a block on the one leaf of a resolved tree keeps the tree
/// resolved, with the new block as its one leaf.
pub proof fn lemma_extending_the_tip_keeps_resolved(c: ChainModel, b: BlockModel, tip: Seq<char>)
    requires
        c.leaves == Set::<Seq<char>>::empty().insert(tip),
        c.blocks.dom().contains(tip),
        b.previous_hash == tip,
    ensures
        add_block_model(c, b).leaves == Set::<Seq<char>>::empty().insert(b.hash),
        add_block_model(c, b).leaves.len() == 1,
{
    assert(add_block_model(c, b).leaves =~= Set::<Seq<char>>::empty().insert(b.hash));
}

/// Twice the logarithm never exceeds the number itself.
pub proof fn lemma_floor_log2_bound(n: nat)
    ensures
        2 * floor_log2(n) <= n,
    decreases n,
{
    if n > 1 {
        lemma_floor_log2_bound(n / 2);
        if n / 2 == 1 {
            assert(floor_log2(1) == 0);
        } else {
            assert(floor_log2(n / 2) * 2 <= n / 2);
        }
    }
}

/// `floor_log2` is the base-two logarithm rounded down: for every positive
/// `n`, two to its power is at most `n`, and two to the next power exceeds
/// `n`.
pub proof fn lemma_floor_log2_is_log2(n: nat)
    requires
        n >= 1,
    ensures
        vstd::arithmetic::power2::pow2(floor_log2(n)) <= n,
        n < vstd::arithmetic::power2::pow2(floor_log2(n) + 1),
    decreases n,
{
    let k: nat = floor_log2(n);
    vstd::arithmetic::power2::lemma2_to64();
    if n > 1 {
        let h: nat = n / 2;
        lemma_floor_log2_is_log2(h);
        let g: nat = floor_log2(h);
        assert(k == g + 1);
        vstd::arithmetic::power2::lemma_pow2_unfold(g + 1);
        vstd::arithmetic::power2::lemma_pow2_unfold(g + 2);
        assert(vstd::arithmetic::power2::pow2(k) == 2 * vstd::arithmetic::power2::pow2(g));
        assert(vstd::arithmetic::power2::pow2(k + 1) == 2 * vstd::arithmetic::power2::pow2(g + 1));
    }
}

/// A set with one element holds nothing else, so choosing from it picks
/// that element.
pub proof fn lemma_single_choose(s: Set<Seq<char>>, x: Seq<char>)
    requires
        s.finite(),
        s.len() == 1,
        s.contains(x),
    ensures
        s.choose() == x,
{
    let y: Seq<char> = s.choose();
    assert(s.contains(y));
    if y != x {
        assert(s.remove(x).len() == 0);
        assert(s.remove(x).contains(y));
    }
}

/// A walk back from a held hash is linked when every block is stored under
/// its own hash.
pub proof fn lemma_ancestry_linked(blocks: Map<Seq<char>, BlockModel>, h: Seq<char>, fuel: nat)
    requires
        forall|k: Seq<char>| #[trigger] blocks.dom().contains(k) ==> blocks[k].hash == k,
    ensures
        is_linked(ancestry(blocks, h, fuel)),
        forall|i: int| 0 <= i < ancestry(blocks, h, fuel).len() ==> blocks.dom().contains(
            #[trigger] ancestry(blocks, h, fuel)[i].hash,
        ),
    decreases fuel,
{
    if fuel > 0 && blocks.dom().contains(h) {
        let rest: Seq<BlockModel> = ancestry(blocks, blocks[h].previous_hash, (fuel - 1) as nat);
        lemma_ancestry_linked(blocks, blocks[h].previous_hash, (fuel - 1) as nat);
        let a: Seq<BlockModel> = ancestry(blocks, h, fuel);
        assert(a == seq![blocks[h]] + rest);
        assert forall|k: int| 0 <= k < a.len() - 1 implies (#[trigger] a[k]).previous_hash == a[k + 1].hash by {
            if k == 0 {
                assert(rest.len() > 0);
                assert(blocks.dom().contains(blocks[h].previous_hash));
            } else {
                assert(a[k] == rest[k - 1]);
                assert(a[k + 1] == rest[k]);
            }
        }
        assert forall|i: int| 0 <= i < a.len() implies blocks.dom().contains(#[trigger] a[i].hash) by {
            if i > 0 {
                assert(a[i] == rest[i - 1]);
            }
        }
    }
}

/// Replaying a linked, non-empty chain from [`resolution_start`] holds
/// exactly the chain's blocks, with its first block as the only leaf.
pub proof fn lemma_replay_linked(m: Seq<BlockModel>, last_hash: Seq<char>)
    requires
        m.len() > 0,
        is_linked(m),
        m.last().hash == last_hash,
    ensures
        replay(m, ChainModel { leaves: Set::empty().insert(last_hash), ..empty_chain() }).leaves
            == Set::empty().insert(m[0].hash),
        replay(m, ChainModel { leaves: Set::empty().insert(last_hash), ..empty_chain() }).blocks.dom()
            == hashes_of(m).to_set(),
    decreases m.len(),
{
    let c0: ChainModel = ChainModel { leaves: Set::empty().insert(last_hash), ..empty_chain() };
    if m.len() == 1 {
        assert(m.drop_first().len() == 0);
        assert(replay(m.drop_first(), c0) == c0);
        assert(c0.blocks.dom() =~= Set::<Seq<char>>::empty());
        let r: ChainModel = replay(m, c0);
        assert(r.leaves =~= Set::empty().insert(m[0].hash));
        assert(hashes_of(m).to_set() =~= Set::empty().insert(m[0].hash)) by {
            assert(hashes_of(m)[0] == m[0].hash);
            assert forall|x: Seq<char>| hashes_of(m).to_set().contains(x) implies x == m[0].hash by {
                let k: int = choose|k: int| 0 <= k < hashes_of(m).len() && hashes_of(m)[k] == x;
            }
        }
        assert(r.blocks.dom() =~= Set::empty().insert(m[0].hash));
    } else {
        let m1: Seq<BlockModel> = m.drop_first();
        assert(is_linked(m1)) by {
            assert forall|k: int| 0 <= k < m1.len() - 1 implies (#[trigger] m1[k]).previous_hash
                == m1[k + 1].hash by {
                assert(m1[k] == m[k + 1]);
                assert(m1[k + 1] == m[k + 2]);
            }
        }
        assert(m1.last() == m.last());
        lemma_replay_linked(m1, last_hash);
        let r1: ChainModel = replay(m1, c0);
        assert(m[0].previous_hash == m[1].hash);
        assert(m1[0] == m[1]);
        assert(hashes_of(m1).to_set().contains(m1[0].hash)) by {
            assert(hashes_of(m1)[0] == m1[0].hash);
        }
        assert(r1.blocks.dom().contains(m[0].previous_hash));
        let r: ChainModel = replay(m, c0);
        assert(r == add_block_model(r1, m[0]));
        assert(r.leaves =~= Set::empty().insert(m[0].hash));
        assert(r.blocks.dom() =~= hashes_of(m).to_set()) by {
            assert forall|x: Seq<char>| r.blocks.dom().contains(x) implies hashes_of(m).to_set().contains(x) by {
                if x == m[0].hash {
                    assert(hashes_of(m)[0] == x);
                } else {
                    assert(hashes_of(m1).to_set().contains(x));
                    let k: int = choose|k: int| 0 <= k < hashes_of(m1).len() && hashes_of(m1)[k] == x;
                    assert(hashes_of(m)[k + 1] == x);
                }
            }
            assert forall|x: Seq<char>| hashes_of(m).to_set().contains(x) implies r.blocks.dom().contains(x) by {
                let k: int = choose|k: int| 0 <= k < hashes_of(m).len() && hashes_of(m)[k] == x;
                if k > 0 {
                    assert(hashes_of(m1)[k - 1] == x);
                }
            }
        }
    }
}

impl View for Blockchain {
    type V = ChainModel;

    closed spec fn view(&self) -> ChainModel {
        ChainModel {
            blocks: blocks_map(self.blocks@),
            children: children_map(self.blocks@, set_views(self.children@)),
            leaves: self.leaves@,
            slots: slots_map(self.slot_numbers@, set_views(self.slot_hashes@)),
        }
    }
}

impl Blockchain {
    /// The representation invariant: one entry per hash and per slot, and
    /// every child is a held block. Every constructor and every operation
    /// of this type keeps it.
    pub closed spec fn wf(&self) -> bool {
        &&& self.blocks@.len() == self.children@.len()
        &&& self.slot_numbers@.len() == self.slot_hashes@.len()
        &&& hashes_unique(self.blocks@)
        &&& slots_unique(self.slot_numbers@)
        &&& forall|i: int, h: Seq<char>|
            0 <= i < self.children@.len() && #[trigger] self.children@[i]@.contains(h) ==> has_hash(
                self.blocks@,
                h,
            )
        &&& forall|i: int| 0 <= i < self.children@.len() ==> (#[trigger] self.children@[i]).listing().no_duplicates()
    }

    /// The main chain of the tree: the first longest chain of a leaf, the
    /// leaves taken in the order the tree keeps them. The same tree always
    /// has the same main chain.
    pub closed spec fn main_chain(&self) -> Seq<BlockModel> {
        longest_chain(self@, self.leaves.listing())
    }

    /// The parameters the tree was made with.
    pub closed spec fn metadata_spec(&self) -> BlockchainMetadata {
        *self.metadata
    }

    /// Every key of the tree is the hash of the block stored under it, every
    /// child is a held block, and the tree is finite with one block per
    /// hash.
    pub proof fn lemma_wf_facts(&self)
        requires
            self.wf(),
        ensures
            forall|h: Seq<char>| #[trigger] self@.blocks.dom().contains(h) ==> self@.blocks[h].hash == h,
            self@.blocks.dom() == self@.children.dom(),
            forall|h: Seq<char>, c: Seq<char>|
                self@.children.dom().contains(h) && #[trigger] self@.children[h].contains(c)
                    ==> self@.blocks.dom().contains(c),
            self@.blocks.dom().finite(),
    {
        self.lemma_block_count();
        let b: Seq<Block> = self.blocks@;
        assert forall|h: Seq<char>| #[trigger] self@.blocks.dom().contains(h) implies self@.blocks[h].hash
            == h by {
            let i: int = hash_index(b, h);
        }
        assert forall|h: Seq<char>, c: Seq<char>|
            self@.children.dom().contains(h) && #[trigger] self@.children[h].contains(c) implies self@.blocks.dom().contains(
            c,
        ) by {
            let i: int = hash_index(b, h);
            assert(self.children@[i]@.contains(c));
        }
    }

    proof fn lemma_block_count(&self)
        requires
            self.wf(),
        ensures
            self@.blocks.dom().finite(),
            self@.blocks.dom().len() == self.blocks@.len(),
    {
        let b: Seq<Block> = self.blocks@;
        let keys: Seq<Seq<char>> = Seq::new(b.len(), |i: int| b[i].hash@);
        assert(self@.blocks.dom() =~= keys.to_set()) by {
            assert forall|h: Seq<char>| self@.blocks.dom().contains(h) implies keys.to_set().contains(
                h,
            ) by {
                let i: int = hash_index(b, h);
                assert(keys[i] == h);
            }
            assert forall|h: Seq<char>| keys.to_set().contains(h) implies self@.blocks.dom().contains(
                h,
            ) by {
                let i: int = choose|i: int| 0 <= i < keys.len() && keys[i] == h;
                assert(b[i].hash@ == h);
            }
        }
        assert(keys.no_duplicates()) by {
            assert forall|i: int, j: int| 0 <= i < keys.len() && 0 <= j < keys.len() && i != j implies keys[i]
                != keys[j] by {
                assert(b[i].hash@ != b[j].hash@);
            }
        }
        keys.unique_seq_to_set();
    }

    /// An empty tree with the given parameters.
    pub fn new(metadata: Arc<BlockchainMetadata>) -> (r: Self)
        ensures
            r.wf(),
            r@ == empty_chain(),
            r.metadata_spec() == *metadata,
    {
        let r: Blockchain = Blockchain {
            blocks: Vec::new(),
            children: Vec::new(),
            leaves: StringSet::new(),
            slot_numbers: Vec::new(),
            slot_hashes: Vec::new(),
            metadata,
        };
        assert(r@.blocks =~= Map::<Seq<char>, BlockModel>::empty());
        assert(r@.children =~= Map::<Seq<char>, Set<Seq<char>>>::empty());
        assert(r@.slots =~= Map::<u64, Set<Seq<char>>>::empty());
        r
    }

    /// The parameters the tree was made with.
    pub fn metadata(&self) -> (r: &BlockchainMetadata)
        ensures
            *r == self.metadata_spec(),
    {
        &self.metadata
    }

    fn find_block(&self, h: &String) -> (r: Option<usize>)
        requires
            self.wf(),
        ensures
            r matches Some(i) ==> i < self.blocks@.len() && self.blocks@[i as int].hash@ == h@
                && hash_index(self.blocks@, h@) == i,
            r is None ==> !has_hash(self.blocks@, h@),
    {
        let n: usize = self.blocks.len();
        let mut i: usize = 0;
        while i < n
            invariant
                n == self.blocks@.len(),
                i <= n,
                self.wf(),
                forall|j: int| 0 <= j < i ==> (#[trigger] self.blocks@[j]).hash@ != h@,
            decreases n - i,
        {
            if self.blocks[i].hash == *h {
                proof {
                    lemma_hash_index(self.blocks@, i as int);
                }
                return Some(i);
            }
            i = i + 1;
        }
        None
    }

    fn find_slot(&self, slot: u64) -> (r: Option<usize>)
        requires
            self.wf(),
        ensures
            r matches Some(i) ==> i < self.slot_numbers@.len() && self.slot_numbers@[i as int] == slot
                && slot_index(self.slot_numbers@, slot) == i,
            r is None ==> !has_slot(self.slot_numbers@, slot),
    {
        let n: usize = self.slot_numbers.len();
        let mut i: usize = 0;
        while i < n
            invariant
                n == self.slot_numbers@.len(),
                i <= n,
                self.wf(),
                forall|j: int| 0 <= j < i ==> self.slot_numbers@[j] != slot,
            decreases n - i,
        {
            if self.slot_numbers[i] == slot {
                proof {
                    lemma_slot_index(self.slot_numbers@, i as int);
                }
                return Some(i);
            }
            i = i + 1;
        }
        None
    }

    /// A copy of the block with hash `hash`, if held.
    pub fn get_block(&self, hash: String) -> (r: Result<Option<Block>, String>)
        requires
            self.wf(),
        ensures
            r matches Ok(o) && match o {
                Some(b) => self@.blocks.dom().contains(hash@) && b@ == self@.blocks[hash@],
                None => !self@.blocks.dom().contains(hash@),
            },
    {
        match self.find_block(&hash) {
            Some(i) => Ok(Some(self.blocks[i].clone())),
            None => Ok(None),
        }
    }

    /// Whether the block with hash `hash` is held.
    pub fn has_block(&self, hash: String) -> (r: Result<bool, String>)
        requires
            self.wf(),
        ensures
            r matches Ok(b) && b == self@.blocks.dom().contains(hash@),
    {
        Ok(self.find_block(&hash).is_some())
    }

    /// Whether the tree has a single leaf, that is, no forks.
    pub fn is_resolved(&self) -> (r: bool)
        ensures
            r == (self@.leaves.len() == 1),
    {
        self.leaves.len() == 1
    }

    fn put_block(&mut self, block: Block)
        requires
            old(self).wf(),
        ensures
            final(self).wf(),
            final(self).metadata_spec() == old(self).metadata_spec(),
            final(self)@ == (ChainModel {
                blocks: old(self)@.blocks.insert(block@.hash, block@),
                children: old(self)@.children.insert(block@.hash, Set::<Seq<char>>::empty()),
                ..old(self)@
            }),
    {
        let ghost b0: Seq<Block> = self.blocks@;
        let ghost c0: Seq<Set<Seq<char>>> = set_views(self.children@);
        let ghost blk: Block = block;
        match self.find_block(&block.hash) {
            Some(i) => {
                self.blocks.set(i, block);
                self.children.set(i, StringSet::new());
                proof {
                    lemma_maps_update(b0, c0, i as int, blk, Set::empty());
                    assert(set_views(self.children@) =~= c0.update(i as int, Set::empty()));
                    assert forall|k: int, h: Seq<char>|
                        0 <= k < self.children@.len() && #[trigger] self.children@[k]@.contains(
                            h,
                        ) implies has_hash(self.blocks@, h) by {
                        assert(k != i);
                        assert(self.children@[k] == old(self).children@[k]);
                        let j: int = choose|j: int| 0 <= j < b0.len() && (#[trigger] b0[j]).hash@ == h;
                        assert(self.blocks@[j].hash@ == h);
                    }
                }
            },
            None => {
                self.blocks.push(block);
                self.children.push(StringSet::new());
                proof {
                    lemma_maps_push(b0, c0, blk, Set::empty());
                    assert(set_views(self.children@) =~= c0.push(Set::empty()));
                    assert forall|k: int, h: Seq<char>|
                        0 <= k < self.children@.len() && #[trigger] self.children@[k]@.contains(
                            h,
                        ) implies has_hash(self.blocks@, h) by {
                        assert(k < b0.len());
                        assert(self.children@[k] == old(self).children@[k]);
                        assert(has_hash(b0, h));
                    }
                }
            },
        }
    }

    fn put_in_slot(&mut self, slot: u64, hash: String)
        requires
            old(self).wf(),
        ensures
            final(self).wf(),
            final(self).metadata_spec() == old(self).metadata_spec(),
            final(self)@ == (ChainModel {
                slots: old(self)@.slots.insert(
                    slot,
                    (if old(self)@.slots.dom().contains(slot) {
                        old(self)@.slots[slot]
                    } else {
                        Set::<Seq<char>>::empty()
                    }).insert(hash@),
                ),
                ..old(self)@
            }),
    {
        let ghost s0: Seq<u64> = self.slot_numbers@;
        let ghost h0: Seq<Set<Seq<char>>> = set_views(self.slot_hashes@);
        match self.find_slot(slot) {
            Some(i) => {
                let mut set: StringSet = self.slot_hashes[i].clone();
                set.insert(hash);
                let ghost x: Set<Seq<char>> = set@;
                self.slot_hashes.set(i, set);
                proof {
                    lemma_slots_set(s0, h0, i as int, x);
                    assert(set_views(self.slot_hashes@) =~= h0.update(i as int, x));
                }
            },
            None => {
                let mut set: StringSet = StringSet::new();
                set.insert(hash);
                let ghost x: Set<Seq<char>> = set@;
                self.slot_numbers.push(slot);
                self.slot_hashes.push(set);
                proof {
                    lemma_slots_push(s0, h0, slot, x);
                    assert(set_views(self.slot_hashes@) =~= h0.push(x));
                }
            },
        }
    }

    fn link_child(&mut self, parent: &String, hash: String)
        requires
            old(self).wf(),
            old(self)@.blocks.dom().contains(hash@),
        ensures
            final(self).wf(),
            final(self).metadata_spec() == old(self).metadata_spec(),
            final(self)@ == (ChainModel {
                children: if old(self)@.children.dom().contains(parent@) {
                    old(self)@.children.insert(parent@, old(self)@.children[parent@].insert(hash@))
                } else {
                    old(self)@.children
                },
                ..old(self)@
            }),
    {
        let ghost b0: Seq<Block> = self.blocks@;
        let ghost c0: Seq<Set<Seq<char>>> = set_views(self.children@);
        match self.find_block(parent) {
            Some(j) => {
                let mut set: StringSet = self.children[j].clone();
                set.insert(hash);
                let ghost x: Set<Seq<char>> = set@;
                self.children.set(j, set);
                proof {
                    lemma_children_set(b0, c0, j as int, x);
                    assert(set_views(self.children@) =~= c0.update(j as int, x));
                    assert forall|k: int, h: Seq<char>|
                        0 <= k < self.children@.len() && #[trigger] self.children@[k]@.contains(
                            h,
                        ) implies has_hash(self.blocks@, h) by {
                        if k != j {
                            assert(self.children@[k] == old(self).children@[k]);
                        } else if h != hash@ {
                            assert(old(self).children@[k]@.contains(h));
                        }
                    }
                }
            },
            None => {
                assert(!old(self)@.children.dom().contains(parent@));
            },
        }
    }

    /// Adds a block whose parent is held, or any block to an empty tree;
    /// an orphan is ignored. See [`add_block_model`].
    pub fn add_block(&mut self, block: Block) -> (r: Result<(), String>)
        requires
            old(self).wf(),
        ensures
            r is Ok,
            final(self).wf(),
            final(self).metadata_spec() == old(self).metadata_spec(),
            final(self)@ == add_block_model(old(self)@, block@),
    {
        let ghost c: ChainModel = self@;
        let ghost b: BlockModel = block@;
        let parent_held: bool = self.find_block(&block.previous_hash).is_some();
        if parent_held || self.blocks.len() == 0 {
            proof {
                if !parent_held {
                    assert(c.blocks.dom() =~= Set::<Seq<char>>::empty());
                } else {
                    assert(c.blocks.dom().contains(b.previous_hash));
                }
            }
            let hash: String = block.hash.clone();
            let previous: String = block.previous_hash.clone();
            let slot: u64 = block.slot_number;
            self.put_block(block);
            self.put_in_slot(slot, hash.clone());
            self.link_child(&previous, hash.clone());
            self.leaves.remove(&previous);
            self.leaves.insert(hash);
            proof {
                assert(self@.blocks =~= add_block_model(c, b).blocks);
                assert(self@.children =~= add_block_model(c, b).children);
                assert(self@.leaves =~= add_block_model(c, b).leaves);
                assert(self@.slots =~= add_block_model(c, b).slots);
            }
        } else {
            proof {
                assert(!c.blocks.dom().contains(b.previous_hash));
                assert(self.blocks@.len() > 0);
                let h: Seq<char> = self.blocks@[0].hash@;
                assert(c.blocks.dom().contains(h));
                assert(c.blocks.dom() != Set::<Seq<char>>::empty());
            }
        }
        Ok(())
    }

    /// The chain ending at `leaf`; see [`chain_from`].
    fn chain_from_leaf(&self, leaf: &String) -> (r: Vec<Block>)
        requires
            self.wf(),
        ensures
            block_models(r@) == chain_from(self@, leaf@),
    {
        proof {
            self.lemma_block_count();
        }
        let ghost total: Seq<BlockModel> = chain_from(self@, leaf@);
        let mut chain: Vec<Block> = Vec::new();
        let mut current: String = leaf.clone();
        let mut fuel: usize = self.blocks.len();
        let mut done: bool = false;
        while fuel > 0 && !done
            invariant
                self.wf(),
                total == chain_from(self@, leaf@),
                done ==> !self@.blocks.dom().contains(current@),
                block_models(chain@) + ancestry(self@.blocks, current@, fuel as nat) == total,
            decreases fuel, if done { 0int } else { 1int },
        {
            match self.find_block(&current) {
                Some(i) => {
                    let b: Block = self.blocks[i].clone();
                    let ghost before: Seq<BlockModel> = block_models(chain@);
                    proof {
                        assert(self@.blocks[current@] == self.blocks@[i as int]@);
                    }
                    current = b.previous_hash.clone();
                    chain.push(b);
                    proof {
                        assert(block_models(chain@) =~= before.push(self.blocks@[i as int]@));
                    }
                    fuel = fuel - 1;
                    assert(block_models(chain@) + ancestry(self@.blocks, current@, fuel as nat) =~= total);
                },
                None => {
                    done = true;
                },
            }
        }
        assert(ancestry(self@.blocks, current@, fuel as nat) =~= Seq::<BlockModel>::empty());
        assert(block_models(chain@) =~= total);
        chain
    }

    /// The longest chain ending at a leaf (the first one found when several
    /// are longest); empty when no leaf is held.
    pub fn get_main_chain(&self) -> (r: Result<Vec<Block>, String>)
        requires
            self.wf(),
        ensures
            r matches Ok(v) && is_main_chain(self@, block_models(v@)) && block_models(v@)
                == self.main_chain(),
    {
        let leaves: Vec<String> = self.leaves.to_vec();
        let ghost lv: Seq<Seq<char>> = super::strset::string_views(leaves@);
        let mut longest: Vec<Block> = Vec::new();
        let n: usize = leaves.len();
        let mut k: usize = 0;
        while k < n
            invariant
                self.wf(),
                n == leaves@.len(),
                lv == super::strset::string_views(leaves@),
                k <= n,
                forall|j: int| 0 <= j < k ==> chain_from(self@, #[trigger] lv[j]).len() <= longest@.len(),
                longest@.len() > 0 ==> exists|j: int| 0 <= j < k && block_models(longest@) == chain_from(self@, #[trigger] lv[j]),
                lv == self.leaves.listing(),
                block_models(longest@) == longest_chain(self@, lv.take(k as int)),
            decreases n - k,
        {
            let chain: Vec<Block> = self.chain_from_leaf(&leaves[k]);
            assert(lv[k as int] == leaves@[k as int]@);
            proof {
                assert(lv.take(k + 1).drop_last() =~= lv.take(k as int));
                assert(lv.take(k + 1).last() == lv[k as int]);
            }
            if chain.len() > longest.len() {
                longest = chain;
            }
            k = k + 1;
        }
        assert(lv.take(n as int) =~= lv);
        proof {
            let m: Seq<BlockModel> = block_models(longest@);
            assert forall|l: Seq<char>| #[trigger] self@.leaves.contains(l) implies chain_from(self@, l).len() <= m.len() by {
                assert(lv.to_set().contains(l));
                let j: int = choose|j: int| 0 <= j < lv.len() && lv[j] == l;
            }
            if m.len() > 0 {
                let j: int = choose|j: int| 0 <= j < k && block_models(longest@) == chain_from(self@, #[trigger] lv[j]);
                assert(lv.to_set().contains(lv[j]));
                assert(self@.leaves.contains(lv[j]));
            }
        }
        Ok(longest)
    }

    /// The first block of a main chain (its tip), or nothing when the main
    /// chain is empty.
    pub fn get_chain_tip(&self) -> (r: Result<Option<Block>, String>)
        requires
            self.wf(),
        ensures
            r matches Ok(o) && exists|m: Seq<BlockModel>| #[trigger] is_main_chain(self@, m) && match o {
                Some(b) => m.len() > 0 && b@ == m[0],
                None => m.len() == 0,
            },
            r matches Ok(o) && match o {
                Some(b) => self.main_chain().len() > 0 && b@ == self.main_chain()[0],
                None => self.main_chain().len() == 0,
            },
    {
        let chain: Vec<Block> = match self.get_main_chain() {
            Ok(c) => c,
            Err(e) => {
                return Err(e);
            },
        };
        let ghost m: Seq<BlockModel> = block_models(chain@);
        if chain.len() == 0 {
            assert(is_main_chain(self@, m));
            Ok(None)
        } else {
            assert(m[0] == chain@[0]@);
            assert(is_main_chain(self@, m));
            Ok(Some(chain[0].clone()))
        }
    }

    /// Empties the tree and holds only the genesis block.
    pub fn genesis(&mut self) -> (r: Result<(), String>)
        requires
            old(self).wf(),
            old(self).metadata_spec().slot_secs > 0,
        ensures
            r is Ok,
            final(self).wf(),
            final(self).metadata_spec() == old(self).metadata_spec(),
            final(self)@ == add_block_model(empty_chain(), genesis_block_model()),
    {
        self.blocks = Vec::new();
        self.children = Vec::new();
        self.leaves = StringSet::new();
        self.slot_numbers = Vec::new();
        self.slot_hashes = Vec::new();
        proof {
            assert(self@.blocks =~= empty_chain().blocks);
            assert(self@.children =~= empty_chain().children);
            assert(self@.slots =~= empty_chain().slots);
        }
        let slot_secs: u64 = self.metadata.slot_secs;
        let block: Block = Block::genesis(slot_secs);
        self.add_block(block)
    }

    /// Keeps only a main chain: the tree is emptied and the blocks of a
    /// main chain are added back from the oldest. Nothing changes when the
    /// main chain is empty.
    pub fn resolve_chain(&mut self) -> (r: Result<(), String>)
        requires
            old(self).wf(),
        ensures
            r is Ok,
            final(self).wf(),
            final(self).metadata_spec() == old(self).metadata_spec(),
            is_main_chain(old(self)@, old(self).main_chain()),
            ({
                let m: Seq<BlockModel> = old(self).main_chain();
                if m.len() == 0 {
                    final(self)@ == old(self)@
                } else {
                    &&& final(self)@ == replay(m, resolution_start(m))
                    &&& final(self)@.leaves == Set::empty().insert(m[0].hash)
                    &&& final(self)@.leaves.len() == 1
                    &&& final(self)@.blocks.dom() == hashes_of(m).to_set()
                }
            }),
    {
        let longest: Vec<Block> = match self.get_main_chain() {
            Ok(c) => c,
            Err(e) => {
                return Err(e);
            },
        };
        let ghost m: Seq<BlockModel> = block_models(longest@);
        let ghost old_view: ChainModel = self@;
        if longest.len() < 1 {
            return Ok(());
        }
        proof {
            let l: Seq<char> = choose|l: Seq<char>| #[trigger] old_view.leaves.contains(l) && m == chain_from(old_view, l);
            self.lemma_wf_facts();
            lemma_ancestry_linked(old_view.blocks, l, old_view.blocks.dom().len());
        }
        let n: usize = longest.len();
        self.blocks = Vec::new();
        self.children = Vec::new();
        self.slot_numbers = Vec::new();
        self.slot_hashes = Vec::new();
        let mut leaves: StringSet = StringSet::new();
        leaves.insert(longest[n - 1].hash.clone());
        self.leaves = leaves;
        proof {
            assert(m.last() == longest@[n - 1]@);
            assert(self@.blocks =~= resolution_start(m).blocks);
            assert(self@.children =~= resolution_start(m).children);
            assert(self@.slots =~= resolution_start(m).slots);
            assert(self@.leaves =~= resolution_start(m).leaves);
            assert(m.skip(n as int) =~= Seq::<BlockModel>::empty());
        }
        let mut i: usize = n;
        while i > 0
            invariant
                self.wf(),
                self.metadata_spec() == old(self).metadata_spec(),
                n == longest@.len(),
                m == block_models(longest@),
                i <= n,
                self@ == replay(m.skip(i as int), resolution_start(m)),
            decreases i,
        {
            i = i - 1;
            let b: Block = longest[i].clone();
            match self.add_block(b) {
                Ok(()) => {},
                Err(e) => {
                    return Err(e);
                },
            }
            proof {
                assert(m.skip(i as int).drop_first() =~= m.skip(i + 1));
                assert(m.skip(i as int)[0] == m[i as int]);
            }
        }
        proof {
            assert(m.skip(0) =~= m);
            lemma_replay_linked(m, m.last().hash);
            assert(resolution_start(m) == ChainModel { leaves: Set::empty().insert(m.last().hash), ..empty_chain() });
        }
        Ok(())
    }

    /// The transaction `transaction` (a copy) when a block of a slot at or
    /// above `slot_lower_bound` holds it.
    pub fn get_transaction_since(&self, transaction: &Transaction, slot_lower_bound: u64) -> (r: Option<Transaction>)
        requires
            self.wf(),
        ensures
            r is Some <==> chain_has_transaction(self@, transaction@, slot_lower_bound),
            r matches Some(t) ==> t@ == transaction@,
    {
        let ns: usize = self.slot_numbers.len();
        let mut k: usize = 0;
        while k < ns
            invariant
                self.wf(),
                ns == self.slot_numbers@.len(),
                k <= ns,
                forall|j: int, h: Seq<char>|
                    0 <= j < k && self.slot_numbers@[j] >= slot_lower_bound && #[trigger] self.slot_hashes@[j]@.contains(h)
                        ==> !(self@.blocks.dom().contains(h) && self@.blocks[h].transactions.contains(transaction@)),
            decreases ns - k,
        {
            if self.slot_numbers[k] >= slot_lower_bound {
                let hashes: Vec<String> = self.slot_hashes[k].to_vec();
                let ghost hv: Seq<Seq<char>> = string_views(hashes@);
                let nh: usize = hashes.len();
                let mut q: usize = 0;
                while q < nh
                    invariant
                        self.wf(),
                        ns == self.slot_numbers@.len(),
                        k < ns,
                        nh == hashes@.len(),
                        hv == string_views(hashes@),
                        hv.to_set() == self.slot_hashes@[k as int]@,
                        self.slot_numbers@[k as int] >= slot_lower_bound,
                        q <= nh,
                        forall|p: int| 0 <= p < q ==> !(self@.blocks.dom().contains(#[trigger] hv[p]) && self@.blocks[hv[p]].transactions.contains(transaction@)),
                    decreases nh - q,
                {
                    assert(hv[q as int] == hashes@[q as int]@);
                    match self.find_block(&hashes[q]) {
                        Some(i) => {
                            proof {
                                assert(self@.blocks[hv[q as int]] == self.blocks@[i as int]@);
                            }
                            if self.blocks[i].transactions.contains(transaction) {
                                proof {
                                    lemma_slot_index(self.slot_numbers@, k as int);
                                    let s: u64 = self.slot_numbers@[k as int];
                                    let h: Seq<char> = hv[q as int];
                                    assert(hv.to_set().contains(h));
                                    assert(self@.slots[s] == self.slot_hashes@[k as int]@);
                                    assert(self@.slots[s].contains(h));
                                    assert(has_hash(self.blocks@, h));
                                    assert(self@.blocks.dom().contains(h));
                                    assert(self@.blocks[h].transactions.contains(transaction@));
                                    assert(self@.slots.dom().contains(s) && s >= slot_lower_bound && self@.slots[s].contains(h)
                                        && self@.blocks.dom().contains(h) && self@.blocks[h].transactions.contains(transaction@));
                                }
                                return Some(transaction.clone());
                            }
                        },
                        None => {},
                    }
                    q = q + 1;
                }
                proof {
                    assert forall|h: Seq<char>| #[trigger] self.slot_hashes@[k as int]@.contains(h) implies !(self@.blocks.dom().contains(h) && self@.blocks[h].transactions.contains(transaction@)) by {
                        assert(hv.to_set().contains(h));
                        let p: int = choose|p: int| 0 <= p < hv.len() && hv[p] == h;
                    }
                }
            }
            k = k + 1;
        }
        proof {
            if chain_has_transaction(self@, transaction@, slot_lower_bound) {
                let (s, h) = choose|s: u64, h: Seq<char>|
                    #![trigger self@.slots[s].contains(h)]
                    self@.slots.dom().contains(s) && s >= slot_lower_bound && self@.slots[s].contains(h)
                        && self@.blocks.dom().contains(h) && self@.blocks[h].transactions.contains(transaction@);
                let j: int = slot_index(self.slot_numbers@, s);
                assert(self.slot_hashes@[j]@.contains(h));
            }
        }
        None
    }

    /// The transaction `transaction` (a copy) when a block of a slot from
    /// the query window that starts now holds it; see
    /// [`BlockchainMetadata::get_query_slot_lower_bound`].
    pub fn get_transaction(&self, transaction: &Transaction) -> (r: Result<Option<Transaction>, String>)
        requires
            self.wf(),
            self.metadata_spec().slot_secs > 0,
            self.metadata_spec().query_slots * self.metadata_spec().slot_secs <= u64::MAX,
        ensures
            exists|now: u64|
                #![trigger window_underflows(self.metadata_spec(), now)]
                {
                    &&& (r is Err <==> window_underflows(self.metadata_spec(), now))
                    &&& (r matches Ok(o) ==> (o is Some <==> chain_has_transaction(
                        self@,
                        transaction@,
                        window_start(self.metadata_spec(), now),
                    )))
                },
            r matches Ok(Some(t)) ==> t@ == transaction@,
            self.metadata_spec().query_slots * self.metadata_spec().slot_secs == 0 ==> r is Ok,
    {
        let lower: u64 = match self.metadata.get_query_slot_lower_bound() {
            Ok(t) => t,
            Err(e) => {
                return Err(e);
            },
        };
        let found: Option<Transaction> = self.get_transaction_since(transaction, lower);
        assert(found is Some <==> chain_has_transaction(self@, transaction@, lower));
        Ok(found)
    }

    /// Whether a block of a slot at or above `slot_lower_bound` holds
    /// `transaction`.
    pub fn has_transaction_since(&self, transaction: &Transaction, slot_lower_bound: u64) -> (r: bool)
        requires
            self.wf(),
        ensures
            r == chain_has_transaction(self@, transaction@, slot_lower_bound),
    {
        self.get_transaction_since(transaction, slot_lower_bound).is_some()
    }

    /// Whether a block of a slot from the query window that starts now
    /// holds `transaction`.
    pub fn has_transaction(&self, transaction: &Transaction) -> (r: Result<bool, String>)
        requires
            self.wf(),
            self.metadata_spec().slot_secs > 0,
            self.metadata_spec().query_slots * self.metadata_spec().slot_secs <= u64::MAX,
        ensures
            exists|now: u64| #[trigger] holding_at(self@, self.metadata_spec(), transaction@, now, r),
            self.metadata_spec().query_slots * self.metadata_spec().slot_secs == 0 ==> r is Ok,
    {
        let found: Result<Option<Transaction>, String> = self.get_transaction(transaction);
        let r: Result<bool, String> = match found {
            Ok(o) => Ok(o.is_some()),
            Err(e) => Err(e),
        };
        proof {
            let now: u64 = choose|now: u64|
                #![trigger window_underflows(self.metadata_spec(), now)]
                {
                    &&& (found is Err <==> window_underflows(self.metadata_spec(), now))
                    &&& (found matches Ok(o) ==> (o is Some <==> chain_has_transaction(
                        self@,
                        transaction@,
                        window_start(self.metadata_spec(), now),
                    )))
                };
            assert(holding_at(self@, self.metadata_spec(), transaction@, now, r));
        }
        r
    }

    /// A held block with an empty previous hash (the first one found), with
    /// its children.
    pub fn compute_genesis_block(&self) -> (r: Result<Option<(Block, StringSet)>, String>)
        requires
            self.wf(),
        ensures
            r matches Ok(o) && match o {
                Some((b, kids)) => is_genesis_of(self@, b@.hash) && b@ == self@.blocks[b@.hash]
                    && kids@ == self@.children[b@.hash],
                None => forall|h: Seq<char>| !#[trigger] is_genesis_of(self@, h),
            },
    {
        let n: usize = self.blocks.len();
        let mut i: usize = 0;
        while i < n
            invariant
                self.wf(),
                n == self.blocks@.len(),
                i <= n,
                forall|j: int| 0 <= j < i ==> (#[trigger] self.blocks@[j])@.previous_hash.len() != 0,
            decreases n - i,
        {
            if self.blocks[i].previous_hash.as_str().is_empty() {
                proof {
                    lemma_hash_index(self.blocks@, i as int);
                }
                return Ok(Some((self.blocks[i].clone(), self.children[i].clone())));
            }
            i = i + 1;
        }
        proof {
            assert forall|h: Seq<char>| !#[trigger] is_genesis_of(self@, h) by {
                if self@.blocks.dom().contains(h) {
                    let j: int = hash_index(self.blocks@, h);
                    assert(self.blocks@[j]@.previous_hash.len() != 0);
                }
            }
        }
        Ok(None)
    }

    /// The held blocks that are leaves.
    pub fn get_leaves(&self) -> (r: Result<Vec<Block>, String>)
        requires
            self.wf(),
        ensures
            r matches Ok(v) && lists_leaf_blocks(self@, block_models(v@)),
    {
        proof {
            self.lemma_wf_facts();
        }
        let leaves: Vec<String> = self.leaves.to_vec();
        let ghost lv: Seq<Seq<char>> = string_views(leaves@);
        let mut out: Vec<Block> = Vec::new();
        let n: usize = leaves.len();
        let mut k: usize = 0;
        while k < n
            invariant
                self.wf(),
                forall|h: Seq<char>| #[trigger] self@.blocks.dom().contains(h) ==> self@.blocks[h].hash == h,
                n == leaves@.len(),
                lv == string_views(leaves@),
                lv.to_set() == self@.leaves,
                k <= n,
                forall|i: int| 0 <= i < out@.len() ==> self@.leaves.contains(#[trigger] out@[i]@.hash)
                    && self@.blocks.dom().contains(out@[i]@.hash) && out@[i]@ == self@.blocks[out@[i]@.hash],
                forall|j: int| 0 <= j < k && self@.blocks.dom().contains(#[trigger] lv[j]) ==> exists|i: int| 0 <= i < out@.len() && out@[i]@.hash == lv[j],
            decreases n - k,
        {
            assert(lv[k as int] == leaves@[k as int]@);
            assert(lv.to_set().contains(lv[k as int]));
            let ghost before: Seq<Block> = out@;
            match self.find_block(&leaves[k]) {
                Some(i) => {
                    let b: Block = self.blocks[i].clone();
                    proof {
                        assert(self@.blocks[lv[k as int]] == self.blocks@[i as int]@);
                    }
                    out.push(b);
                    proof {
                        assert(out@[out@.len() - 1]@.hash == lv[k as int]);
                        assert forall|j: int| 0 <= j < k + 1 && self@.blocks.dom().contains(#[trigger] lv[j]) implies exists|i: int| 0 <= i < out@.len() && out@[i]@.hash == lv[j] by {
                            if j < k {
                                let w: int = choose|w: int| 0 <= w < before.len() && before[w]@.hash == lv[j];
                                assert(out@[w] == before[w]);
                            } else {
                                assert(out@[out@.len() - 1]@.hash == lv[j]);
                            }
                        }
                    }
                },
                None => {
                    proof {
                        assert(!self@.blocks.dom().contains(lv[k as int]));
                    }
                },
            }
            k = k + 1;
        }
        proof {
            assert forall|l: Seq<char>| #[trigger] self@.leaves.contains(l) && self@.blocks.dom().contains(l) implies exists|i: int| 0 <= i < out@.len() && out@[i]@.hash == l by {
                assert(lv.to_set().contains(l));
                let j: int = choose|j: int| 0 <= j < lv.len() && lv[j] == l;
                assert(self@.blocks.dom().contains(lv[j]));
            }
            let bm: Seq<BlockModel> = block_models(out@);
            assert forall|l: Seq<char>| #[trigger] self@.leaves.contains(l) && self@.blocks.dom().contains(l) implies exists|i: int| 0 <= i < bm.len() && bm[i].hash == l by {
                let i: int = choose|i: int| 0 <= i < out@.len() && out@[i]@.hash == l;
                assert(bm[i] == out@[i]@);
            }
            assert forall|i: int| 0 <= i < bm.len() implies self@.leaves.contains(#[trigger] bm[i].hash)
                && self@.blocks.dom().contains(bm[i].hash) && bm[i] == self@.blocks[bm[i].hash] by {
                assert(bm[i] == out@[i]@);
            }
        }
        Ok(out)
    }

    /// The leaf hashes.
    pub fn get_leaf_hashes(&self) -> (r: Result<StringSet, String>)
        ensures
            r matches Ok(s) && s@ == self@.leaves,
    {
        Ok(self.leaves.clone())
    }

    /// The order in which the children of each block are walked.
    pub closed spec fn child_listing(&self) -> spec_fn(Seq<char>) -> Seq<Seq<char>> {
        |h: Seq<char>| self.children@[hash_index(self.blocks@, h)].listing()
    }

    proof fn lemma_child_listing(&self)
        requires
            self.wf(),
        ensures
            lists_children(self@, self.child_listing()),
    {
        assert forall|h: Seq<char>| #[trigger] self@.blocks.dom().contains(h) implies self.child_listing()(
            h,
        ).to_set() == self@.children[h] && self.child_listing()(h).no_duplicates() by {
            let i: int = hash_index(self.blocks@, h);
            self.children@[i].lemma_listing_set();
        }
    }

    fn push_branch_rows(
        &self,
        h: &String,
        lasts: &Vec<bool>,
        is_last: bool,
        main: &StringSet,
        fuel: usize,
        out: &mut Vec<TreeRow>,
    )
        requires
            self.wf(),
        ensures
            row_models(final(out)@) == row_models(old(out)@) + branch_rows(
                self@,
                self.child_listing(),
                main@,
                h@,
                lasts@,
                is_last,
                fuel as nat,
            ),
        decreases fuel, 0nat,
    {
        let ghost start: Seq<RowModel> = row_models(out@);
        if fuel == 0 {
            assert(row_models(out@) =~= start + Seq::<RowModel>::empty());
            return;
        }
        match self.find_block(h) {
            None => {
                assert(row_models(out@) =~= start + Seq::<RowModel>::empty());
            },
            Some(i) => {
                let kids: Vec<String> = self.children[i].to_vec();
                let size: usize = self.children[i].len();
                proof {
                    if size == 0 {
                        self.children@[i as int]@.lemma_len0_is_empty();
                    }
                }
                let row: TreeRow = TreeRow {
                    depth: lasts.len(),
                    ancestors_last: copy_flags(lasts),
                    is_last,
                    hash: h.clone(),
                    is_leaf: size == 0,
                    in_main_chain: main.contains(h),
                };
                let ghost rm: RowModel = row@;
                out.push(row);
                assert(row_models(out@) =~= start.push(rm));
                let mut next: Vec<bool> = copy_flags(lasts);
                next.push(is_last);
                self.push_children_rows(&kids, 0, &next, main, fuel - 1, out);
                proof {
                    assert(string_views(kids@) == self.child_listing()(h@));
                    assert(next@ == lasts@.push(is_last));
                    assert(seq![rm] + children_rows(
                        self@,
                        self.child_listing(),
                        main@,
                        string_views(kids@),
                        0,
                        next@,
                        (fuel - 1) as nat,
                    ) == branch_rows(self@, self.child_listing(), main@, h@, lasts@, is_last, fuel as nat));
                    assert(row_models(out@) =~= start + branch_rows(
                        self@,
                        self.child_listing(),
                        main@,
                        h@,
                        lasts@,
                        is_last,
                        fuel as nat,
                    ));
                }
            },
        }
    }

    fn push_children_rows(
        &self,
        list: &Vec<String>,
        i: usize,
        lasts: &Vec<bool>,
        main: &StringSet,
        fuel: usize,
        out: &mut Vec<TreeRow>,
    )
        requires
            self.wf(),
            i <= list@.len(),
        ensures
            row_models(final(out)@) == row_models(old(out)@) + children_rows(
                self@,
                self.child_listing(),
                main@,
                string_views(list@),
                i as nat,
                lasts@,
                fuel as nat,
            ),
        decreases fuel, (list@.len() - i) as nat,
    {
        let ghost start: Seq<RowModel> = row_models(out@);
        let ghost names: Seq<Seq<char>> = string_views(list@);
        if i >= list.len() {
            assert(row_models(out@) =~= start + Seq::<RowModel>::empty());
            return;
        }
        let last: bool = i == list.len() - 1;
        self.push_branch_rows(&list[i], lasts, last, main, fuel, out);
        self.push_children_rows(list, i + 1, lasts, main, fuel, out);
        proof {
            assert(names[i as int] == list@[i as int]@);
            assert(row_models(out@) =~= start + children_rows(
                self@,
                self.child_listing(),
                main@,
                names,
                i as nat,
                lasts@,
                fuel as nat,
            ));
        }
    }

    /// The rows of the drawing of the branch from `block_hash` down, depth
    /// first, each block's children in some order that lists each once:
    /// `ancestors_last` marks, for each ancestor from the root, whether it
    /// is the last child of its parent, `is_last` the same for the branch's
    /// first block, and blocks in `main_chain_set` are marked as on the main
    /// chain. No rows when `block_hash` is not held.
    pub fn branch_rows_from(
        &self,
        block_hash: &String,
        ancestors_last: &Vec<bool>,
        is_last: bool,
        main_chain_set: &StringSet,
    ) -> (r: Vec<TreeRow>)
        requires
            self.wf(),
        ensures
            exists|kids: spec_fn(Seq<char>) -> Seq<Seq<char>>|
                #[trigger] lists_children(self@, kids) && row_models(r@) == branch_rows(
                    self@,
                    kids,
                    main_chain_set@,
                    block_hash@,
                    ancestors_last@,
                    is_last,
                    self@.blocks.dom().len(),
                ),
    {
        let mut out: Vec<TreeRow> = Vec::new();
        proof {
            self.lemma_child_listing();
            self.lemma_block_count();
        }
        self.push_branch_rows(block_hash, ancestors_last, is_last, main_chain_set, self.blocks.len(), &mut out);
        assert(row_models(out@) =~= branch_rows(
            self@,
            self.child_listing(),
            main_chain_set@,
            block_hash@,
            ancestors_last@,
            is_last,
            self@.blocks.dom().len(),
        ));
        out
    }

    /// The rows of the drawing of the tree: from the oldest block of a main
    /// chain down, depth first, each block's children in some order that
    /// lists each once, with the blocks of that main chain marked. No rows
    /// when no block is held.
    pub fn tree_rows(&self) -> (r: Result<Vec<TreeRow>, String>)
        requires
            self.wf(),
        ensures
            r matches Ok(v) && exists|m: Seq<BlockModel>, kids: spec_fn(Seq<char>) -> Seq<Seq<char>>|
                #![trigger is_main_chain(self@, m), lists_children(self@, kids)]
                is_main_chain(self@, m) && lists_children(self@, kids) && row_models(v@) == if m.len() == 0 {
                    Seq::<RowModel>::empty()
                } else {
                    branch_rows(
                        self@,
                        kids,
                        hashes_of(m).to_set(),
                        m.last().hash,
                        Seq::empty(),
                        true,
                        self@.blocks.dom().len(),
                    )
                },
    {
        let main_chain: Vec<Block> = match self.get_main_chain() {
            Ok(c) => c,
            Err(e) => {
                return Err(e);
            },
        };
        let ghost m: Seq<BlockModel> = block_models(main_chain@);
        let mut out: Vec<TreeRow> = Vec::new();
        proof {
            self.lemma_child_listing();
        }
        if main_chain.len() == 0 {
            assert(row_models(out@) =~= Seq::<RowModel>::empty());
            return Ok(out);
        }
        let mut main: StringSet = StringSet::new();
        let n: usize = main_chain.len();
        let mut k: usize = 0;
        while k < n
            invariant
                n == main_chain@.len(),
                m == block_models(main_chain@),
                k <= n,
                main@ == hashes_of(m.take(k as int)).to_set(),
            decreases n - k,
        {
            let ghost before: Seq<Seq<char>> = hashes_of(m.take(k as int));
            main.insert(main_chain[k].hash.clone());
            proof {
                assert(hashes_of(m.take(k + 1)) =~= before.push(m[k as int].hash));
                before.lemma_push_to_set_commute(m[k as int].hash);
            }
            k = k + 1;
        }
        assert(m.take(n as int) =~= m);
        let no_flags: Vec<bool> = Vec::new();
        proof {
            self.lemma_block_count();
            assert(m.last().hash == main_chain@[n - 1]@.hash);
            assert(no_flags@ =~= Seq::<bool>::empty());
        }
        self.push_branch_rows(&main_chain[n - 1].hash, &no_flags, true, &main, self.blocks.len(), &mut out);
        proof {
            assert(row_models(out@) =~= branch_rows(
                self@,
                self.child_listing(),
                hashes_of(m).to_set(),
                m.last().hash,
                Seq::empty(),
                true,
                self@.blocks.dom().len(),
            ));
        }
        Ok(out)
    }

    /// The hashes of all held blocks, each once.
    pub fn block_hashes(&self) -> (r: Vec<String>)
        requires
            self.wf(),
        ensures
            string_views(r@).to_set() == self@.blocks.dom(),
            string_views(r@).no_duplicates(),
    {
        let n: usize = self.blocks.len();
        let mut out: Vec<String> = Vec::new();
        let mut i: usize = 0;
        while i < n
            invariant
                self.wf(),
                n == self.blocks@.len(),
                i <= n,
                out@.len() == i,
                forall|j: int| 0 <= j < i ==> (#[trigger] out@[j])@ == self.blocks@[j].hash@,
            decreases n - i,
        {
            out.push(self.blocks[i].hash.clone());
            i = i + 1;
        }
        proof {
            let sv: Seq<Seq<char>> = string_views(out@);
            assert forall|h: Seq<char>| sv.to_set().contains(h) <==> self@.blocks.dom().contains(h) by {
                if sv.to_set().contains(h) {
                    let j: int = choose|j: int| 0 <= j < sv.len() && sv[j] == h;
                    assert(self.blocks@[j].hash@ == h);
                    assert(has_hash(self.blocks@, h));
                }
                if self@.blocks.dom().contains(h) {
                    let j: int = hash_index(self.blocks@, h);
                    assert(sv[j] == h);
                }
            }
            assert(sv.to_set() =~= self@.blocks.dom());
            assert forall|a: int, b: int| 0 <= a < sv.len() && 0 <= b < sv.len() && a != b implies sv[a] != sv[b] by {
                assert(sv[a] == self.blocks@[a].hash@);
                assert(sv[b] == self.blocks@[b].hash@);
            }
        }
        out
    }

    /// The trunk: from a genesis block (the first found), the blocks met
    /// while each has exactly one child; see [`trunk_from`].
    pub fn get_trunk(&self) -> (r: Result<Vec<Block>, String>)
        requires
            self.wf(),
            exists|h: Seq<char>| #[trigger] is_genesis_of(self@, h),
        ensures
            r matches Ok(v) && exists|g: Seq<char>| #[trigger] is_genesis_of(self@, g)
                && block_models(v@) == trunk_from(self@, g, self@.blocks.dom().len()),
    {
        proof {
            self.lemma_wf_facts();
            self.lemma_block_count();
        }
        let genesis: Option<(Block, StringSet)> = match self.compute_genesis_block() {
            Ok(o) => o,
            Err(e) => {
                return Err(e);
            },
        };
        let (first, first_kids) = match genesis {
            Some(pair) => pair,
            None => {
                proof {
                    let h: Seq<char> = choose|h: Seq<char>| #[trigger] is_genesis_of(self@, h);
                }
                return Ok(Vec::new());
            },
        };
        let ghost g: Seq<char> = first@.hash;
        let ghost total: Seq<BlockModel> = trunk_from(self@, g, self@.blocks.dom().len());
        let mut trunk: Vec<Block> = Vec::new();
        let mut block: Block = first;
        let mut kids: StringSet = first_kids;
        let mut fuel: usize = self.blocks.len();
        let mut done: bool = false;
        while fuel > 0 && !done && kids.len() == 1
            invariant
                self.wf(),
                forall|h: Seq<char>| #[trigger] self@.blocks.dom().contains(h) ==> self@.blocks[h].hash == h,
                forall|h: Seq<char>, c: Seq<char>|
                    self@.children.dom().contains(h) && #[trigger] self@.children[h].contains(c)
                        ==> self@.blocks.dom().contains(c),
                self@.blocks.dom() == self@.children.dom(),
                done ==> fuel > 0,
                !done ==> self@.blocks.dom().contains(block@.hash) && block@ == self@.blocks[block@.hash]
                    && kids@ == self@.children[block@.hash],
                !done ==> block_models(trunk@) + trunk_from(self@, block@.hash, fuel as nat) == total,
                done ==> block_models(trunk@) == total,
            decreases fuel, if done { 0int } else { 1int },
        {
            let next: Vec<String> = kids.to_vec();
            let child: String = next[0].clone();
            proof {
                let kv: Seq<Seq<char>> = string_views(next@);
                assert(kv[0] == child@);
                assert(kv.to_set().contains(child@));
                lemma_single_choose(self@.children[block@.hash], child@);
            }
            let ghost before: Seq<BlockModel> = block_models(trunk@);
            let ghost bm: BlockModel = block@;
            trunk.push(block.clone());
            assert(block_models(trunk@) =~= before.push(bm));
            match self.find_block(&child) {
                Some(i) => {
                    block = self.blocks[i].clone();
                    kids = self.children[i].clone();
                    proof {
                        lemma_hash_index(self.blocks@, i as int);
                    }
                    fuel = fuel - 1;
                    assert(block_models(trunk@) + trunk_from(self@, block@.hash, fuel as nat) =~= total);
                },
                None => {
                    proof {
                        assert(self@.children[bm.hash].contains(child@));
                    }
                    done = true;
                },
            }
        }
        proof {
            if !done {
                assert(trunk_from(self@, block@.hash, fuel as nat) =~= Seq::<BlockModel>::empty());
                assert(block_models(trunk@) =~= total);
            }
        }
        Ok(trunk)
    }

    /// Whether the trunk is tall compared with a main chain; see
    /// [`trunk_is_tall`].
    pub fn is_trunk_tall(&self) -> (r: Result<bool, String>)
        requires
            self.wf(),
            exists|h: Seq<char>| #[trigger] is_genesis_of(self@, h),
        ensures
            r matches Ok(b) && exists|g: Seq<char>, m: Seq<BlockModel>|
                #![trigger is_genesis_of(self@, g), is_main_chain(self@, m)]
                is_genesis_of(self@, g) && is_main_chain(self@, m) && b == trunk_is_tall(
                    trunk_from(self@, g, self@.blocks.dom().len()).len(),
                    m.len(),
                ),
    {
        let trunk: Vec<Block> = match self.get_trunk() {
            Ok(t) => t,
            Err(e) => {
                return Err(e);
            },
        };
        let main_chain: Vec<Block> = match self.get_main_chain() {
            Ok(c) => c,
            Err(e) => {
                return Err(e);
            },
        };
        let len: usize = main_chain.len();
        let mut log: usize = 0;
        let mut rest: usize = len;
        proof {
            lemma_floor_log2_bound(len as nat);
        }
        while rest > 1
            invariant
                rest <= len,
                log + floor_log2(rest as nat) == floor_log2(len as nat),
                2 * floor_log2(len as nat) <= len,
            decreases rest,
        {
            rest = rest / 2;
            log = log + 1;
        }
        proof {
            lemma_floor_log2_bound(len as nat);
        }
        let tall: bool = trunk.len() >= len - 2 * log;
        proof {
            assert(block_models(trunk@).len() == trunk@.len());
            assert(block_models(main_chain@).len() == main_chain@.len());
        }
        Ok(tall)
    }

    /// The transactions of a main chain, tip block first; see
    /// [`all_transactions`].
    pub fn main_chain_transactions(&self) -> (r: Result<Vec<Transaction>, String>)
        requires
            self.wf(),
        ensures
            r matches Ok(v) && exists|m: Seq<BlockModel>| #[trigger] is_main_chain(self@, m) && txn_models(v@)
                == all_transactions(m),
    {
        let main_chain: Vec<Block> = match self.get_main_chain() {
            Ok(c) => c,
            Err(e) => {
                return Err(e);
            },
        };
        let ghost m: Seq<BlockModel> = block_models(main_chain@);
        let mut out: Vec<Transaction> = Vec::new();
        let n: usize = main_chain.len();
        let mut i: usize = 0;
        while i < n
            invariant
                n == main_chain@.len(),
                m == block_models(main_chain@),
                i <= n,
                txn_models(out@) == all_transactions(m.take(i as int)),
            decreases n - i,
        {
            let txns: &super::txset::TransactionSet = &main_chain[i].transactions;
            let ghost start: Seq<TransactionModel> = txn_models(out@);
            let count: usize = txns.len();
            let mut j: usize = 0;
            while j < count
                invariant
                    count == txns@.len(),
                    j <= count,
                    txn_models(out@) == start + txns@.take(j as int),
                decreases count - j,
            {
                let ghost before: Seq<Transaction> = out@;
                let t: Transaction = txns.get(j).clone();
                out.push(t);
                assert(txns@.take(j + 1) =~= txns@.take(j as int).push(txns@[j as int]));
                assert(txn_models(out@) =~= txn_models(before).push(txns@[j as int]));
                assert(txn_models(out@) =~= start + txns@.take(j + 1));
                j = j + 1;
            }
            proof {
                assert(txns@.take(count as int) =~= txns@);
                assert(m.take(i + 1).drop_last() =~= m.take(i as int));
                assert(m.take(i + 1).last() == main_chain@[i as int]@);
            }
            i = i + 1;
        }
        assert(m.take(n as int) =~= m);
        Ok(out)
    }

    /// How many of `transactions` occur in a main chain.
    pub fn count_included_transactions(&self, transactions: &Vec<Transaction>) -> (r: Result<usize, String>)
        requires
            self.wf(),
        ensures
            r matches Ok(c) && exists|m: Seq<BlockModel>| #[trigger] is_main_chain(self@, m) && c
                == count_included(txn_models(transactions@), all_transactions(m)),
    {
        let chain_txns: Vec<Transaction> = match self.main_chain_transactions() {
            Ok(v) => v,
            Err(e) => {
                return Err(e);
            },
        };
        let ghost pool: Seq<TransactionModel> = txn_models(chain_txns@);
        let n: usize = transactions.len();
        let mut count: usize = 0;
        let mut i: usize = 0;
        while i < n
            invariant
                n == transactions@.len(),
                pool == txn_models(chain_txns@),
                i <= n,
                count == count_included(txn_models(transactions@).take(i as int), pool),
                count <= i,
            decreases n - i,
        {
            let t: &Transaction = &transactions[i];
            let p: usize = chain_txns.len();
            let mut j: usize = 0;
            let mut found: bool = false;
            while j < p && !found
                invariant
                    p == chain_txns@.len(),
                    pool == txn_models(chain_txns@),
                    j <= p,
                    found ==> pool.contains(t@),
                    !found ==> forall|q: int| 0 <= q < j ==> pool[q] != t@,
                decreases p - j, if found { 0int } else { 1int },
            {
                if chain_txns[j].compare(t) == 0 {
                    assert(pool[j as int] == t@);
                    found = true;
                } else {
                    j = j + 1;
                }
            }
            proof {
                let l: Seq<TransactionModel> = txn_models(transactions@).take(i + 1);
                assert(l.drop_last() =~= txn_models(transactions@).take(i as int));
                assert(l.last() == t@);
            }
            if found {
                count = count + 1;
            }
            i = i + 1;
        }
        assert(txn_models(transactions@).take(n as int) =~= txn_models(transactions@));
        Ok(count)
    }
}

impl Default for Blockchain {
    fn default() -> (r: Self)
        ensures
            r.wf(),
            r@ == empty_chain(),
            r.metadata_spec() == (BlockchainMetadata {
                query_slots: 4,
                slot_secs: 8,
                fork_resolution_slots: 8,
                block_size: 64,
                maximum_proposer_time: 2,
                mempool_reentrancy_secs: 2,
                transaction_expiry_secs: 32,
                difficulty: 8,
                proposer_wait_ms: 100,
            }),
    {
        Blockchain::new(Arc::new(BlockchainMetadata::default()))
    }
}

fn copy_flags(v: &Vec<bool>) -> (r: Vec<bool>)
    ensures
        r@ == v@,
{
    let mut r: Vec<bool> = Vec::new();
    let n: usize = v.len();
    let mut i: usize = 0;
    while i < n
        invariant
            n == v@.len(),
            i <= n,
            r@ == v@.take(i as int),
        decreases n - i,
    {
        r.push(v[i]);
        assert(v@.take(i + 1) =~= v@.take(i as int).push(v@[i as int]));
        i = i + 1;
    }
    assert(v@.take(n as int) =~= v@);
    r
}

} // verus!
