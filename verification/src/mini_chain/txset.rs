//! A set of transactions kept in ascending transaction order.
use vstd::prelude::*;
use super::block::{Transaction, TransactionModel};
use super::order::{compare_transaction, lemma_transaction_basic, lemma_transaction_trans};

verus! {

/// The abstract values of a list of transactions.
pub open spec fn transaction_models(s: Seq<Transaction>) -> Seq<TransactionModel> {
    Seq::new(s.len(), |i: int| s[i]@)
}

/// Every transaction comes strictly before the ones after it.
pub open spec fn is_strictly_sorted(s: Seq<TransactionModel>) -> bool {
    forall|i: int, j: int| 0 <= i < j < s.len() ==> compare_transaction(s[i], s[j]) < 0
}

/// A set of transactions, held in ascending order without repeats. Its view
/// is that ascending sequence.
#[derive(Debug, PartialEq, Eq, PartialOrd, Ord, Hash)]
pub struct TransactionSet {
    items: Vec<Transaction>,
}

impl View for TransactionSet {
    type V = Seq<TransactionModel>;

    closed spec fn view(&self) -> Seq<TransactionModel> {
        transaction_models(self.items@)
    }
}

/// A strictly sorted sequence holds no transaction twice.
pub proof fn lemma_sorted_no_duplicates(s: Seq<TransactionModel>)
    requires
        is_strictly_sorted(s),
    ensures
        s.no_duplicates(),
{
    assert forall|i: int, j: int| 0 <= i < s.len() && 0 <= j < s.len() && i != j implies s[i]
        != s[j] by {
        if i < j {
            lemma_transaction_basic(s[i], s[j]);
        } else {
            lemma_transaction_basic(s[j], s[i]);
        }
    }
}

/// Two strictly sorted sequences that hold the same transactions are the
/// same sequence: the order of a set is determined by its members.
pub proof fn lemma_sorted_unique(a: Seq<TransactionModel>, b: Seq<TransactionModel>)
    requires
        is_strictly_sorted(a),
        is_strictly_sorted(b),
        a.to_set() == b.to_set(),
    ensures
        a == b,
    decreases a.len(),
{
    lemma_sorted_no_duplicates(a);
    lemma_sorted_no_duplicates(b);
    a.unique_seq_to_set();
    b.unique_seq_to_set();
    if a.len() == 0 {
        assert(b.len() == 0);
        assert(a =~= b);
    } else {
        assert(b.len() == a.len());
        assert(a.to_set().contains(a[0]));
        assert(b.to_set().contains(a[0]));
        assert(b.to_set().contains(b[0]));
        assert(a.to_set().contains(b[0]));
        let i: int = choose|i: int| 0 <= i < b.len() && b[i] == a[0];
        let j: int = choose|j: int| 0 <= j < a.len() && a[j] == b[0];
        if a[0] != b[0] {
            assert(i > 0);
            assert(j > 0);
            assert(compare_transaction(b[0], a[0]) < 0);
            assert(compare_transaction(a[0], b[0]) < 0);
            lemma_transaction_basic(a[0], b[0]);
        }
        let a1: Seq<TransactionModel> = a.drop_first();
        let b1: Seq<TransactionModel> = b.drop_first();
        assert(a1.to_set() =~= b1.to_set()) by {
            assert forall|x: TransactionModel| a1.to_set().contains(x) implies b1.to_set().contains(
                x,
            ) by {
                let k: int = choose|k: int| 0 <= k < a1.len() && a1[k] == x;
                assert(a[k + 1] == x);
                assert(b.to_set().contains(x));
                let m: int = choose|m: int| 0 <= m < b.len() && b[m] == x;
                if m == 0 {
                    lemma_transaction_basic(a[0], a[k + 1]);
                }
                assert(m > 0);
                assert(b1[m - 1] == x);
            }
            assert forall|x: TransactionModel| b1.to_set().contains(x) implies a1.to_set().contains(
                x,
            ) by {
                let k: int = choose|k: int| 0 <= k < b1.len() && b1[k] == x;
                assert(b[k + 1] == x);
                assert(a.to_set().contains(x));
                let m: int = choose|m: int| 0 <= m < a.len() && a[m] == x;
                if m == 0 {
                    lemma_transaction_basic(b[0], b[k + 1]);
                }
                assert(m > 0);
                assert(a1[m - 1] == x);
            }
        }
        lemma_sorted_unique(a1, b1);
        assert(a =~= b) by {
            assert forall|k: int| 0 <= k < a.len() implies a[k] == b[k] by {
                if k > 0 {
                    assert(a[k] == a1[k - 1]);
                    assert(b[k] == b1[k - 1]);
                }
            }
        }
    }
}

impl TransactionSet {
    #[verifier::type_invariant]
    spec fn ascending(self) -> bool {
        is_strictly_sorted(transaction_models(self.items@))
    }

    /// The empty set.
    pub fn new() -> (r: Self)
        ensures
            r@ == Seq::<TransactionModel>::empty(),
            is_strictly_sorted(r@),
    {
        let r: TransactionSet = TransactionSet { items: Vec::new() };
        assert(r@ =~= Seq::<TransactionModel>::empty());
        r
    }

    /// The number of transactions.
    pub fn len(&self) -> (r: usize)
        ensures
            r == self@.len(),
            is_strictly_sorted(self@),
            self@.no_duplicates(),
    {
        proof {
            use_type_invariant(self);
            lemma_sorted_no_duplicates(self@);
        }
        self.items.len()
    }

    /// The transaction at position `i` in ascending order.
    pub fn get(&self, i: usize) -> (r: &Transaction)
        requires
            i < self@.len(),
        ensures
            r@ == self@[i as int],
    {
        &self.items[i]
    }

    /// Whether the set holds `t`.
    pub fn contains(&self, t: &Transaction) -> (r: bool)
        ensures
            r == self@.contains(t@),
    {
        let n: usize = self.items.len();
        let mut i: usize = 0;
        while i < n
            invariant
                n == self.items@.len(),
                i <= n,
                forall|j: int| 0 <= j < i ==> self.items@[j]@ != t@,
            decreases n - i,
        {
            if self.items[i].compare(t) == 0 {
                assert(self@[i as int] == t@);
                return true;
            }
            i = i + 1;
        }
        assert forall|j: int| 0 <= j < self@.len() implies self@[j] != t@ by {
            assert(self@[j] == self.items@[j]@);
        }
        false
    }

    /// Adds `t`; returns whether it was absent.
    pub fn insert(&mut self, t: Transaction) -> (r: bool)
        ensures
            final(self)@.to_set() == old(self)@.to_set().insert(t@),
            final(self)@.len() == old(self)@.len() + if r {
                1int
            } else {
                0int
            },
            r == !old(self)@.contains(t@),
            is_strictly_sorted(final(self)@),
    {
        proof {
            use_type_invariant(&*self);
        }
        let n: usize = self.items.len();
        let mut i: usize = 0;
        while i < n && self.items[i].compare(&t) < 0
            invariant
                n == self.items@.len(),
                i <= n,
                is_strictly_sorted(transaction_models(self.items@)),
                forall|j: int| 0 <= j < i ==> compare_transaction(self.items@[j]@, t@) < 0,
            decreases n - i,
        {
            i = i + 1;
        }
        if i < n && self.items[i].compare(&t) == 0 {
            proof {
                assert(self@[i as int] == t@);
            }
            return false;
        }
        let ghost old_view: Seq<TransactionModel> = self@;
        proof {
            assert forall|j: int| 0 <= j < old_view.len() implies old_view[j] != t@ by {
                assert(old_view[j] == self.items@[j]@);
                if j < i {
                    lemma_transaction_basic(old_view[j], t@);
                } else {
                    if i < n {
                        lemma_transaction_basic(self.items@[i as int]@, t@);
                        if j > i {
                            lemma_transaction_basic(old_view[i as int], old_view[j]);
                        }
                    }
                }
            }
        }
        let mut items: Vec<Transaction> = Vec::new();
        std::mem::swap(&mut items, &mut self.items);
        let ghost tm: TransactionModel = t@;
        items.insert(i, t);
        let ghost nv: Seq<TransactionModel> = transaction_models(items@);
        proof {
            assert(nv =~= old_view.insert(i as int, tm));
            assert forall|a: int, b: int| 0 <= a < b < nv.len() implies compare_transaction(
                nv[a],
                nv[b],
            ) < 0 by {
                if b < i {
                    assert(nv[a] == old_view[a] && nv[b] == old_view[b]);
                } else if b == i {
                    assert(nv[a] == old_view[a]);
                } else if a == i {
                    assert(nv[b] == old_view[b - 1]);
                    lemma_transaction_basic(old_view[i as int], tm);
                    if b - 1 > i {
                        lemma_transaction_trans(tm, old_view[i as int], old_view[b - 1]);
                    }
                } else if a < i {
                    assert(nv[a] == old_view[a] && nv[b] == old_view[b - 1]);
                } else {
                    assert(nv[a] == old_view[a - 1] && nv[b] == old_view[b - 1]);
                }
            }
        }
        self.items = items;
        proof {
            assert(self@ =~= old_view.insert(i as int, tm));
            assert(self@.to_set() =~= old_view.to_set().insert(tm)) by {
                assert forall|x: TransactionModel| self@.to_set().contains(x) implies old_view.to_set().insert(
                    tm,
                ).contains(x) by {
                    let k: int = choose|k: int| 0 <= k < self@.len() && self@[k] == x;
                    if k < i {
                        assert(old_view[k] == x);
                    } else if k > i {
                        assert(old_view[k - 1] == x);
                    }
                }
                assert forall|x: TransactionModel| old_view.to_set().insert(tm).contains(
                    x,
                ) implies self@.to_set().contains(x) by {
                    if x == tm {
                        assert(self@[i as int] == x);
                    } else {
                        let k: int = choose|k: int| 0 <= k < old_view.len() && old_view[k] == x;
                        if k < i {
                            assert(self@[k] == x);
                        } else {
                            assert(self@[k + 1] == x);
                        }
                    }
                }
            }
        }
        true
    }

    /// Removes `t`; returns whether it was present.
    pub fn remove(&mut self, t: &Transaction) -> (r: bool)
        ensures
            final(self)@.to_set() == old(self)@.to_set().remove(t@),
            final(self)@.len() == old(self)@.len() - if r {
                1int
            } else {
                0int
            },
            r == old(self)@.contains(t@),
            is_strictly_sorted(final(self)@),
    {
        proof {
            use_type_invariant(&*self);
            lemma_sorted_no_duplicates(self@);
        }
        let n: usize = self.items.len();
        let mut i: usize = 0;
        while i < n && self.items[i].compare(t) != 0
            invariant
                n == self.items@.len(),
                i <= n,
                is_strictly_sorted(transaction_models(self.items@)),
                forall|j: int| 0 <= j < i ==> self.items@[j]@ != t@,
            decreases n - i,
        {
            i = i + 1;
        }
        if i == n {
            proof {
                assert forall|j: int| 0 <= j < self@.len() implies self@[j] != t@ by {
                    assert(self@[j] == self.items@[j]@);
                }
                assert(self@.to_set().remove(t@) =~= self@.to_set());
            }
            return false;
        }
        let ghost old_view: Seq<TransactionModel> = self@;
        assert(old_view[i as int] == t@);
        let mut items: Vec<Transaction> = Vec::new();
        std::mem::swap(&mut items, &mut self.items);
        let _removed: Transaction = items.remove(i);
        let ghost nv: Seq<TransactionModel> = transaction_models(items@);
        proof {
            assert(nv =~= old_view.remove(i as int));
            assert forall|a: int, b: int| 0 <= a < b < nv.len() implies compare_transaction(
                nv[a],
                nv[b],
            ) < 0 by {
                if b < i {
                    assert(nv[a] == old_view[a] && nv[b] == old_view[b]);
                } else if a < i {
                    assert(nv[a] == old_view[a] && nv[b] == old_view[b + 1]);
                } else {
                    assert(nv[a] == old_view[a + 1] && nv[b] == old_view[b + 1]);
                }
            }
        }
        self.items = items;
        proof {
            assert(self@ =~= old_view.remove(i as int));
            assert(self@.to_set() =~= old_view.to_set().remove(t@)) by {
                assert forall|x: TransactionModel| self@.to_set().contains(x) implies old_view.to_set().remove(
                    t@,
                ).contains(x) by {
                    let k: int = choose|k: int| 0 <= k < self@.len() && self@[k] == x;
                    if k < i {
                        assert(old_view[k] == x);
                    } else {
                        assert(old_view[k + 1] == x);
                    }
                }
                assert forall|x: TransactionModel| old_view.to_set().remove(t@).contains(
                    x,
                ) implies self@.to_set().contains(x) by {
                    let k: int = choose|k: int| 0 <= k < old_view.len() && old_view[k] == x;
                    if k < i {
                        assert(self@[k] == x);
                    } else {
                        assert(k != i);
                        assert(self@[k - 1] == x);
                    }
                }
            }
        }
        true
    }
}

impl Clone for TransactionSet {
    fn clone(&self) -> (r: Self)
        ensures
            r@ == self@,
            is_strictly_sorted(r@),
    {
        proof {
            use_type_invariant(self);
        }
        let n: usize = self.items.len();
        let mut items: Vec<Transaction> = Vec::new();
        let mut i: usize = 0;
        while i < n
            invariant
                n == self.items@.len(),
                i <= n,
                items@.len() == i,
                forall|j: int| 0 <= j < i ==> #[trigger] items@[j]@ == self.items@[j]@,
            decreases n - i,
        {
            items.push(self.items[i].clone());
            i = i + 1;
        }
        assert(transaction_models(items@) =~= transaction_models(self.items@));
        TransactionSet { items }
    }
}

} // verus!
