//! A set of strings (block hashes), held without repeats.
use vstd::prelude::*;

verus! {

/// The texts of a list of strings.
pub open spec fn string_views(s: Seq<String>) -> Seq<Seq<char>> {
    Seq::new(s.len(), |i: int| s[i]@)
}

/// A set of strings. Its view is the set of their texts.
#[derive(Debug)]
pub struct StringSet {
    items: Vec<String>,
}

impl View for StringSet {
    type V = Set<Seq<char>>;

    closed spec fn view(&self) -> Set<Seq<char>> {
        string_views(self.items@).to_set()
    }
}

impl StringSet {
    #[verifier::type_invariant]
    spec fn distinct(self) -> bool {
        string_views(self.items@).no_duplicates()
    }

    /// The empty set.
    pub fn new() -> (r: Self)
        ensures
            r@ == Set::<Seq<char>>::empty(),
            r.listing().no_duplicates(),
    {
        let r: StringSet = StringSet { items: Vec::new() };
        assert(string_views(r.items@) =~= Seq::<Seq<char>>::empty());
        assert(r@ =~= Set::<Seq<char>>::empty());
        r
    }

    /// The number of strings.
    pub fn len(&self) -> (r: usize)
        ensures
            r == self@.len(),
            self@.finite(),
    {
        proof {
            use_type_invariant(self);
            string_views(self.items@).unique_seq_to_set();
        }
        self.items.len()
    }

    /// Whether the set holds `s`.
    pub fn contains(&self, s: &String) -> (r: bool)
        ensures
            r == self@.contains(s@),
    {
        let n: usize = self.items.len();
        let mut i: usize = 0;
        while i < n
            invariant
                n == self.items@.len(),
                i <= n,
                forall|j: int| 0 <= j < i ==> self.items@[j]@ != s@,
            decreases n - i,
        {
            if self.items[i] == *s {
                assert(string_views(self.items@)[i as int] == s@);
                return true;
            }
            i = i + 1;
        }
        assert(!string_views(self.items@).contains(s@)) by {
            assert forall|j: int| 0 <= j < n implies string_views(self.items@)[j] != s@ by {
                assert(string_views(self.items@)[j] == self.items@[j]@);
            }
        }
        false
    }

    /// Adds `s`; returns whether it was absent.
    pub fn insert(&mut self, s: String) -> (r: bool)
        ensures
            final(self)@ == old(self)@.insert(s@),
            r == !old(self)@.contains(s@),
            final(self).listing().no_duplicates(),
    {
        proof {
            use_type_invariant(&*self);
        }
        if self.contains(&s) {
            assert(self@.insert(s@) =~= self@);
            return false;
        }
        proof {
            use_type_invariant(&*self);
        }
        let ghost old_views: Seq<Seq<char>> = string_views(self.items@);
        let mut items: Vec<String> = Vec::new();
        std::mem::swap(&mut items, &mut self.items);
        let ghost sv: Seq<char> = s@;
        items.push(s);
        proof {
            assert(string_views(items@) =~= old_views.push(sv));
            assert(string_views(items@).no_duplicates()) by {
                assert forall|a: int, b: int|
                    0 <= a < string_views(items@).len() && 0 <= b < string_views(items@).len() && a
                        != b implies string_views(items@)[a] != string_views(items@)[b] by {
                    if a < old_views.len() && b < old_views.len() {
                        assert(old_views[a] != old_views[b]);
                    } else if a < old_views.len() {
                        assert(old_views.contains(old_views[a]));
                    } else {
                        assert(old_views.contains(old_views[b]));
                    }
                }
            }
        }
        self.items = items;
        assert(self@ =~= old_views.to_set().insert(sv)) by {
            let nv: Seq<Seq<char>> = string_views(self.items@);
            assert(nv =~= old_views.push(sv));
            assert forall|x: Seq<char>| nv.to_set().contains(x) implies old_views.to_set().insert(
                sv,
            ).contains(x) by {
                let k: int = choose|k: int| 0 <= k < nv.len() && nv[k] == x;
                if k < old_views.len() {
                    assert(old_views[k] == x);
                }
            }
            assert forall|x: Seq<char>| old_views.to_set().insert(sv).contains(x) implies nv.to_set().contains(
                x,
            ) by {
                if x == sv {
                    assert(nv[old_views.len() as int] == x);
                } else {
                    let k: int = choose|k: int| 0 <= k < old_views.len() && old_views[k] == x;
                    assert(nv[k] == x);
                }
            }
        }
        true
    }

    /// Removes `s`; returns whether it was present.
    pub fn remove(&mut self, s: &String) -> (r: bool)
        ensures
            final(self)@ == old(self)@.remove(s@),
            r == old(self)@.contains(s@),
            final(self).listing().no_duplicates(),
    {
        proof {
            use_type_invariant(&*self);
        }
        let n: usize = self.items.len();
        let mut i: usize = 0;
        while i < n && !(self.items[i] == *s)
            invariant
                n == self.items@.len(),
                i <= n,
                forall|j: int| 0 <= j < i ==> self.items@[j]@ != s@,
            decreases n - i,
        {
            i = i + 1;
        }
        let ghost old_views: Seq<Seq<char>> = string_views(self.items@);
        if i == n {
            assert(!old_views.contains(s@)) by {
                assert forall|j: int| 0 <= j < n implies old_views[j] != s@ by {
                    assert(old_views[j] == self.items@[j]@);
                }
            }
            assert(self@.remove(s@) =~= self@);
            return false;
        }
        assert(old_views[i as int] == s@);
        let mut items: Vec<String> = Vec::new();
        std::mem::swap(&mut items, &mut self.items);
        let _gone: String = items.remove(i);
        proof {
            assert(string_views(items@) =~= old_views.remove(i as int));
            assert(string_views(items@).no_duplicates()) by {
                assert forall|a: int, b: int|
                    0 <= a < string_views(items@).len() && 0 <= b < string_views(items@).len() && a
                        != b implies string_views(items@)[a] != string_views(items@)[b] by {
                    let a1: int = if a < i {
                        a
                    } else {
                        a + 1
                    };
                    let b1: int = if b < i {
                        b
                    } else {
                        b + 1
                    };
                    assert(string_views(items@)[a] == old_views[a1]);
                    assert(string_views(items@)[b] == old_views[b1]);
                }
            }
        }
        self.items = items;
        assert(self@ =~= old_views.to_set().remove(s@)) by {
            let nv: Seq<Seq<char>> = string_views(self.items@);
            assert(nv =~= old_views.remove(i as int));
            assert forall|x: Seq<char>| nv.to_set().contains(x) implies old_views.to_set().remove(
                s@,
            ).contains(x) by {
                let k: int = choose|k: int| 0 <= k < nv.len() && nv[k] == x;
                if k < i {
                    assert(old_views[k] == x);
                    assert(k != i);
                } else {
                    assert(old_views[k + 1] == x);
                }
            }
            assert forall|x: Seq<char>| old_views.to_set().remove(s@).contains(x) implies nv.to_set().contains(
                x,
            ) by {
                let k: int = choose|k: int| 0 <= k < old_views.len() && old_views[k] == x;
                assert(k != i);
                if k < i {
                    assert(nv[k] == x);
                } else {
                    assert(nv[k - 1] == x);
                }
            }
        }
        true
    }

    /// The order in which [`StringSet::to_vec`] lists the strings.
    pub closed spec fn listing(&self) -> Seq<Seq<char>> {
        string_views(self.items@)
    }

    /// The listing holds the strings of the set.
    pub proof fn lemma_listing_set(&self)
        ensures
            self.listing().to_set() == self@,
    {
    }

    /// The strings of the set, each once, in the order of its listing.
    pub fn to_vec(&self) -> (r: Vec<String>)
        ensures
            string_views(r@).to_set() == self@,
            string_views(r@).no_duplicates(),
            r@.len() == self@.len(),
            string_views(r@) == self.listing(),
    {
        proof {
            use_type_invariant(self);
            string_views(self.items@).unique_seq_to_set();
        }
        let r: Vec<String> = self.items.clone();
        assert(string_views(r@) =~= string_views(self.items@)) by {
            assert forall|j: int| 0 <= j < r@.len() implies r@[j]@ == self.items@[j]@ by {
                assert(r@[j] == self.items@[j]);
            }
        }
        r
    }
}

impl Clone for StringSet {
    fn clone(&self) -> (r: Self)
        ensures
            r@ == self@,
            r.listing() == self.listing(),
    {
        proof {
            use_type_invariant(self);
        }
        let items: Vec<String> = self.items.clone();
        assert(string_views(items@) =~= string_views(self.items@)) by {
            assert forall|j: int| 0 <= j < items@.len() implies items@[j]@ == self.items@[j]@ by {
                assert(items@[j] == self.items@[j]);
            }
        }
        StringSet { items }
    }
}

} // verus!
