//! A set that keeps its elements in arrival order.
use vstd::prelude::*;
use crate::collections::keys::KeyModel;

verus! {

/// Set of keys, each held once, in the order in which they arrived.
pub struct OrderedSet<K> {
    items: Vec<K>,
}

impl<K: KeyModel> OrderedSet<K> {
    /// The elements, by their models, in arrival order.
    pub closed spec fn item_seq(self) -> Seq<K::V> {
        self.items@.map_values(|k: K| k@)
    }

    pub closed spec fn wf(self) -> bool {
        self.item_seq().no_duplicates()
    }

    /// The set as a mathematical set of models.
    pub open spec fn set(self) -> Set<K::V> {
        self.item_seq().to_set()
    }

    pub fn new() -> (s: Self)
        ensures
            s.wf(),
            s.item_seq() == Seq::<K::V>::empty(),
            s.set() == Set::<K::V>::empty(),
    {
        let s = OrderedSet { items: Vec::new() };
        assert(s.item_seq() =~= Seq::<K::V>::empty());
        assert(s.set() =~= Set::<K::V>::empty());
        s
    }

    pub fn len(&self) -> (n: usize)
        ensures
            n == self.item_seq().len(),
    {
        self.items.len()
    }

    pub fn contains(&self, k: &K) -> (r: bool)
        ensures
            r == self.set().contains(k@),
    {
        let mut i: usize = 0;
        while i < self.items.len()
            invariant
                0 <= i <= self.items@.len(),
                forall|j: int| 0 <= j < i ==> self.item_seq()[j] != k@,
            decreases self.items@.len() - i,
        {
            if self.items[i].same_key(k) {
                proof {
                    assert(self.item_seq()[i as int] == k@);
                    assert(self.item_seq().contains(k@));
                }
                return true;
            }
            i = i + 1;
        }
        proof {
            if self.item_seq().contains(k@) {
                let j = self.item_seq().index_of(k@);
                assert(self.item_seq()[j] == k@);
            }
        }
        false
    }

    /// Adds `k` at the end unless it is held already; says whether it was new.
    pub fn insert(&mut self, k: K) -> (added: bool)
        requires
            old(self).wf(),
        ensures
            final(self).wf(),
            final(self).set() == old(self).set().insert(k@),
            added == !old(self).set().contains(k@),
            added ==> final(self).item_seq() == old(self).item_seq().push(k@),
            !added ==> final(self).item_seq() == old(self).item_seq(),
    {
        if self.contains(&k) {
            assert(old(self).set().insert(k@) =~= old(self).set());
            false
        } else {
            let ghost s = self.item_seq();
            self.items.push(k);
            assert(self.item_seq() =~= s.push(k@));
            assert forall|a: int, b: int|
                0 <= a < self.item_seq().len() && 0 <= b < self.item_seq().len() && a != b implies self.item_seq()[a]
                != self.item_seq()[b] by {
                if a == s.len() {
                    assert(s.contains(s[b]));
                } else if b == s.len() {
                    assert(s.contains(s[a]));
                }
            }
            assert forall|x: K::V| self.item_seq().contains(x) <==> (s.contains(x) || x == k@) by {
                if s.contains(x) {
                    let j = s.index_of(x);
                    assert(self.item_seq()[j] == x);
                }
                if x == k@ {
                    assert(self.item_seq()[s.len() as int] == x);
                }
                if self.item_seq().contains(x) && x != k@ {
                    let j = self.item_seq().index_of(x);
                    assert(s[j] == x);
                }
            }
            assert(self.set() =~= old(self).set().insert(k@));
            true
        }
    }
}

} // verus!
