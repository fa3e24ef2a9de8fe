//! A map that keeps its entries in the order in which their keys first
//! arrived: a deterministic replacement for a hash map, whose walk order
//! would change from one process to the next.
use vstd::prelude::*;
use crate::collections::keys::KeyModel;

verus! {

/// The map that a sequence of distinct keys and a sequence of values of
/// the same length describe, entry by entry.
pub open spec fn seq_map<KV, V>(ks: Seq<KV>, vs: Seq<V>) -> Map<KV, V> {
    Map::new(|k: KV| ks.contains(k), |k: KV| vs[ks.index_of(k)])
}

/// In a sequence without duplicates an element is found at its own index.
pub proof fn lemma_index_of_distinct<KV>(ks: Seq<KV>, i: int)
    requires
        ks.no_duplicates(),
        0 <= i < ks.len(),
    ensures
        ks.contains(ks[i]),
        ks.index_of(ks[i]) == i,
{
    assert(ks[i] == ks[i]);
    assert(ks.contains(ks[i]));
    let j = ks.index_of(ks[i]);
    assert(0 <= j < ks.len() && ks[j] == ks[i]);
}

/// Reading the map at the key of entry `i` gives the value of entry `i`.
pub proof fn lemma_seq_map_entry<KV, V>(ks: Seq<KV>, vs: Seq<V>, i: int)
    requires
        ks.no_duplicates(),
        ks.len() == vs.len(),
        0 <= i < ks.len(),
    ensures
        seq_map(ks, vs).contains_key(ks[i]),
        seq_map(ks, vs)[ks[i]] == vs[i],
{
    lemma_index_of_distinct(ks, i);
}

pub proof fn lemma_seq_map_update<KV, V>(ks: Seq<KV>, vs: Seq<V>, i: int, v: V)
    requires
        ks.no_duplicates(),
        ks.len() == vs.len(),
        0 <= i < ks.len(),
    ensures
        seq_map(ks, vs.update(i, v)) == seq_map(ks, vs).insert(ks[i], v),
{
    lemma_index_of_distinct(ks, i);
    let m1 = seq_map(ks, vs.update(i, v));
    let m2 = seq_map(ks, vs).insert(ks[i], v);
    assert forall|k: KV| m1.contains_key(k) implies m1[k] == m2[k] by {
        let j = ks.index_of(k);
        if k == ks[i] {
        } else {
            assert(ks.contains(k));
            assert(0 <= j < ks.len() && ks[j] == k);
            assert(j != i);
        }
    }
    assert(m1 =~= m2);
}

proof fn lemma_seq_map_push<KV, V>(ks: Seq<KV>, vs: Seq<V>, k: KV, v: V)
    requires
        ks.no_duplicates(),
        ks.len() == vs.len(),
        !ks.contains(k),
    ensures
        ks.push(k).no_duplicates(),
        seq_map(ks.push(k), vs.push(v)) == seq_map(ks, vs).insert(k, v),
{
    let ks2 = ks.push(k);
    assert forall|a: int, b: int| 0 <= a < ks2.len() && 0 <= b < ks2.len() && a != b implies ks2[a]
        != ks2[b] by {
        if a == ks.len() {
            assert(ks[b] == ks2[b]);
        } else if b == ks.len() {
            assert(ks[a] == ks2[a]);
        }
    }
    lemma_index_of_distinct(ks2, ks.len() as int);
    let m1 = seq_map(ks2, vs.push(v));
    let m2 = seq_map(ks, vs).insert(k, v);
    assert forall|x: KV| m1.contains_key(x) <==> m2.contains_key(x) by {
        if ks2.contains(x) && x != k {
            let j = ks2.index_of(x);
            assert(ks[j] == x);
        }
        if ks.contains(x) {
            let j = ks.index_of(x);
            assert(ks2[j] == x);
        }
    }
    assert forall|x: KV| m1.contains_key(x) implies m1[x] == m2[x] by {
        if x != k {
            let j = ks.index_of(x);
            assert(0 <= j < ks.len() && ks[j] == x);
            assert(ks2[j] == x);
            lemma_index_of_distinct(ks2, j);
        }
    }
    assert(m1 =~= m2);
}

/// Inserting a new key and its value at the same place of both sequences
/// inserts the entry into the map.
pub proof fn lemma_seq_map_insert_at<KV, V>(ks: Seq<KV>, vs: Seq<V>, p: int, k: KV, v: V)
    requires
        ks.no_duplicates(),
        ks.len() == vs.len(),
        0 <= p <= ks.len(),
        !ks.contains(k),
    ensures
        ks.insert(p, k).no_duplicates(),
        seq_map(ks.insert(p, k), vs.insert(p, v)) == seq_map(ks, vs).insert(k, v),
{
    let ks2 = ks.insert(p, k);
    let vs2 = vs.insert(p, v);
    assert forall|a: int, b: int| 0 <= a < ks2.len() && 0 <= b < ks2.len() && a != b implies ks2[a]
        != ks2[b] by {
        if a == p {
            let b0 = if b < p { b } else { b - 1 };
            assert(ks2[b] == ks[b0]);
        } else if b == p {
            let a0 = if a < p { a } else { a - 1 };
            assert(ks2[a] == ks[a0]);
        } else {
            let a0 = if a < p { a } else { a - 1 };
            let b0 = if b < p { b } else { b - 1 };
            assert(ks2[a] == ks[a0]);
            assert(ks2[b] == ks[b0]);
        }
    }
    let m1 = seq_map(ks2, vs2);
    let m2 = seq_map(ks, vs).insert(k, v);
    assert forall|x: KV| m1.contains_key(x) <==> m2.contains_key(x) by {
        if ks2.contains(x) && x != k {
            let j = ks2.index_of(x);
            let j0 = if j < p { j } else { j - 1 };
            assert(ks[j0] == x);
        }
        if ks.contains(x) {
            let j = ks.index_of(x);
            let j2 = if j < p { j } else { j + 1 };
            assert(ks2[j2] == x);
        }
        if x == k {
            assert(ks2[p] == x);
        }
    }
    assert forall|x: KV| m1.contains_key(x) implies m1[x] == m2[x] by {
        let j = ks2.index_of(x);
        assert(0 <= j < ks2.len() && ks2[j] == x);
        lemma_index_of_distinct(ks2, j);
        if j == p {
        } else {
            let j0 = if j < p { j } else { j - 1 };
            assert(ks[j0] == x);
            lemma_index_of_distinct(ks, j0);
            assert(vs2[j] == vs[j0]);
        }
    }
    assert(m1 =~= m2);
}

proof fn lemma_seq_map_remove<KV, V>(ks: Seq<KV>, vs: Seq<V>, i: int)
    requires
        ks.no_duplicates(),
        ks.len() == vs.len(),
        0 <= i < ks.len(),
    ensures
        ks.remove(i).no_duplicates(),
        seq_map(ks.remove(i), vs.remove(i)) == seq_map(ks, vs).remove(ks[i]),
{
    let ks2 = ks.remove(i);
    let vs2 = vs.remove(i);
    assert forall|a: int, b: int| 0 <= a < ks2.len() && 0 <= b < ks2.len() && a != b implies ks2[a]
        != ks2[b] by {
        let a0 = if a < i { a } else { a + 1 };
        let b0 = if b < i { b } else { b + 1 };
        assert(ks2[a] == ks[a0]);
        assert(ks2[b] == ks[b0]);
    }
    let m1 = seq_map(ks2, vs2);
    let m2 = seq_map(ks, vs).remove(ks[i]);
    assert forall|x: KV| m1.contains_key(x) <==> m2.contains_key(x) by {
        if ks2.contains(x) {
            let j = ks2.index_of(x);
            let j0 = if j < i { j } else { j + 1 };
            assert(ks[j0] == x);
            assert(j0 != i);
        }
        if ks.contains(x) && x != ks[i] {
            let j = ks.index_of(x);
            assert(j != i);
            let j2 = if j < i { j } else { j - 1 };
            assert(ks2[j2] == x);
        }
    }
    assert forall|x: KV| m1.contains_key(x) implies m1[x] == m2[x] by {
        let j = ks2.index_of(x);
        assert(0 <= j < ks2.len() && ks2[j] == x);
        let j0 = if j < i { j } else { j + 1 };
        assert(ks[j0] == x);
        lemma_index_of_distinct(ks, j0);
        assert(vs2[j] == vs[j0]);
    }
    assert(m1 =~= m2);
}

/// Map from keys to values that remembers the arrival order of its keys.
pub struct OrderedMap<K, V> {
    keys: Vec<K>,
    vals: Vec<V>,
}

impl<K: KeyModel, V> OrderedMap<K, V> {
    /// The keys, by their models, in arrival order.
    pub closed spec fn key_seq(self) -> Seq<K::V> {
        self.keys@.map_values(|k: K| k@)
    }

    /// The values, in the order of their keys.
    pub closed spec fn value_seq(self) -> Seq<V> {
        self.vals@
    }

    /// Well-formedness: one value per key, and no key twice.
    pub closed spec fn wf(self) -> bool {
        &&& self.keys@.len() == self.vals@.len()
        &&& self.key_seq().no_duplicates()
    }

    /// The map as a mathematical map from key models to values.
    pub open spec fn map(self) -> Map<K::V, V> {
        seq_map(self.key_seq(), self.value_seq())
    }

    /// The facts of well-formedness that callers reason with.
    pub proof fn lemma_wf(self)
        requires
            self.wf(),
        ensures
            self.key_seq().len() == self.value_seq().len(),
            self.key_seq().no_duplicates(),
            forall|i: int|
                0 <= i < self.key_seq().len() ==> #[trigger] self.map().contains_key(
                    self.key_seq()[i],
                ) && self.map()[self.key_seq()[i]] == self.value_seq()[i],
            forall|k: K::V| #[trigger]
                self.map().contains_key(k) <==> self.key_seq().contains(k),
    {
        assert forall|i: int| 0 <= i < self.key_seq().len() implies #[trigger] self.map().contains_key(
            self.key_seq()[i],
        ) && self.map()[self.key_seq()[i]] == self.value_seq()[i] by {
            lemma_seq_map_entry(self.key_seq(), self.value_seq(), i);
        }
    }

    pub fn new() -> (m: Self)
        ensures
            m.wf(),
            m.key_seq() == Seq::<K::V>::empty(),
            m.value_seq() == Seq::<V>::empty(),
            m.map() == Map::<K::V, V>::empty(),
    {
        let m = OrderedMap { keys: Vec::new(), vals: Vec::new() };
        assert(m.key_seq() =~= Seq::<K::V>::empty());
        assert(m.map() =~= Map::<K::V, V>::empty());
        m
    }

    pub fn len(&self) -> (n: usize)
        requires
            self.wf(),
        ensures
            n == self.key_seq().len(),
            n == self.value_seq().len(),
    {
        self.keys.len()
    }

    /// The index of the entry with key `k`, if there is one.
    pub fn find(&self, k: &K) -> (r: Option<usize>)
        requires
            self.wf(),
        ensures
            r matches Some(i) ==> i < self.key_seq().len() && self.key_seq()[i as int] == k@,
            r is None <==> !self.map().contains_key(k@),
    {
        let mut i: usize = 0;
        while i < self.keys.len()
            invariant
                self.wf(),
                0 <= i <= self.keys@.len(),
                forall|j: int| 0 <= j < i ==> self.key_seq()[j] != k@,
            decreases self.keys@.len() - i,
        {
            if self.keys[i].same_key(k) {
                proof {
                    assert(self.key_seq()[i as int] == k@);
                    assert(self.key_seq().contains(k@));
                }
                return Some(i);
            }
            i = i + 1;
        }
        proof {
            if self.key_seq().contains(k@) {
                let j = self.key_seq().index_of(k@);
                assert(self.key_seq()[j] == k@);
            }
        }
        None
    }

    pub fn contains_key(&self, k: &K) -> (r: bool)
        requires
            self.wf(),
        ensures
            r == self.map().contains_key(k@),
    {
        self.find(k).is_some()
    }

    pub fn key_at(&self, i: usize) -> (k: &K)
        requires
            self.wf(),
            i < self.key_seq().len(),
        ensures
            k@ == self.key_seq()[i as int],
    {
        &self.keys[i]
    }

    pub fn value_at(&self, i: usize) -> (v: &V)
        requires
            self.wf(),
            i < self.value_seq().len(),
        ensures
            *v == self.value_seq()[i as int],
            *v == self.map()[self.key_seq()[i as int]],
    {
        proof {
            lemma_seq_map_entry(self.key_seq(), self.value_seq(), i as int);
        }
        &self.vals[i]
    }

    /// The value under key `k`, if there is one.
    pub fn lookup(&self, k: &K) -> (r: Option<&V>)
        requires
            self.wf(),
        ensures
            r matches Some(v) ==> self.map().contains_key(k@) && *v == self.map()[k@],
            r is None <==> !self.map().contains_key(k@),
    {
        match self.find(k) {
            Some(i) => Some(self.value_at(i)),
            None => None,
        }
    }

    /// Puts `v` in place of the value of entry `i` and hands the old one back.
    pub fn replace_at(&mut self, i: usize, v: V) -> (old_v: V)
        requires
            old(self).wf(),
            i < old(self).value_seq().len(),
        ensures
            final(self).wf(),
            old_v == old(self).value_seq()[i as int],
            final(self).key_seq() == old(self).key_seq(),
            final(self).value_seq() == old(self).value_seq().update(i as int, v),
            final(self).map() == old(self).map().insert(old(self).key_seq()[i as int], v),
    {
        proof {
            lemma_seq_map_update(self.key_seq(), self.value_seq(), i as int, v);
        }
        let old_v = self.vals.remove(i);
        self.vals.insert(i, v);
        assert(self.vals@ =~= old(self).vals@.update(i as int, v));
        old_v
    }

    /// Adds an entry whose key is not in the map yet, at the end.
    pub fn push_new(&mut self, k: K, v: V)
        requires
            old(self).wf(),
            !old(self).map().contains_key(k@),
        ensures
            final(self).wf(),
            final(self).key_seq() == old(self).key_seq().push(k@),
            final(self).value_seq() == old(self).value_seq().push(v),
            final(self).map() == old(self).map().insert(k@, v),
    {
        proof {
            lemma_seq_map_push(self.key_seq(), self.value_seq(), k@, v);
        }
        self.keys.push(k);
        self.vals.push(v);
        assert(self.key_seq() =~= old(self).key_seq().push(k@));
    }

    /// Sets the value of key `k` to `v`: in place when `k` is present,
    /// as a new last entry otherwise. Hands back the value it replaced.
    pub fn insert(&mut self, k: K, v: V) -> (prev: Option<V>)
        requires
            old(self).wf(),
        ensures
            final(self).wf(),
            final(self).map() == old(self).map().insert(k@, v),
            old(self).map().contains_key(k@) ==> {
                &&& prev == Some(old(self).map()[k@])
                &&& final(self).key_seq() == old(self).key_seq()
                &&& final(self).value_seq() == old(self).value_seq().update(
                    old(self).key_seq().index_of(k@),
                    v,
                )
            },
            !old(self).map().contains_key(k@) ==> {
                &&& prev is None
                &&& final(self).key_seq() == old(self).key_seq().push(k@)
                &&& final(self).value_seq() == old(self).value_seq().push(v)
            },
    {
        match self.find(&k) {
            Some(i) => {
                proof {
                    lemma_index_of_distinct(self.key_seq(), i as int);
                    lemma_seq_map_entry(self.key_seq(), self.value_seq(), i as int);
                }
                let old_v = self.replace_at(i, v);
                Some(old_v)
            },
            None => {
                self.push_new(k, v);
                None
            },
        }
    }

    /// Removes entry `i`; the later entries move up one place.
    pub fn remove_at(&mut self, i: usize) -> (kv: (K, V))
        requires
            old(self).wf(),
            i < old(self).key_seq().len(),
        ensures
            final(self).wf(),
            kv.0@ == old(self).key_seq()[i as int],
            kv.1 == old(self).value_seq()[i as int],
            final(self).key_seq() == old(self).key_seq().remove(i as int),
            final(self).value_seq() == old(self).value_seq().remove(i as int),
            final(self).map() == old(self).map().remove(old(self).key_seq()[i as int]),
    {
        proof {
            lemma_seq_map_remove(self.key_seq(), self.value_seq(), i as int);
        }
        let k = self.keys.remove(i);
        let v = self.vals.remove(i);
        assert(self.key_seq() =~= old(self).key_seq().remove(i as int));
        (k, v)
    }

    /// Removes the entry of key `k`, if there is one, and hands its value back.
    pub fn remove(&mut self, k: &K) -> (r: Option<V>)
        requires
            old(self).wf(),
        ensures
            final(self).wf(),
            final(self).map() == old(self).map().remove(k@),
            r matches Some(v) ==> old(self).map().contains_key(k@) && v == old(self).map()[k@],
            r is None <==> !old(self).map().contains_key(k@),
            r is None ==> *final(self) == *old(self),
            r is Some ==> {
                &&& final(self).key_seq() == old(self).key_seq().remove(
                    old(self).key_seq().index_of(k@),
                )
                &&& final(self).value_seq() == old(self).value_seq().remove(
                    old(self).key_seq().index_of(k@),
                )
            },
    {
        match self.find(k) {
            Some(i) => {
                proof {
                    lemma_index_of_distinct(self.key_seq(), i as int);
                    lemma_seq_map_entry(self.key_seq(), self.value_seq(), i as int);
                }
                let (_, v) = self.remove_at(i);
                Some(v)
            },
            None => {
                assert(old(self).map().remove(k@) =~= old(self).map());
                None
            },
        }
    }
}

impl<V> OrderedMap<String, V> {
    /// The index of the entry whose key has the text `key`, if there is one.
    pub fn find_str(&self, key: &str) -> (r: Option<usize>)
        requires
            self.wf(),
        ensures
            r matches Some(i) ==> i < self.key_seq().len() && self.key_seq()[i as int] == key@,
            r is None <==> !self.map().contains_key(key@),
    {
        let mut i: usize = 0;
        while i < self.keys.len()
            invariant
                self.wf(),
                0 <= i <= self.keys@.len(),
                forall|j: int| 0 <= j < i ==> self.key_seq()[j] != key@,
            decreases self.keys@.len() - i,
        {
            if crate::collections::keys::str_equal(self.keys[i].as_str(), key) {
                proof {
                    assert(self.key_seq()[i as int] == key@);
                    assert(self.key_seq().contains(key@));
                }
                return Some(i);
            }
            i = i + 1;
        }
        proof {
            if self.key_seq().contains(key@) {
                let j = self.key_seq().index_of(key@);
                assert(self.key_seq()[j] == key@);
            }
        }
        None
    }

    /// The value under the key with text `key`, if there is one.
    pub fn get(&self, key: &str) -> (r: Option<&V>)
        requires
            self.wf(),
        ensures
            r matches Some(v) ==> self.map().contains_key(key@) && *v == self.map()[key@],
            r is None <==> !self.map().contains_key(key@),
    {
        match self.find_str(key) {
            Some(i) => Some(self.value_at(i)),
            None => None,
        }
    }
}

} // verus!
