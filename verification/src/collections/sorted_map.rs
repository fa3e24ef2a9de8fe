//! A map from byte strings to byte strings that keeps its keys in strictly
//! increasing lexicographic order, so that its walk order, and with it its
//! SCALE encoding, depends on its contents alone.
use vstd::prelude::*;
use crate::collections::ordered_map::{seq_map, lemma_seq_map_entry, lemma_seq_map_update, lemma_seq_map_insert_at, lemma_index_of_distinct};

verus! {

/// Lexicographic order on byte strings, a proper prefix first.
pub open spec fn lex_less(a: Seq<u8>, b: Seq<u8>) -> bool
    decreases a.len(),
{
    if a.len() == 0 {
        b.len() > 0
    } else if b.len() == 0 {
        false
    } else if a[0] < b[0] {
        true
    } else if a[0] > b[0] {
        false
    } else {
        lex_less(a.drop_first(), b.drop_first())
    }
}

pub proof fn lemma_lex_irreflexive(a: Seq<u8>)
    ensures
        !lex_less(a, a),
    decreases a.len(),
{
    if a.len() > 0 {
        lemma_lex_irreflexive(a.drop_first());
    }
}

pub proof fn lemma_lex_asymmetric(a: Seq<u8>, b: Seq<u8>)
    ensures
        !(lex_less(a, b) && lex_less(b, a)),
    decreases a.len(),
{
    if a.len() > 0 && b.len() > 0 && a[0] == b[0] {
        lemma_lex_asymmetric(a.drop_first(), b.drop_first());
    }
}

pub proof fn lemma_lex_total(a: Seq<u8>, b: Seq<u8>)
    ensures
        a == b || lex_less(a, b) || lex_less(b, a),
    decreases a.len(),
{
    if a.len() > 0 && b.len() > 0 && a[0] == b[0] {
        lemma_lex_total(a.drop_first(), b.drop_first());
        if a.drop_first() == b.drop_first() {
            assert(a =~= seq![a[0]] + a.drop_first());
            assert(b =~= seq![b[0]] + b.drop_first());
        }
    } else if a.len() == 0 && b.len() == 0 {
        assert(a =~= b);
    }
}

pub proof fn lemma_lex_transitive(a: Seq<u8>, b: Seq<u8>, c: Seq<u8>)
    requires
        lex_less(a, b),
        lex_less(b, c),
    ensures
        lex_less(a, c),
    decreases a.len(),
{
    if a.len() > 0 && b.len() > 0 && c.len() > 0 && a[0] == b[0] && b[0] == c[0] {
        lemma_lex_transitive(a.drop_first(), b.drop_first(), c.drop_first());
    }
}

/// Whether a sequence of byte strings is strictly increasing.
pub open spec fn strictly_sorted(ks: Seq<Seq<u8>>) -> bool {
    forall|i: int, j: int| 0 <= i < j < ks.len() ==> lex_less(#[trigger] ks[i], #[trigger] ks[j])
}

pub proof fn lemma_sorted_distinct(ks: Seq<Seq<u8>>)
    requires
        strictly_sorted(ks),
    ensures
        ks.no_duplicates(),
{
    assert forall|i: int, j: int| 0 <= i < ks.len() && 0 <= j < ks.len() && i != j implies ks[i]
        != ks[j] by {
        if i < j {
            lemma_lex_irreflexive(ks[i]);
        } else {
            lemma_lex_irreflexive(ks[j]);
        }
    }
}

/// Whether `a` sorts before `b`.
pub fn bytes_less(a: &[u8], b: &[u8]) -> (r: bool)
    ensures
        r == lex_less(a@, b@),
{
    let mut i: usize = 0;
    assert(a@.skip(0) =~= a@);
    assert(b@.skip(0) =~= b@);
    while i < a.len() && i < b.len()
        invariant
            0 <= i <= a@.len(),
            i <= b@.len(),
            lex_less(a@, b@) == lex_less(a@.skip(i as int), b@.skip(i as int)),
        decreases a@.len() - i,
    {
        let ghost sa = a@.skip(i as int);
        let ghost sb = b@.skip(i as int);
        assert(sa[0] == a@[i as int]);
        assert(sb[0] == b@[i as int]);
        if a[i] < b[i] {
            return true;
        }
        if a[i] > b[i] {
            return false;
        }
        assert(sa.drop_first() =~= a@.skip(i + 1));
        assert(sb.drop_first() =~= b@.skip(i + 1));
        i = i + 1;
    }
    i == a.len() && i < b.len()
}

/// Map of byte-string keys to byte-string values, keys strictly increasing.
pub struct SortedByteMap {
    keys: Vec<Vec<u8>>,
    vals: Vec<Vec<u8>>,
}

impl SortedByteMap {
    /// The keys by their bytes, in increasing order.
    pub closed spec fn key_seq(self) -> Seq<Seq<u8>> {
        self.keys@.map_values(|k: Vec<u8>| k@)
    }

    /// The values by their bytes, in the order of their keys.
    pub closed spec fn value_seq(self) -> Seq<Seq<u8>> {
        self.vals@.map_values(|v: Vec<u8>| v@)
    }

    pub closed spec fn wf(self) -> bool {
        &&& self.keys@.len() == self.vals@.len()
        &&& strictly_sorted(self.key_seq())
    }

    /// The contents as a mathematical map.
    pub open spec fn map(self) -> Map<Seq<u8>, Seq<u8>> {
        seq_map(self.key_seq(), self.value_seq())
    }

    /// The facts of well-formedness that callers reason with.
    pub proof fn lemma_wf(self)
        requires
            self.wf(),
        ensures
            self.key_seq().len() == self.value_seq().len(),
            strictly_sorted(self.key_seq()),
            self.key_seq().no_duplicates(),
            forall|i: int|
                0 <= i < self.key_seq().len() ==> #[trigger] self.map().contains_key(
                    self.key_seq()[i],
                ) && self.map()[self.key_seq()[i]] == self.value_seq()[i],
            forall|k: Seq<u8>| #[trigger]
                self.map().contains_key(k) <==> self.key_seq().contains(k),
    {
        lemma_sorted_distinct(self.key_seq());
        assert forall|i: int| 0 <= i < self.key_seq().len() implies #[trigger] self.map().contains_key(
            self.key_seq()[i],
        ) && self.map()[self.key_seq()[i]] == self.value_seq()[i] by {
            lemma_seq_map_entry(self.key_seq(), self.value_seq(), i);
        }
    }

    pub fn new() -> (m: Self)
        ensures
            m.wf(),
            m.key_seq() == Seq::<Seq<u8>>::empty(),
            m.map() == Map::<Seq<u8>, Seq<u8>>::empty(),
    {
        let m = SortedByteMap { keys: Vec::new(), vals: Vec::new() };
        assert(m.key_seq() =~= Seq::<Seq<u8>>::empty());
        assert(m.map() =~= Map::<Seq<u8>, Seq<u8>>::empty());
        m
    }

    pub fn len(&self) -> (n: usize)
        requires
            self.wf(),
        ensures
            n == self.key_seq().len(),
            n == self.value_seq().len(),
    {
        self.keys.len()
    }

    pub fn key_at(&self, i: usize) -> (k: &Vec<u8>)
        requires
            self.wf(),
            i < self.key_seq().len(),
        ensures
            k@ == self.key_seq()[i as int],
    {
        &self.keys[i]
    }

    pub fn value_at(&self, i: usize) -> (v: &Vec<u8>)
        requires
            self.wf(),
            i < self.key_seq().len(),
        ensures
            v@ == self.value_seq()[i as int],
    {
        &self.vals[i]
    }

    /// The value under `key`, if there is one.
    pub fn get(&self, key: &[u8]) -> (r: Option<&Vec<u8>>)
        requires
            self.wf(),
        ensures
            r matches Some(v) ==> self.map().contains_key(key@) && v@ == self.map()[key@],
            r is None <==> !self.map().contains_key(key@),
    {
        proof {
            self.lemma_wf();
        }
        let mut i: usize = 0;
        while i < self.keys.len()
            invariant
                self.wf(),
                self.key_seq().no_duplicates(),
                0 <= i <= self.keys@.len(),
                forall|j: int| 0 <= j < i ==> self.key_seq()[j] != key@,
            decreases self.keys@.len() - i,
        {
            if crate::collections::keys::bytes_equal(self.keys[i].as_slice(), key) {
                proof {
                    assert(self.key_seq()[i as int] == key@);
                    lemma_seq_map_entry(self.key_seq(), self.value_seq(), i as int);
                }
                return Some(&self.vals[i]);
            }
            i = i + 1;
        }
        proof {
            if self.key_seq().contains(key@) {
                let j = self.key_seq().index_of(key@);
                assert(self.key_seq()[j] == key@);
            }
        }
        None
    }

    /// Sets the value of `key` to `value`, keeping the keys sorted.
    pub fn insert(&mut self, key: Vec<u8>, value: Vec<u8>)
        requires
            old(self).wf(),
        ensures
            final(self).wf(),
            final(self).map() == old(self).map().insert(key@, value@),
    {
        proof {
            self.lemma_wf();
        }
        let mut p: usize = 0;
        while p < self.keys.len() && bytes_less(self.keys[p].as_slice(), key.as_slice())
            invariant
                self.wf(),
                0 <= p <= self.keys@.len(),
                forall|j: int| 0 <= j < p ==> lex_less(#[trigger] self.key_seq()[j], key@),
            decreases self.keys@.len() - p,
        {
            p = p + 1;
        }
        let ghost ks = self.key_seq();
        let ghost vs = self.value_seq();
        if p < self.keys.len() && crate::collections::keys::bytes_equal(
            self.keys[p].as_slice(),
            key.as_slice(),
        ) {
            proof {
                lemma_seq_map_update(ks, vs, p as int, value@);
            }
            self.vals.remove(p);
            self.vals.insert(p, value);
            assert(self.value_seq() =~= vs.update(p as int, value@));
            assert(self.key_seq() =~= ks);
        } else {
            proof {
                // every key from position p on sorts after the new key
                if p < ks.len() {
                    lemma_lex_total(ks[p as int], key@);
                }
                assert forall|j: int| p <= j < ks.len() implies lex_less(key@, #[trigger] ks[j]) by {
                    if j > p {
                        lemma_lex_transitive(key@, ks[p as int], ks[j]);
                    }
                }
                assert(!ks.contains(key@)) by {
                    if ks.contains(key@) {
                        let j = ks.index_of(key@);
                        lemma_lex_irreflexive(key@);
                        if j < p {
                        } else {
                        }
                    }
                }
                lemma_seq_map_insert_at(ks, vs, p as int, key@, value@);
            }
            let ghost kv = key@;
            self.keys.insert(p, key);
            self.vals.insert(p, value);
            assert(self.key_seq() =~= ks.insert(p as int, kv));
            assert(self.value_seq() =~= vs.insert(p as int, value@));
            assert forall|i: int, j: int| 0 <= i < j < self.key_seq().len() implies lex_less(
                #[trigger] self.key_seq()[i],
                #[trigger] self.key_seq()[j],
            ) by {
                let k2 = self.key_seq();
                if j < p {
                    assert(k2[i] == ks[i] && k2[j] == ks[j]);
                } else if j == p {
                    assert(k2[i] == ks[i]);
                } else if i == p {
                    assert(k2[j] == ks[j - 1]);
                } else if i < p {
                    assert(k2[i] == ks[i] && k2[j] == ks[j - 1]);
                } else {
                    assert(k2[i] == ks[i - 1] && k2[j] == ks[j - 1]);
                }
            }
        }
    }
}

} // verus!

verus! {

/// Two strictly increasing sequences with the same elements are equal.
pub proof fn lemma_sorted_unique(ks1: Seq<Seq<u8>>, ks2: Seq<Seq<u8>>)
    requires
        strictly_sorted(ks1),
        strictly_sorted(ks2),
        forall|k: Seq<u8>| ks1.contains(k) <==> ks2.contains(k),
    ensures
        ks1 == ks2,
    decreases ks1.len(),
{
    lemma_sorted_distinct(ks1);
    lemma_sorted_distinct(ks2);
    if ks1.len() == 0 {
        if ks2.len() > 0 {
            assert(ks2.contains(ks2[0]));
        }
        assert(ks1 =~= ks2);
    } else {
        assert(ks1.contains(ks1[0]));
        assert(ks2.len() > 0);
        assert(ks2.contains(ks2[0]));
        let j = ks2.index_of(ks1[0]);
        let i = ks1.index_of(ks2[0]);
        assert(ks2[j] == ks1[0]);
        assert(ks1[i] == ks2[0]);
        if j > 0 {
            assert(lex_less(ks2[0], ks2[j]));
            if i > 0 {
                assert(lex_less(ks1[0], ks1[i]));
                lemma_lex_asymmetric(ks1[0], ks2[0]);
            } else {
                assert(ks2[0] == ks2[j]);
            }
        }
        assert(ks1[0] == ks2[0]);
        let r1 = ks1.drop_first();
        let r2 = ks2.drop_first();
        assert forall|k: Seq<u8>| r1.contains(k) <==> r2.contains(k) by {
            if r1.contains(k) {
                let a = r1.index_of(k);
                assert(ks1[a + 1] == k);
                assert(k != ks1[0]);
                assert(ks1.contains(k));
                let b = ks2.index_of(k);
                assert(b != 0);
                assert(r2[b - 1] == k);
            }
            if r2.contains(k) {
                let a = r2.index_of(k);
                assert(ks2[a + 1] == k);
                assert(k != ks2[0]);
                assert(ks2.contains(k));
                let b = ks1.index_of(k);
                assert(b != 0);
                assert(r1[b - 1] == k);
            }
        }
        assert forall|a: int, b: int| 0 <= a < b < r1.len() implies lex_less(#[trigger] r1[a], #[trigger] r1[b]) by {
            assert(r1[a] == ks1[a + 1] && r1[b] == ks1[b + 1]);
        }
        assert forall|a: int, b: int| 0 <= a < b < r2.len() implies lex_less(#[trigger] r2[a], #[trigger] r2[b]) by {
            assert(r2[a] == ks2[a + 1] && r2[b] == ks2[b + 1]);
        }
        lemma_sorted_unique(r1, r2);
        assert(ks1 =~= seq![ks1[0]] + r1);
        assert(ks2 =~= seq![ks2[0]] + r2);
    }
}

impl SortedByteMap {
    /// A sorted map is determined by its contents: two with the same
    /// contents hold the same entries in the same order.
    pub proof fn lemma_canonical(m1: SortedByteMap, m2: SortedByteMap)
        requires
            m1.wf(),
            m2.wf(),
            m1.map() == m2.map(),
        ensures
            m1.key_seq() == m2.key_seq(),
            m1.value_seq() == m2.value_seq(),
    {
        m1.lemma_wf();
        m2.lemma_wf();
        assert forall|k: Seq<u8>| m1.key_seq().contains(k) <==> m2.key_seq().contains(k) by {
            assert(m1.map().contains_key(k) <==> m1.key_seq().contains(k));
            assert(m2.map().contains_key(k) <==> m2.key_seq().contains(k));
        }
        lemma_sorted_unique(m1.key_seq(), m2.key_seq());
        assert forall|i: int| 0 <= i < m1.value_seq().len() implies m1.value_seq()[i] == m2.value_seq()[i] by {
            assert(m1.map()[m1.key_seq()[i]] == m1.value_seq()[i]);
            assert(m2.map()[m2.key_seq()[i]] == m2.value_seq()[i]);
        }
        assert(m1.value_seq() =~= m2.value_seq());
    }
}

} // verus!
