//! The transaction pool: bounded, with flood control against re-submission.
use vstd::prelude::*;
use crate::collections::ordered_map::{OrderedMap, lemma_index_of_distinct};
use crate::collections::ordered_set::OrderedSet;
use crate::primitives::types::{Extrinsic, ExtrinsicView};
use crate::primitives::types;

verus! {

/// The identities of a sequence of extrinsics.
pub open spec fn ids_of(exts: Seq<Extrinsic>) -> Set<types::Hash> {
    Set::new(|h: types::Hash| exists|i: int| 0 <= i < exts.len() && h == (#[trigger] exts[i])@.id())
}

/// The entries of a keyed sequence whose keys are not in `ids`, in order.
pub open spec fn keep_unlisted<V>(ks: Seq<types::Hash>, vs: Seq<V>, ids: Set<types::Hash>) -> (
    Seq<types::Hash>,
    Seq<V>,
)
    decreases ks.len(),
{
    if ks.len() == 0 || vs.len() == 0 {
        (Seq::empty(), Seq::empty())
    } else {
        let rest = keep_unlisted(ks.drop_last(), vs.drop_last(), ids);
        if ids.contains(ks.last()) {
            rest
        } else {
            (rest.0.push(ks.last()), rest.1.push(vs.last()))
        }
    }
}

proof fn lemma_keep_unlisted_none<V>(ks: Seq<types::Hash>, vs: Seq<V>, ids: Set<types::Hash>)
    requires
        ks.len() == vs.len(),
        forall|i: int| 0 <= i < ks.len() ==> !ids.contains(#[trigger] ks[i]),
    ensures
        keep_unlisted(ks, vs, ids) == (ks, vs),
    decreases ks.len(),
{
    if ks.len() > 0 {
        lemma_keep_unlisted_none(ks.drop_last(), vs.drop_last(), ids);
        assert(!ids.contains(ks[ks.len() - 1]));
        assert(ks.drop_last().push(ks.last()) =~= ks);
        assert(vs.drop_last().push(vs.last()) =~= vs);
    } else {
        assert(ks =~= Seq::<types::Hash>::empty());
        assert(vs =~= Seq::<V>::empty());
    }
}

proof fn lemma_keep_unlisted_remove<V>(ks: Seq<types::Hash>, vs: Seq<V>, i: int)
    requires
        ks.len() == vs.len(),
        ks.no_duplicates(),
        0 <= i < ks.len(),
    ensures
        keep_unlisted(ks, vs, set![ks[i]]) == (ks.remove(i), vs.remove(i)),
    decreases ks.len(),
{
    let k = ks[i];
    if i == ks.len() - 1 {
        assert forall|j: int| 0 <= j < ks.drop_last().len() implies !set![k].contains(
            #[trigger] ks.drop_last()[j],
        ) by {
            assert(ks.drop_last()[j] == ks[j]);
        }
        lemma_keep_unlisted_none(ks.drop_last(), vs.drop_last(), set![k]);
        assert(ks.remove(i) =~= ks.drop_last());
        assert(vs.remove(i) =~= vs.drop_last());
    } else {
        let t = ks.drop_last();
        assert(t[i] == k);
        assert(t.no_duplicates()) by {
            assert forall|a: int, b: int| 0 <= a < t.len() && 0 <= b < t.len() && a != b implies t[a] != t[b] by {
                assert(t[a] == ks[a] && t[b] == ks[b]);
            }
        }
        lemma_keep_unlisted_remove(t, vs.drop_last(), i);
        assert(ks.last() != k);
        assert(t.remove(i).push(ks.last()) =~= ks.remove(i));
        assert(vs.drop_last().remove(i).push(vs.last()) =~= vs.remove(i));
    }
}

proof fn lemma_keep_unlisted_compose<V>(
    ks: Seq<types::Hash>,
    vs: Seq<V>,
    a: Set<types::Hash>,
    b: Set<types::Hash>,
)
    requires
        ks.len() == vs.len(),
    ensures
        keep_unlisted(ks, vs, a).0.len() == keep_unlisted(ks, vs, a).1.len(),
        keep_unlisted(keep_unlisted(ks, vs, a).0, keep_unlisted(ks, vs, a).1, b)
            == keep_unlisted(ks, vs, a.union(b)),
    decreases ks.len(),
{
    if ks.len() > 0 {
        lemma_keep_unlisted_compose(ks.drop_last(), vs.drop_last(), a, b);
        let r = keep_unlisted(ks.drop_last(), vs.drop_last(), a);
        if !a.contains(ks.last()) {
            assert(r.0.push(ks.last()).drop_last() =~= r.0);
            assert(r.1.push(vs.last()).drop_last() =~= r.1);
        }
    }
}

pub struct TransactionPool {
    /// Transactions currently waiting in the pool, in arrival order.
    pub pending: OrderedMap<types::Hash, Extrinsic>,
    /// Limit on the number of transactions the pool can hold.
    pub capacity: usize,
    /// Flood-control: transactions we have already seen.
    pub seen: OrderedSet<types::Hash>,
}

impl TransactionPool {
    /// Well-formedness: every pending transaction has been seen.
    pub open spec fn wf(self) -> bool {
        &&& self.pending.wf()
        &&& self.seen.wf()
        &&& forall|h: types::Hash| #[trigger]
            self.pending.map().contains_key(h) ==> self.seen.set().contains(h)
    }

    pub fn new(capacity: usize) -> (pool: Self)
        ensures
            pool.wf(),
            pool.capacity == capacity,
            pool.pending.map() == Map::<types::Hash, Extrinsic>::empty(),
            pool.pending.key_seq().len() == 0,
            pool.seen.set() == Set::<types::Hash>::empty(),
    {
        TransactionPool { pending: OrderedMap::new(), capacity, seen: OrderedSet::new() }
    }

    /// Submits a transaction to the pool. A full pool refuses it first; a
    /// transaction seen before is refused next; otherwise it is recorded as
    /// seen and queued under its hash, which is returned.
    ///
    /// Signature validation is abstracted away in this model: it does not
    /// bear on state divergence or on consensus safety under partitions.
    pub fn submit(&mut self, ext: Extrinsic) -> (r: Result<types::Hash, &'static str>)
        requires
            old(self).wf(),
            ext@.fits(),
        ensures
            final(self).wf(),
            final(self).capacity == old(self).capacity,
            old(self).seen.set().subset_of(final(self).seen.set()),
            final(self).pending.key_seq().len() <= old(self).pending.key_seq().len() + 1,
            old(self).pending.key_seq().len() <= old(self).capacity
                ==> final(self).pending.key_seq().len() <= final(self).capacity,
            old(self).pending.key_seq().len() >= old(self).capacity ==> {
                &&& r matches Err(e) && e@ == "Pool is full"@
                &&& *final(self) == *old(self)
            },
            old(self).pending.key_seq().len() < old(self).capacity && old(self).seen.set().contains(
                ext@.id(),
            ) ==> {
                &&& r matches Err(e) && e@ == "Transaction already seen"@
                &&& *final(self) == *old(self)
            },
            old(self).pending.key_seq().len() < old(self).capacity && !old(self).seen.set().contains(
                ext@.id(),
            ) ==> {
                &&& r == Ok::<types::Hash, &'static str>(ext@.id())
                &&& final(self).seen.set() == old(self).seen.set().insert(ext@.id())
                &&& final(self).pending.map() == old(self).pending.map().insert(ext@.id(), ext)
                &&& final(self).pending.key_seq() == old(self).pending.key_seq().push(ext@.id())
                &&& final(self).pending.value_seq() == old(self).pending.value_seq().push(ext)
            },
    {
        if self.pending.len() >= self.capacity {
            return Err("Pool is full");
        }
        let hash = ext.hash();
        if self.seen.contains(&hash) {
            return Err("Transaction already seen");
        }
        assert(!self.pending.map().contains_key(hash));
        self.seen.insert(hash);
        self.pending.insert(hash, ext);
        Ok(hash)
    }

    /// Extracts a batch of transactions to include in a new block: the first
    /// `max_tx` pending transactions in arrival order, or all if fewer wait.
    pub fn reap_ready(&mut self, max_tx: usize) -> (ready: Vec<Extrinsic>)
        requires
            old(self).wf(),
        ensures
            final(self).wf(),
            ({
                let k = if max_tx < old(self).pending.key_seq().len() {
                    max_tx as int
                } else {
                    old(self).pending.key_seq().len() as int
                };
                &&& ready@ == old(self).pending.value_seq().take(k)
                &&& final(self).pending.key_seq() == old(self).pending.key_seq().skip(k)
                &&& final(self).pending.value_seq() == old(self).pending.value_seq().skip(k)
            }),
            final(self).seen == old(self).seen,
            final(self).capacity == old(self).capacity,
    {
        let mut ready: Vec<Extrinsic> = Vec::new();
        let ghost ks = self.pending.key_seq();
        let ghost vs = self.pending.value_seq();
        proof {
            self.pending.lemma_wf();
        }
        assert(ks.skip(0) =~= ks);
        assert(vs.skip(0) =~= vs);
        while ready.len() < max_tx && self.pending.len() > 0
            invariant
                self.wf(),
                self.seen == old(self).seen,
                self.capacity == old(self).capacity,
                ks.len() == vs.len(),
                ready@.len() <= max_tx,
                ready@.len() <= ks.len(),
                ready@ == vs.take(ready@.len() as int),
                self.pending.key_seq() == ks.skip(ready@.len() as int),
                self.pending.value_seq() == vs.skip(ready@.len() as int),
            decreases ks.len() - ready@.len(),
        {
            let ghost i = ready@.len() as int;
            let (_, v) = self.pending.remove_at(0);
            ready.push(v);
            assert(ready@ =~= vs.take(i + 1));
            assert(self.pending.key_seq() =~= ks.skip(i + 1));
            assert(self.pending.value_seq() =~= vs.skip(i + 1));
        }
        ready
    }

    /// Removes transactions that have been mined in a block.
    pub fn remove_mined(&mut self, extrinsics: &[Extrinsic])
        requires
            old(self).wf(),
            forall|i: int| 0 <= i < extrinsics@.len() ==> (#[trigger] extrinsics@[i])@.fits(),
        ensures
            final(self).wf(),
            final(self).pending.map() == old(self).pending.map().remove_keys(ids_of(extrinsics@)),
            (final(self).pending.key_seq(), final(self).pending.value_seq()) == keep_unlisted(
                old(self).pending.key_seq(),
                old(self).pending.value_seq(),
                ids_of(extrinsics@),
            ),
            final(self).seen == old(self).seen,
            final(self).capacity == old(self).capacity,
    {
        proof {
            old(self).pending.lemma_wf();
            assert(ids_of(extrinsics@.take(0)) =~= Set::<types::Hash>::empty());
            lemma_keep_unlisted_none(
                old(self).pending.key_seq(),
                old(self).pending.value_seq(),
                Set::<types::Hash>::empty(),
            );
        }
        let mut i: usize = 0;
        while i < extrinsics.len()
            invariant
                self.wf(),
                forall|j: int| 0 <= j < extrinsics@.len() ==> (#[trigger] extrinsics@[j])@.fits(),
                0 <= i <= extrinsics@.len(),
                self.pending.map() == old(self).pending.map().remove_keys(
                    ids_of(extrinsics@.take(i as int)),
                ),
                old(self).pending.key_seq().len() == old(self).pending.value_seq().len(),
                (self.pending.key_seq(), self.pending.value_seq()) == keep_unlisted(
                    old(self).pending.key_seq(),
                    old(self).pending.value_seq(),
                    ids_of(extrinsics@.take(i as int)),
                ),
                self.seen == old(self).seen,
                self.capacity == old(self).capacity,
            decreases extrinsics@.len() - i,
        {
            let h = extrinsics[i].hash();
            let ghost ks = self.pending.key_seq();
            let ghost vs = self.pending.value_seq();
            proof {
                self.pending.lemma_wf();
            }
            let removed = self.pending.remove(&h);
            proof {
                match removed {
                    Some(_) => {
                        let j = ks.index_of(h);
                        lemma_index_of_distinct(ks, j);
                        lemma_keep_unlisted_remove(ks, vs, j);
                    },
                    None => {
                        assert forall|j: int| 0 <= j < ks.len() implies !set![h].contains(
                            #[trigger] ks[j],
                        ) by {
                            if ks[j] == h {
                                assert(ks.contains(h));
                            }
                        }
                        lemma_keep_unlisted_none(ks, vs, set![h]);
                    },
                }
                lemma_keep_unlisted_compose(
                    old(self).pending.key_seq(),
                    old(self).pending.value_seq(),
                    ids_of(extrinsics@.take(i as int)),
                    set![h],
                );
            }
            proof {
                let before = ids_of(extrinsics@.take(i as int));
                let after = ids_of(extrinsics@.take(i + 1));
                assert forall|x: types::Hash| after.contains(x) <==> (before.contains(x) || x == h) by {
                    if after.contains(x) {
                        let j = choose|j: int| 0 <= j < extrinsics@.take(i + 1).len() && x == (
                        #[trigger] extrinsics@.take(i + 1)[j])@.id();
                        if j < i {
                            assert(extrinsics@.take(i as int)[j] == extrinsics@.take(i + 1)[j]);
                        }
                    }
                    if before.contains(x) {
                        let j = choose|j: int| 0 <= j < extrinsics@.take(i as int).len() && x == (
                        #[trigger] extrinsics@.take(i as int)[j])@.id();
                        assert(extrinsics@.take(i as int)[j] == extrinsics@.take(i + 1)[j]);
                    }
                    if x == h {
                        assert(extrinsics@.take(i + 1)[i as int] == extrinsics@[i as int]);
                    }
                }
                assert(after =~= before.insert(h));
                assert(before.union(set![h]) =~= after);
                assert(self.pending.map() =~= old(self).pending.map().remove_keys(after));
            }
            i = i + 1;
        }
        assert(extrinsics@.take(extrinsics@.len() as int) =~= extrinsics@);
    }
}

} // verus!
