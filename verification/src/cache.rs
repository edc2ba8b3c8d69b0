//! The room state cache: a bounded memo from a frontier (the sorted
//! forward-extremity id sequence) to the resolved snapshot at that
//! frontier. It holds no authoritative data: an evicted frontier is
//! simply recomputed on demand.

use vstd::prelude::*;

use crate::event::{EventId, Slot};
use crate::snapshot::StateSnapshot;

verus! {

struct CacheEntry {
    key: Vec<EventId>,
    snap: StateSnapshot,
}

/// Map view of a cache entry sequence, keyed by frontier.
spec fn cmap_of(es: Seq<CacheEntry>) -> Map<Seq<EventId>, Map<Slot, EventId>>
    decreases es.len(),
{
    if es.len() == 0 {
        Map::empty()
    } else {
        cmap_of(es.drop_last()).insert(es.last().key@, es.last().snap@)
    }
}

spec fn no_dup_keys(es: Seq<CacheEntry>) -> bool {
    forall|i: int, j: int| 0 <= i < j < es.len() ==> es[i].key@ != es[j].key@
}

proof fn lemma_cmap_contains(es: Seq<CacheEntry>, k: Seq<EventId>)
    ensures
        cmap_of(es).dom().contains(k) <==> exists|i: int| 0 <= i < es.len() && es[i].key@ == k,
    decreases es.len(),
{
    if es.len() > 0 {
        lemma_cmap_contains(es.drop_last(), k);
        if es.last().key@ == k {
            assert(es[es.len() - 1].key@ == k);
        } else {
            if exists|i: int| 0 <= i < es.len() && es[i].key@ == k {
                let i = choose|i: int| 0 <= i < es.len() && es[i].key@ == k;
                assert(i < es.len() - 1);
                assert(es.drop_last()[i].key@ == k);
            }
        }
    }
}

proof fn lemma_cmap_get(es: Seq<CacheEntry>, i: int)
    requires
        no_dup_keys(es),
        0 <= i < es.len(),
    ensures
        cmap_of(es).dom().contains(es[i].key@),
        cmap_of(es)[es[i].key@] == es[i].snap@,
    decreases es.len(),
{
    lemma_cmap_contains(es, es[i].key@);
    if i < es.len() - 1 {
        assert(es[i].key@ != es.last().key@);
        assert(es.drop_last()[i] == es[i]);
        lemma_cmap_get(es.drop_last(), i);
    }
}

proof fn lemma_cmap_remove(es: Seq<CacheEntry>, i: int)
    requires
        no_dup_keys(es),
        0 <= i < es.len(),
    ensures
        cmap_of(es.remove(i)) == cmap_of(es).remove(es[i].key@),
    decreases es.len(),
{
    if i == es.len() - 1 {
        assert(es.remove(i) =~= es.drop_last());
        lemma_cmap_contains(es.drop_last(), es[i].key@);
        if cmap_of(es.drop_last()).dom().contains(es[i].key@) {
            let p = choose|p: int| 0 <= p < es.len() - 1 && es.drop_last()[p].key@ == es[i].key@;
            assert(es[p].key@ == es[i].key@);
            assert(false);
        }
        assert(cmap_of(es.drop_last()).insert(es[i].key@, es[i].snap@).remove(es[i].key@)
            =~= cmap_of(es.drop_last()));
    } else {
        assert(es.remove(i).drop_last() =~= es.drop_last().remove(i));
        assert(es.remove(i).last() == es.last());
        assert(es.drop_last()[i] == es[i]);
        lemma_cmap_remove(es.drop_last(), i);
        assert(cmap_of(es.drop_last()).remove(es[i].key@).insert(es.last().key@, es.last().snap@)
            =~= cmap_of(es.drop_last()).insert(es.last().key@, es.last().snap@).remove(
            es[i].key@,
        ));
    }
}

/// True iff the two id lists hold the same ids in the same order.
pub fn ids_eq(a: &Vec<EventId>, b: &Vec<EventId>) -> (r: bool)
    ensures
        r == (a@ == b@),
{
    if a.len() != b.len() {
        proof {
            assert(a@ != b@);
        }
        return false;
    }
    let mut i: usize = 0;
    while i < a.len()
        invariant
            i <= a@.len() == b@.len(),
            forall|p: int| 0 <= p < i ==> a@[p] == b@[p],
        decreases a@.len() - i,
    {
        if a[i] != b[i] {
            return false;
        }
        i = i + 1;
    }
    proof {
        assert(a@ =~= b@);
    }
    true
}

/// Bounded, recency-ordered memo from frontiers to resolved snapshots.
/// The most recently used entry sits last; the entry at the front is the
/// eviction victim when the bound is reached.
pub struct StateCache {
    entries: Vec<CacheEntry>,
    cap: usize,
}

impl View for StateCache {
    type V = Map<Seq<EventId>, Map<Slot, EventId>>;

    closed spec fn view(&self) -> Map<Seq<EventId>, Map<Slot, EventId>> {
        cmap_of(self.entries@)
    }
}

impl StateCache {
    /// Internal invariant: distinct keys, well-formed snapshots, at most
    /// `cap` entries.
    pub closed spec fn wf(self) -> bool {
        no_dup_keys(self.entries@) && self.cap >= 1 && self.entries@.len() <= self.cap
            && forall|i: int| 0 <= i < self.entries@.len() ==> (#[trigger] self.entries@[i]).snap.wf()
    }

    pub closed spec fn capacity(self) -> usize {
        self.cap
    }

    /// An empty cache bounded at `cap` entries.
    pub fn new(cap: usize) -> (r: StateCache)
        requires
            cap >= 1,
        ensures
            r.wf(),
            r@ == Map::<Seq<EventId>, Map<Slot, EventId>>::empty(),
            r.capacity() == cap,
    {
        StateCache { entries: Vec::new(), cap }
    }

    /// The cached snapshot for a frontier, if present; a hit refreshes
    /// the entry's recency and leaves the mapping unchanged.
    pub fn lookup(&mut self, key: &Vec<EventId>) -> (r: Option<StateSnapshot>)
        requires
            old(self).wf(),
        ensures
            final(self).wf(),
            final(self)@ == old(self)@,
            final(self).capacity() == old(self).capacity(),
            r matches Some(s) ==> old(self)@.dom().contains(key@) && s@ == old(self)@[key@]
                && s.wf(),
            r is None ==> !old(self)@.dom().contains(key@),
    {
        let mut i: usize = 0;
        while i < self.entries.len()
            invariant
                i <= self.entries@.len(),
                self.wf(),
                *self == *old(self),
                forall|p: int| 0 <= p < i ==> (#[trigger] self.entries@[p]).key@ != key@,
            decreases self.entries@.len() - i,
        {
            if ids_eq(&self.entries[i].key, key) {
                proof {
                    lemma_cmap_get(self.entries@, i as int);
                    lemma_cmap_remove(self.entries@, i as int);
                }
                let ghost es0 = self.entries@;
                let ent = self.entries.remove(i);
                let out = ent.snap.duplicate();
                let ghost es1 = self.entries@;
                self.entries.push(ent);
                proof {
                    assert(self.entries@.drop_last() =~= es1);
                    assert(cmap_of(self.entries@) == cmap_of(es1).insert(ent.key@, ent.snap@));
                    assert(cmap_of(es1) == cmap_of(es0).remove(ent.key@));
                    assert(cmap_of(es0).remove(ent.key@).insert(ent.key@, ent.snap@) =~= cmap_of(
                        es0,
                    ));
                    assert forall|p: int, q: int|
                        0 <= p < q < self.entries@.len() implies self.entries@[p].key@
                        != self.entries@[q].key@ by {
                        if q < self.entries@.len() - 1 {
                            assert(self.entries@[p] == es1[p] && self.entries@[q] == es1[q]);
                        } else {
                            assert(self.entries@[p] == es1[p]);
                            if p < i {
                                assert(es1[p] == es0[p]);
                            } else {
                                assert(es1[p] == es0[p + 1]);
                            }
                        }
                    }
                }
                return Some(out);
            }
            i = i + 1;
        }
        proof {
            lemma_cmap_contains(self.entries@, key@);
        }
        None
    }

    /// Caches a snapshot for a frontier, superseding any previous entry
    /// for it; at the bound, the least recently used entry is evicted.
    pub fn insert(&mut self, key: Vec<EventId>, snap: StateSnapshot)
        requires
            old(self).wf(),
            snap.wf(),
        ensures
            final(self).wf(),
            final(self).capacity() == old(self).capacity(),
            final(self)@.dom().contains(key@),
            final(self)@[key@] == snap@,
            forall|k: Seq<EventId>|
                #[trigger] final(self)@.dom().contains(k) && k != key@ ==> old(self)@.dom()
                    .contains(k) && final(self)@[k] == old(self)@[k],
    {
        self.remove(&key);
        if self.entries.len() >= self.cap {
            proof {
                lemma_cmap_remove(self.entries@, 0);
            }
            let ghost es0 = self.entries@;
            let _victim = self.entries.remove(0);
            proof {
                assert forall|p: int, q: int|
                    0 <= p < q < self.entries@.len() implies self.entries@[p].key@
                    != self.entries@[q].key@ by {
                    assert(self.entries@[p] == es0[p + 1] && self.entries@[q] == es0[q + 1]);
                }
            }
        }
        proof {
            lemma_cmap_contains(self.entries@, key@);
            assert(self.entries@.push(CacheEntry { key, snap }).drop_last() =~= self.entries@);
        }
        self.entries.push(CacheEntry { key, snap });
    }

    /// Drops the entry for a frontier, if present.
    pub fn remove(&mut self, key: &Vec<EventId>)
        requires
            old(self).wf(),
        ensures
            final(self).wf(),
            final(self).capacity() == old(self).capacity(),
            final(self)@ == old(self)@.remove(key@),
    {
        let mut i: usize = 0;
        while i < self.entries.len()
            invariant
                i <= self.entries@.len(),
                self.wf(),
                *self == *old(self),
                forall|p: int| 0 <= p < i ==> (#[trigger] self.entries@[p]).key@ != key@,
            decreases self.entries@.len() - i,
        {
            if ids_eq(&self.entries[i].key, key) {
                proof {
                    lemma_cmap_get(self.entries@, i as int);
                    lemma_cmap_remove(self.entries@, i as int);
                }
                let ghost es0 = self.entries@;
                let _ent = self.entries.remove(i);
                proof {
                    assert forall|p: int, q: int|
                        0 <= p < q < self.entries@.len() implies self.entries@[p].key@
                        != self.entries@[q].key@ by {
                        if p < i {
                            assert(self.entries@[p] == es0[p]);
                        } else {
                            assert(self.entries@[p] == es0[p + 1]);
                        }
                        if q < i {
                            assert(self.entries@[q] == es0[q]);
                        } else {
                            assert(self.entries@[q] == es0[q + 1]);
                        }
                    }
                }
                return ;
            }
            i = i + 1;
        }
        proof {
            lemma_cmap_contains(self.entries@, key@);
            assert(old(self)@.remove(key@) =~= old(self)@);
        }
    }

    /// Number of cached frontiers.
    pub fn len(&self) -> (n: usize)
        requires
            self.wf(),
        ensures
            n <= self.capacity(),
    {
        self.entries.len()
    }
}

} // verus!
