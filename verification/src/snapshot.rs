//! State snapshots: the mapping from `(event_type, state_key)` slots to
//! the event currently occupying each slot, viewed as a mathematical map.

use vstd::prelude::*;

use crate::event::{EventId, Slot};

verus! {

/// One slot assignment in a state snapshot.
#[derive(Clone, Copy, PartialEq, Eq, Structural, Debug)]
pub struct SlotEntry {
    pub slot: Slot,
    pub event: EventId,
}

/// Map view of a slot-entry sequence; a well-formed snapshot never
/// repeats a slot, so which entry wins is immaterial.
pub open spec fn map_of(es: Seq<SlotEntry>) -> Map<Slot, EventId>
    decreases es.len(),
{
    if es.len() == 0 {
        Map::empty()
    } else {
        map_of(es.drop_last()).insert(es.last().slot, es.last().event)
    }
}

/// No slot appears twice.
pub open spec fn no_dup_slots(es: Seq<SlotEntry>) -> bool {
    forall|i: int, j: int| 0 <= i < j < es.len() ==> es[i].slot != es[j].slot
}

/// The set of event ids a snapshot maps some slot to.
pub open spec fn spec_values(m: Map<Slot, EventId>) -> Set<EventId> {
    Set::new(|id: EventId| exists|s: Slot| m.dom().contains(s) && m[s] == id)
}

pub proof fn lemma_map_of_contains(es: Seq<SlotEntry>, s: Slot)
    ensures
        map_of(es).dom().contains(s) <==> exists|i: int| 0 <= i < es.len() && es[i].slot == s,
    decreases es.len(),
{
    if es.len() > 0 {
        lemma_map_of_contains(es.drop_last(), s);
        if es.last().slot == s {
            assert(es[es.len() - 1].slot == s);
        } else {
            if exists|i: int| 0 <= i < es.len() && es[i].slot == s {
                let i = choose|i: int| 0 <= i < es.len() && es[i].slot == s;
                assert(i < es.len() - 1);
                assert(es.drop_last()[i].slot == s);
            }
        }
    }
}

pub proof fn lemma_map_of_get(es: Seq<SlotEntry>, i: int)
    requires
        no_dup_slots(es),
        0 <= i < es.len(),
    ensures
        map_of(es).dom().contains(es[i].slot),
        map_of(es)[es[i].slot] == es[i].event,
    decreases es.len(),
{
    lemma_map_of_contains(es, es[i].slot);
    if i == es.len() - 1 {
    } else {
        assert(es[i].slot != es.last().slot);
        assert(es.drop_last()[i] == es[i]);
        lemma_map_of_get(es.drop_last(), i);
    }
}

pub proof fn lemma_map_of_finite(es: Seq<SlotEntry>)
    ensures
        map_of(es).dom().finite(),
    decreases es.len(),
{
    if es.len() > 0 {
        lemma_map_of_finite(es.drop_last());
    }
}

pub proof fn lemma_map_of_update(es: Seq<SlotEntry>, i: int, v: EventId)
    requires
        no_dup_slots(es),
        0 <= i < es.len(),
    ensures
        map_of(es.update(i, SlotEntry { slot: es[i].slot, event: v })) == map_of(es).insert(
            es[i].slot,
            v,
        ),
    decreases es.len(),
{
    let s = es[i].slot;
    let x = SlotEntry { slot: s, event: v };
    if i == es.len() - 1 {
        assert(es.update(i, x).drop_last() =~= es.drop_last());
        assert(es.update(i, x).last() == x);
        assert(map_of(es.drop_last()).insert(s, es[i].event).insert(s, v) =~= map_of(
            es.drop_last(),
        ).insert(s, v));
    } else {
        let t = es.last().slot;
        let w = es.last().event;
        assert(t != s);
        assert(es.update(i, x).drop_last() =~= es.drop_last().update(i, x));
        assert(es.update(i, x).last() == es.last());
        assert(es.drop_last()[i] == es[i]);
        lemma_map_of_update(es.drop_last(), i, v);
        assert(map_of(es.drop_last()).insert(s, v).insert(t, w) =~= map_of(es.drop_last()).insert(
            t,
            w,
        ).insert(s, v));
    }
}

/// A state snapshot: at most one occupant per `(event_type, state_key)`
/// slot.
pub struct StateSnapshot {
    entries: Vec<SlotEntry>,
}

impl View for StateSnapshot {
    type V = Map<Slot, EventId>;

    closed spec fn view(&self) -> Map<Slot, EventId> {
        map_of(self.entries@)
    }
}

impl StateSnapshot {
    /// Internal invariant: no slot occurs twice in the entry list.
    pub closed spec fn wf(self) -> bool {
        no_dup_slots(self.entries@)
    }

    /// The entry list backing the snapshot, for callers that iterate it.
    pub closed spec fn entries_seq(self) -> Seq<SlotEntry> {
        self.entries@
    }

    /// Every entry is one binding of the snapshot's map, and every
    /// binding comes from some entry.
    pub proof fn lemma_entries_view(self)
        requires
            self.wf(),
        ensures
            forall|i: int|
                0 <= i < self.entries_seq().len() ==> self@.dom().contains(
                    #[trigger] self.entries_seq()[i].slot,
                ) && self@[self.entries_seq()[i].slot] == self.entries_seq()[i].event,
            forall|s: Slot|
                self@.dom().contains(s) ==> exists|i: int|
                    0 <= i < self.entries_seq().len() && #[trigger] self.entries_seq()[i].slot
                        == s,
    {
        assert forall|i: int| 0 <= i < self.entries_seq().len() implies self@.dom().contains(
            #[trigger] self.entries_seq()[i].slot,
        ) && self@[self.entries_seq()[i].slot] == self.entries_seq()[i].event by {
            lemma_map_of_get(self.entries@, i);
        }
        assert forall|s: Slot| self@.dom().contains(s) implies exists|i: int|
            0 <= i < self.entries_seq().len() && #[trigger] self.entries_seq()[i].slot == s by {
            lemma_map_of_contains(self.entries@, s);
        }
    }

    /// A well-formed snapshot's entry list repeats no slot.
    pub proof fn lemma_entries_distinct(self)
        requires
            self.wf(),
        ensures
            no_dup_slots(self.entries_seq()),
    {
    }

    /// The map view is exactly the map of the entry list.
    pub proof fn lemma_view_is_map_of(self)
        ensures
            self@ == map_of(self.entries_seq()),
    {
    }

    /// The empty snapshot.
    pub fn new() -> (r: StateSnapshot)
        ensures
            r@ == Map::<Slot, EventId>::empty(),
            r.wf(),
            r.entries_seq().len() == 0,
    {
        StateSnapshot { entries: Vec::new() }
    }

    pub fn num_entries(&self) -> (n: usize)
        ensures
            n == self.entries_seq().len(),
    {
        self.entries.len()
    }

    pub fn entry_at(&self, i: usize) -> (x: SlotEntry)
        requires
            i < self.entries_seq().len(),
        ensures
            x == self.entries_seq()[i as int],
    {
        self.entries[i]
    }

    /// True exactly when no slot is occupied.
    pub fn is_empty(&self) -> (r: bool)
        requires
            self.wf(),
        ensures
            r <==> self@ == Map::<Slot, EventId>::empty(),
    {
        if self.entries.len() == 0 {
            true
        } else {
            proof {
                lemma_map_of_get(self.entries@, 0);
                assert(self@.dom().contains(self.entries@[0].slot));
            }
            false
        }
    }

    /// The occupant of a slot, if any.
    pub fn get(&self, slot: Slot) -> (r: Option<EventId>)
        requires
            self.wf(),
        ensures
            r == if self@.dom().contains(slot) {
                Some(self@[slot])
            } else {
                None::<EventId>
            },
    {
        let mut i: usize = 0;
        while i < self.entries.len()
            invariant
                i <= self.entries@.len(),
                self.wf(),
                forall|p: int| 0 <= p < i ==> self.entries@[p].slot != slot,
            decreases self.entries@.len() - i,
        {
            if self.entries[i].slot == slot {
                proof {
                    lemma_map_of_get(self.entries@, i as int);
                }
                return Some(self.entries[i].event);
            }
            i = i + 1;
        }
        proof {
            lemma_map_of_contains(self.entries@, slot);
        }
        None
    }

    /// Sets the occupant of a slot, superseding any prior occupant.
    pub fn set(&mut self, slot: Slot, id: EventId)
        requires
            old(self).wf(),
        ensures
            final(self).wf(),
            final(self)@ == old(self)@.insert(slot, id),
    {
        let n = self.entries.len();
        let mut i: usize = 0;
        while i < n
            invariant
                i <= n == self.entries@.len(),
                self.wf(),
                *self == *old(self),
                forall|p: int| 0 <= p < i ==> self.entries@[p].slot != slot,
            decreases n - i,
        {
            if self.entries[i].slot == slot {
                proof {
                    lemma_map_of_update(self.entries@, i as int, id);
                }
                self.entries.set(i, SlotEntry { slot, event: id });
                return ;
            }
            i = i + 1;
        }
        proof {
            assert(self.entries@.push(SlotEntry { slot, event: id }).drop_last()
                =~= self.entries@);
        }
        self.entries.push(SlotEntry { slot, event: id });
    }

    /// An identical, independently owned snapshot.
    pub fn duplicate(&self) -> (r: StateSnapshot)
        ensures
            r@ == self@,
            r.wf() == self.wf(),
            r.entries_seq() == self.entries_seq(),
    {
        let mut es: Vec<SlotEntry> = Vec::new();
        let mut i: usize = 0;
        while i < self.entries.len()
            invariant
                i <= self.entries@.len(),
                es@ == self.entries@.take(i as int),
            decreases self.entries@.len() - i,
        {
            es.push(self.entries[i]);
            proof {
                assert(self.entries@.take(i + 1 as int) =~= self.entries@.take(i as int).push(
                    self.entries@[i as int],
                ));
            }
            i = i + 1;
        }
        proof {
            assert(self.entries@.take(self.entries@.len() as int) =~= self.entries@);
        }
        StateSnapshot { entries: es }
    }
}

} // verus!
