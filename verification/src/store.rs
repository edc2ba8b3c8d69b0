//! The event store: append-only, content-addressed storage of events
//! keyed by event id, with lookup by id, by room, and by reverse
//! (`is referenced by`) edges.

use vstd::prelude::*;

use crate::event::{spec_valid, spec_validate, validate, EngineError, Event, EventId, RoomId};

verus! {

/// Map view of an event sequence, keyed by event id.
pub open spec fn emap_of(es: Seq<Event>) -> Map<EventId, Event>
    decreases es.len(),
{
    if es.len() == 0 {
        Map::empty()
    } else {
        emap_of(es.drop_last()).insert(es.last().event_id, es.last())
    }
}

/// No event id appears twice.
pub open spec fn no_dup_ids(es: Seq<Event>) -> bool {
    forall|i: int, j: int| 0 <= i < j < es.len() ==> es[i].event_id != es[j].event_id
}

/// The events that name `id` as a parent.
pub open spec fn spec_children(m: Map<EventId, Event>, id: EventId) -> Set<EventId> {
    Set::new(|c: EventId| m.dom().contains(c) && m[c].prev_events@.contains(id))
}

/// The stored events of a room.
pub open spec fn spec_room_events(m: Map<EventId, Event>, room: RoomId) -> Set<EventId> {
    Set::new(|x: EventId| m.dom().contains(x) && m[x].room_id == room)
}

pub proof fn lemma_emap_contains(es: Seq<Event>, id: EventId)
    ensures
        emap_of(es).dom().contains(id) <==> exists|i: int| 0 <= i < es.len() && es[i].event_id
            == id,
    decreases es.len(),
{
    if es.len() > 0 {
        lemma_emap_contains(es.drop_last(), id);
        if es.last().event_id == id {
            assert(es[es.len() - 1].event_id == id);
        } else {
            if exists|i: int| 0 <= i < es.len() && es[i].event_id == id {
                let i = choose|i: int| 0 <= i < es.len() && es[i].event_id == id;
                assert(i < es.len() - 1);
                assert(es.drop_last()[i].event_id == id);
            }
        }
    }
}

pub proof fn lemma_emap_get(es: Seq<Event>, i: int)
    requires
        no_dup_ids(es),
        0 <= i < es.len(),
    ensures
        emap_of(es).dom().contains(es[i].event_id),
        emap_of(es)[es[i].event_id] == es[i],
    decreases es.len(),
{
    lemma_emap_contains(es, es[i].event_id);
    if i < es.len() - 1 {
        assert(es[i].event_id != es.last().event_id);
        assert(es.drop_last()[i] == es[i]);
        lemma_emap_get(es.drop_last(), i);
    }
}

pub proof fn lemma_emap_finite(es: Seq<Event>)
    ensures
        emap_of(es).dom().finite(),
    decreases es.len(),
{
    if es.len() > 0 {
        lemma_emap_finite(es.drop_last());
    }
}

/// True iff `x` occurs in the id list.
pub fn contains_id(ids: &Vec<EventId>, x: EventId) -> (r: bool)
    ensures
        r == ids@.contains(x),
{
    let mut i: usize = 0;
    while i < ids.len()
        invariant
            i <= ids@.len(),
            forall|p: int| 0 <= p < i ==> ids@[p] != x,
        decreases ids@.len() - i,
    {
        if ids[i] == x {
            return true;
        }
        i = i + 1;
    }
    false
}

/// Append-only, content-addressed event storage. Every stored event has
/// passed validation, and ids are unique.
pub struct EventStore {
    events: Vec<Event>,
}

impl View for EventStore {
    type V = Map<EventId, Event>;

    closed spec fn view(&self) -> Map<EventId, Event> {
        emap_of(self.events@)
    }
}

impl EventStore {
    /// Internal invariant: ids unique, every stored event valid.
    pub closed spec fn wf(self) -> bool {
        no_dup_ids(self.events@) && forall|i: int|
            0 <= i < self.events@.len() ==> spec_valid(#[trigger] self.events@[i])
    }

    /// Every stored event sits under its own id and is valid.
    pub proof fn lemma_view_keys(self)
        requires
            self.wf(),
        ensures
            forall|id: EventId|
                self@.dom().contains(id) ==> (#[trigger] self@[id]).event_id == id && spec_valid(
                    self@[id],
                ),
            self@.dom().finite(),
    {
        assert forall|id: EventId| self@.dom().contains(id) implies (#[trigger] self@[id]).event_id
            == id && spec_valid(self@[id]) by {
            lemma_emap_contains(self.events@, id);
            let i = choose|i: int| 0 <= i < self.events@.len() && self.events@[i].event_id == id;
            lemma_emap_get(self.events@, i);
        }
        lemma_emap_finite(self.events@);
    }

    /// An empty store.
    pub fn new() -> (r: EventStore)
        ensures
            r@ == Map::<EventId, Event>::empty(),
            r.wf(),
    {
        EventStore { events: Vec::new() }
    }

    /// Whether an event with this id has been accepted.
    pub fn contains(&self, id: EventId) -> (r: bool)
        ensures
            r == self@.dom().contains(id),
    {
        let mut i: usize = 0;
        while i < self.events.len()
            invariant
                i <= self.events@.len(),
                forall|p: int| 0 <= p < i ==> self.events@[p].event_id != id,
            decreases self.events@.len() - i,
        {
            if self.events[i].event_id == id {
                proof {
                    lemma_emap_contains(self.events@, id);
                }
                return true;
            }
            i = i + 1;
        }
        proof {
            lemma_emap_contains(self.events@, id);
        }
        false
    }

    /// Lookup by event id.
    pub fn get(&self, id: EventId) -> (r: Option<&Event>)
        requires
            self.wf(),
        ensures
            match r {
                Some(e) => self@.dom().contains(id) && *e == self@[id],
                None => !self@.dom().contains(id),
            },
    {
        let mut i: usize = 0;
        while i < self.events.len()
            invariant
                i <= self.events@.len(),
                self.wf(),
                forall|p: int| 0 <= p < i ==> self.events@[p].event_id != id,
            decreases self.events@.len() - i,
        {
            if self.events[i].event_id == id {
                proof {
                    lemma_emap_get(self.events@, i as int);
                }
                return Some(&self.events[i]);
            }
            i = i + 1;
        }
        proof {
            lemma_emap_contains(self.events@, id);
        }
        None
    }

    /// Accepts an event: idempotent on a known id, rejects a malformed
    /// event or one whose declared id differs from the recomputed hash,
    /// and otherwise appends it.
    pub fn put(&mut self, e: Event) -> (r: Result<(), EngineError>)
        requires
            old(self).wf(),
        ensures
            final(self).wf(),
            old(self)@.dom().contains(e.event_id) ==> r == Ok::<(), EngineError>(()) && *final(self)
                == *old(self),
            !old(self)@.dom().contains(e.event_id) ==> r == spec_validate(e),
            !old(self)@.dom().contains(e.event_id) && spec_validate(e) == Ok::<(), EngineError>(())
                ==> final(self)@ == old(self)@.insert(e.event_id, e),
            !old(self)@.dom().contains(e.event_id) && spec_validate(e) != Ok::<(), EngineError>(())
                ==> *final(self) == *old(self),
    {
        if self.contains(e.event_id) {
            return Ok(());
        }
        match validate(&e) {
            Err(err) => Err(err),
            Ok(()) => {
                proof {
                    assert(self.events@.push(e).drop_last() =~= self.events@);
                    lemma_emap_contains(self.events@, e.event_id);
                }
                self.events.push(e);
                Ok(())
            },
        }
    }

    /// The ids of the stored events that name `id` as a parent.
    pub fn children_of(&self, id: EventId) -> (r: Vec<EventId>)
        requires
            self.wf(),
        ensures
            r@.no_duplicates(),
            forall|c: EventId| r@.contains(c) <==> spec_children(self@, id).contains(c),
    {
        let mut r: Vec<EventId> = Vec::new();
        let mut i: usize = 0;
        while i < self.events.len()
            invariant
                i <= self.events@.len(),
                self.wf(),
                r@.no_duplicates(),
                forall|c: EventId|
                    r@.contains(c) <==> exists|p: int|
                        0 <= p < i && (#[trigger] self.events@[p]).event_id == c
                            && self.events@[p].prev_events@.contains(id),
            decreases self.events@.len() - i,
        {
            let ghost r_old = r@;
            if contains_id(&self.events[i].prev_events, id) {
                let c = self.events[i].event_id;
                proof {
                    if r_old.contains(c) {
                        let p = choose|p: int|
                            0 <= p < i && (#[trigger] self.events@[p]).event_id == c
                                && self.events@[p].prev_events@.contains(id);
                        assert(self.events@[p].event_id == self.events@[i as int].event_id);
                        assert(false);
                    }
                }
                r.push(c);
                proof {
                    assert forall|c2: EventId| r@.contains(c2) implies exists|p: int|
                        0 <= p < i + 1 && (#[trigger] self.events@[p]).event_id == c2
                            && self.events@[p].prev_events@.contains(id) by {
                        if c2 == c {
                            assert(self.events@[i as int].event_id == c2
                                && self.events@[i as int].prev_events@.contains(id));
                        } else {
                            assert(r_old.contains(c2));
                        }
                    }
                    assert forall|c2: EventId|
                        exists|p: int|
                            0 <= p < i + 1 && (#[trigger] self.events@[p]).event_id == c2
                                && self.events@[p].prev_events@.contains(id) implies r@.contains(
                        c2,
                    ) by {
                        let p = choose|p: int|
                            0 <= p < i + 1 && (#[trigger] self.events@[p]).event_id == c2
                                && self.events@[p].prev_events@.contains(id);
                        if p < i {
                            assert(r_old.contains(c2));
                            let k = choose|k: int| 0 <= k < r_old.len() && r_old[k] == c2;
                            assert(r@[k] == c2);
                        } else {
                            assert(r@.last() == c);
                        }
                    }
                }
            } else {
                proof {
                    assert forall|c2: EventId|
                        exists|p: int|
                            0 <= p < i + 1 && (#[trigger] self.events@[p]).event_id == c2
                                && self.events@[p].prev_events@.contains(id) implies r@.contains(
                        c2,
                    ) by {
                        let p = choose|p: int|
                            0 <= p < i + 1 && (#[trigger] self.events@[p]).event_id == c2
                                && self.events@[p].prev_events@.contains(id);
                        assert(p < i);
                    }
                }
            }
            i = i + 1;
        }
        proof {
            assert forall|c: EventId| r@.contains(c) implies spec_children(self@, id).contains(
                c,
            ) by {
                let p = choose|p: int|
                    0 <= p < self.events@.len() && (#[trigger] self.events@[p]).event_id == c
                        && self.events@[p].prev_events@.contains(id);
                lemma_emap_get(self.events@, p);
            }
            assert forall|c: EventId| spec_children(self@, id).contains(c) implies r@.contains(
                c,
            ) by {
                lemma_emap_contains(self.events@, c);
                let p = choose|p: int|
                    0 <= p < self.events@.len() && self.events@[p].event_id == c;
                lemma_emap_get(self.events@, p);
                assert(self.events@[p].prev_events@.contains(id));
            }
        }
        r
    }

    /// The ids of the stored events of a room, for backfill.
    pub fn events_in_room(&self, room: RoomId) -> (r: Vec<EventId>)
        requires
            self.wf(),
        ensures
            r@.no_duplicates(),
            forall|c: EventId| r@.contains(c) <==> spec_room_events(self@, room).contains(c),
    {
        let mut r: Vec<EventId> = Vec::new();
        let mut i: usize = 0;
        while i < self.events.len()
            invariant
                i <= self.events@.len(),
                self.wf(),
                r@.no_duplicates(),
                forall|c: EventId|
                    r@.contains(c) <==> exists|p: int|
                        0 <= p < i && (#[trigger] self.events@[p]).event_id == c
                            && self.events@[p].room_id == room,
            decreases self.events@.len() - i,
        {
            let ghost r_old = r@;
            if self.events[i].room_id == room {
                let c = self.events[i].event_id;
                proof {
                    if r_old.contains(c) {
                        let p = choose|p: int|
                            0 <= p < i && (#[trigger] self.events@[p]).event_id == c
                                && self.events@[p].room_id == room;
                        assert(false);
                    }
                }
                r.push(c);
                proof {
                    assert forall|c2: EventId| r@.contains(c2) implies exists|p: int|
                        0 <= p < i + 1 && (#[trigger] self.events@[p]).event_id == c2
                            && self.events@[p].room_id == room by {
                        if c2 == c {
                            assert(self.events@[i as int].event_id == c2
                                && self.events@[i as int].room_id == room);
                        } else {
                            assert(r_old.contains(c2));
                        }
                    }
                    assert forall|c2: EventId|
                        exists|p: int|
                            0 <= p < i + 1 && (#[trigger] self.events@[p]).event_id == c2
                                && self.events@[p].room_id == room implies r@.contains(c2) by {
                        let p = choose|p: int|
                            0 <= p < i + 1 && (#[trigger] self.events@[p]).event_id == c2
                                && self.events@[p].room_id == room;
                        if p < i {
                            assert(r_old.contains(c2));
                            let k = choose|k: int| 0 <= k < r_old.len() && r_old[k] == c2;
                            assert(r@[k] == c2);
                        } else {
                            assert(r@.last() == c);
                        }
                    }
                }
            } else {
                proof {
                    assert forall|c2: EventId|
                        exists|p: int|
                            0 <= p < i + 1 && (#[trigger] self.events@[p]).event_id == c2
                                && self.events@[p].room_id == room implies r@.contains(c2) by {
                        let p = choose|p: int|
                            0 <= p < i + 1 && (#[trigger] self.events@[p]).event_id == c2
                                && self.events@[p].room_id == room;
                        assert(p < i);
                    }
                }
            }
            i = i + 1;
        }
        proof {
            assert forall|c: EventId| r@.contains(c) implies spec_room_events(self@, room).contains(
                c,
            ) by {
                let p = choose|p: int|
                    0 <= p < self.events@.len() && (#[trigger] self.events@[p]).event_id == c
                        && self.events@[p].room_id == room;
                lemma_emap_get(self.events@, p);
            }
            assert forall|c: EventId| spec_room_events(self@, room).contains(c) implies r@.contains(
                c,
            ) by {
                lemma_emap_contains(self.events@, c);
                let p = choose|p: int|
                    0 <= p < self.events@.len() && self.events@[p].event_id == c;
                lemma_emap_get(self.events@, p);
            }
        }
        r
    }
}

} // verus!
