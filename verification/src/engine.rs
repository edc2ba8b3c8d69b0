//! The engine: the ingestion pipeline over the event store, the
//! per-room graph index of forward extremities, the per-event resolved
//! post-states, the pending registry for events whose parents have not
//! arrived, and the frontier-keyed state cache with an instrumented
//! resolver-call counter.

use vstd::prelude::*;

use crate::cache::StateCache;
use crate::event::{
    slot_of, spec_slot_of, spec_valid, spec_validate, validate, EngineError, Event, EventId,
    EventType, RoomId, Slot,
};
use crate::resolve::{
    lemma_resolution_values, resolve, spec_candidates,
    spec_is_resolution, views_of,
};
use crate::snapshot::{spec_values, StateSnapshot};
use crate::store::{contains_id, EventStore};

verus! {

/// How many retry rounds a suspended event survives before it is
/// rejected as unresolvable.
pub const RETRY_BUDGET: u64 = 8;

/// How many frontiers the state cache keeps.
pub const CACHE_CAPACITY: usize = 64;

/// Terminal outcome of ingesting one event.
#[derive(Clone, Copy, PartialEq, Eq, Structural, Debug)]
pub enum Outcome {
    /// The event was validated, authorized, persisted and indexed.
    Accepted,
    /// The event id was already stored: idempotent no-op success.
    AlreadyKnown,
    /// A parent is missing; the event waits in the pending registry for
    /// the named id.
    Suspended(EventId),
    /// Terminal failure with its reason.
    Rejected(EngineError),
}

/// An event suspended on a missing parent, with its remaining retry
/// budget.
pub struct Pending {
    pub event: Event,
    pub missing: EventId,
    pub budget: u64,
}

/// Per-room graph index entry: the room's forward extremities.
pub struct RoomMeta {
    pub room_id: RoomId,
    pub extremities: Vec<EventId>,
}

struct StateEntry {
    id: EventId,
    snap: StateSnapshot,
}

/// The events of a room with no recorded children: the live frontier.
pub open spec fn spec_leaves(m: Map<EventId, Event>, room: RoomId) -> Set<EventId> {
    Set::new(
        |x: EventId|
            m.dom().contains(x) && m[x].room_id == room && forall|c: EventId|
                #[trigger] m.dom().contains(c) ==> !m[c].prev_events@.contains(x),
    )
}

/// First id of the list not in `dom`, scanning left to right.
pub open spec fn fm_ids(ids: Seq<EventId>, dom: Set<EventId>) -> Option<EventId>
    decreases ids.len(),
{
    if ids.len() == 0 {
        None
    } else if !dom.contains(ids[0]) {
        Some(ids[0])
    } else {
        fm_ids(ids.drop_first(), dom)
    }
}

/// The first dependency of `e` (a parent, then a cited authorization)
/// that is not locally stored.
pub open spec fn spec_first_missing(e: Event, dom: Set<EventId>) -> Option<EventId> {
    match fm_ids(e.prev_events@, dom) {
        Some(x) => Some(x),
        None => fm_ids(e.auth_events@, dom),
    }
}

/// All parents of a non-create event belong to its own room.
pub open spec fn spec_parents_same_room(e: Event, store: Map<EventId, Event>) -> bool {
    forall|k: int|
        0 <= k < e.prev_events@.len() ==> store[#[trigger] e.prev_events@[k]].room_id == e.room_id
}

pub open spec fn spec_max_depth(ids: Seq<EventId>, store: Map<EventId, Event>) -> int
    decreases ids.len(),
{
    if ids.len() == 0 {
        0
    } else {
        let rest = spec_max_depth(ids.drop_last(), store);
        if store[ids.last()].depth > rest {
            store[ids.last()].depth as int
        } else {
            rest
        }
    }
}

/// The declared depth must be one more than the maximum parent depth
/// (zero for a root).
pub open spec fn spec_depth_ok(e: Event, store: Map<EventId, Event>) -> bool {
    if e.event_type == EventType::Create {
        e.depth == 0
    } else {
        e.depth == spec_max_depth(e.prev_events@, store) + 1
    }
}

/// The parent snapshots of an event, in `prev_events` order.
pub open spec fn spec_parent_views(e: Event, states: Map<EventId, Map<Slot, EventId>>) -> Seq<
    Map<Slot, EventId>,
> {
    e.prev_events@.map_values(|p: EventId| states[p])
}

spec fn smap_of(es: Seq<StateEntry>) -> Map<EventId, Map<Slot, EventId>>
    decreases es.len(),
{
    if es.len() == 0 {
        Map::empty()
    } else {
        smap_of(es.drop_last()).insert(es.last().id, es.last().snap@)
    }
}

spec fn no_dup_sids(es: Seq<StateEntry>) -> bool {
    forall|i: int, j: int| 0 <= i < j < es.len() ==> es[i].id != es[j].id
}

proof fn lemma_smap_contains(es: Seq<StateEntry>, id: EventId)
    ensures
        smap_of(es).dom().contains(id) <==> exists|i: int| 0 <= i < es.len() && es[i].id == id,
    decreases es.len(),
{
    if es.len() > 0 {
        lemma_smap_contains(es.drop_last(), id);
        if es.last().id == id {
            assert(es[es.len() - 1].id == id);
        } else {
            if exists|i: int| 0 <= i < es.len() && es[i].id == id {
                let i = choose|i: int| 0 <= i < es.len() && es[i].id == id;
                assert(i < es.len() - 1);
                assert(es.drop_last()[i].id == id);
            }
        }
    }
}

proof fn lemma_smap_get(es: Seq<StateEntry>, i: int)
    requires
        no_dup_sids(es),
        0 <= i < es.len(),
    ensures
        smap_of(es).dom().contains(es[i].id),
        smap_of(es)[es[i].id] == es[i].snap@,
    decreases es.len(),
{
    lemma_smap_contains(es, es[i].id);
    if i < es.len() - 1 {
        assert(es[i].id != es.last().id);
        assert(es.drop_last()[i] == es[i]);
        lemma_smap_get(es.drop_last(), i);
    }
}

spec fn room_listed_in(rs: Seq<RoomMeta>, room: RoomId) -> bool {
    exists|k: int| 0 <= k < rs.len() && rs[k].room_id == room
}

/// An independently owned copy of an id list.
fn copy_ids(v: &Vec<EventId>) -> (r: Vec<EventId>)
    ensures
        r@ == v@,
{
    let mut r: Vec<EventId> = Vec::new();
    let mut i: usize = 0;
    while i < v.len()
        invariant
            i <= v@.len(),
            r@ == v@.take(i as int),
        decreases v@.len() - i,
    {
        r.push(v[i]);
        proof {
            assert(v@.take(i + 1 as int) =~= v@.take(i as int).push(v@[i as int]));
        }
        i = i + 1;
    }
    proof {
        assert(v@.take(v@.len() as int) =~= v@);
    }
    r
}

/// Sorts a duplicate-free id list into strictly ascending order: the
/// canonical form of a frontier, used as the cache key.
fn sort_asc(v: &mut Vec<EventId>)
    requires
        old(v)@.no_duplicates(),
    ensures
        final(v)@.no_duplicates(),
        final(v)@.to_set() == old(v)@.to_set(),
        final(v)@.len() == old(v)@.len(),
        forall|p: int, q: int| 0 <= p < q < final(v)@.len() ==> final(v)@[p] < final(v)@[q],
{
    let mut i: usize = 1;
    while i < v.len()
        invariant
            1 <= i <= v@.len() || v@.len() == 0,
            v@.no_duplicates(),
            v@.to_set() == old(v)@.to_set(),
            v@.len() == old(v)@.len(),
            forall|p: int, q: int| 0 <= p < q < i ==> v@[p] < v@[q],
        decreases v@.len() - i,
    {
        let mut j: usize = i;
        while j > 0 && v[j] < v[j - 1]
            invariant
                j <= i < v@.len(),
                v@.no_duplicates(),
                v@.to_set() == old(v)@.to_set(),
                v@.len() == old(v)@.len(),
                forall|p: int, q: int| 0 <= p < q <= i && q != j ==> v@[p] < v@[q],
                forall|p: int| j < p <= i ==> v@[j as int] < #[trigger] v@[p],
            decreases j,
        {
            let ghost s1 = v@;
            let x = v[j];
            let y = v[j - 1];
            v.set(j, y);
            v.set(j - 1, x);
            proof {
                let s2 = v@;
                assert forall|id: EventId| s2.to_set().contains(id) implies s1.to_set().contains(
                    id,
                ) by {
                    let p = choose|p: int| 0 <= p < s2.len() && s2[p] == id;
                    if p == j {
                        assert(s1[j - 1] == id);
                    } else if p == j - 1 {
                        assert(s1[j as int] == id);
                    } else {
                        assert(s1[p] == id);
                    }
                }
                assert forall|id: EventId| s1.to_set().contains(id) implies s2.to_set().contains(
                    id,
                ) by {
                    let p = choose|p: int| 0 <= p < s1.len() && s1[p] == id;
                    if p == j {
                        assert(s2[j - 1] == id);
                    } else if p == j - 1 {
                        assert(s2[j as int] == id);
                    } else {
                        assert(s2[p] == id);
                    }
                }
                assert(s2.to_set() =~= s1.to_set());
                assert forall|p: int, q: int| 0 <= p < q < s2.len() implies s2[p] != s2[q] by {
                    if p == j - 1 && q == j {
                    } else if p == j - 1 || p == j || q == j - 1 || q == j {
                    }
                }
                assert forall|p: int, q: int| 0 <= p < q <= i && q != j - 1 implies s2[p]
                    < s2[q] by {
                    if q == j {
                        if p < j - 1 {
                            assert(s1[p] < s1[j - 1]);
                        } else {
                            assert(s1[j as int] < s1[j - 1]);
                        }
                    } else if q > j {
                        if p == j - 1 {
                            assert(s1[j as int] < s1[q]);
                        } else if p == j {
                            assert(s1[j - 1] < s1[q]);
                        } else {
                            assert(s1[p] < s1[q]);
                        }
                    } else {
                        assert(s1[p] < s1[q]);
                    }
                }
                assert forall|p: int| j - 1 < p <= i implies s2[j - 1] < #[trigger] s2[p] by {
                    if p == j {
                        assert(s1[j as int] < s1[j - 1]);
                    } else {
                        assert(s1[j as int] < s1[p]);
                    }
                }
            }
            j = j - 1;
        }
        proof {
            assert forall|p: int, q: int| 0 <= p < q <= i implies v@[p] < v@[q] by {
                if q == j {
                    assert(j > 0);
                    assert(!(v@[j as int] < v@[j - 1]));
                    assert(v@[j as int] != v@[j - 1]);
                    assert(v@[j - 1] < v@[j as int]);
                    if p < j - 1 {
                        assert(v@[p] < v@[j - 1]);
                    }
                }
            }
        }
        i = i + 1;
    }
}

/// The updated extremity list of the affected room: the new event,
/// plus every old leaf it does not supersede.
spec fn good_new_exts(
    exts: Seq<EventId>,
    old_store: Map<EventId, Event>,
    room: RoomId,
    ev: Event,
) -> bool {
    exts.no_duplicates() && forall|c: EventId|
        #[trigger] exts.to_set().contains(c) <==> (c == ev.event_id || (spec_leaves(
            old_store,
            room,
        ).contains(c) && !ev.prev_events@.contains(c)))
}

/// The room event graph and state-resolution engine.
pub struct Engine {
    store: EventStore,
    rooms: Vec<RoomMeta>,
    states: Vec<StateEntry>,
    cache: StateCache,
    pending: Vec<Pending>,
    resolutions: u64,
}

impl Engine {
    /// The stored events, keyed by id.
    pub closed spec fn store_map(self) -> Map<EventId, Event> {
        self.store@
    }

    /// The resolved post-state of each stored event.
    pub closed spec fn states_map(self) -> Map<EventId, Map<Slot, EventId>> {
        smap_of(self.states@)
    }

    /// The suspended events.
    pub closed spec fn pending_seq(self) -> Seq<Pending> {
        self.pending@
    }

    /// The cached frontier resolutions.
    pub closed spec fn cache_map(self) -> Map<Seq<EventId>, Map<Slot, EventId>> {
        self.cache@
    }

    /// How many times the resolver has been invoked on behalf of the
    /// frontier cache.
    pub closed spec fn resolution_count(self) -> u64 {
        self.resolutions
    }

    pub closed spec fn rooms_seq(self) -> Seq<RoomMeta> {
        self.rooms@
    }

    /// Whether the engine tracks extremities for a room.
    pub closed spec fn room_listed(self, room: RoomId) -> bool {
        room_listed_in(self.rooms@, room)
    }

    /// The engine invariant: the store is well formed and closed under
    /// parent and auth edges; every stored event has a recorded
    /// post-state whose values are stored; each listed room's extremity
    /// set is exactly its set of childless events; cached snapshots only
    /// name stored events; pending events are valid.
    pub closed spec fn wf(self) -> bool {
        &&& self.store.wf()
        &&& self.cache.wf()
        &&& no_dup_sids(self.states@)
        &&& forall|i: int| 0 <= i < self.states@.len() ==> (#[trigger] self.states@[i]).snap.wf()
        &&& self.states_map().dom() == self.store@.dom()
        &&& forall|id: EventId|
            #[trigger] self.states_map().dom().contains(id) ==> spec_values(
                self.states_map()[id],
            ).subset_of(self.store@.dom())
        &&& forall|id: EventId, p: EventId|
            self.store@.dom().contains(id) && #[trigger] self.store@[id].prev_events@.contains(p)
                ==> self.store@.dom().contains(p)
        &&& forall|id: EventId, p: EventId|
            self.store@.dom().contains(id) && #[trigger] self.store@[id].auth_events@.contains(p)
                ==> self.store@.dom().contains(p)
        &&& forall|i: int, j: int|
            0 <= i < j < self.rooms@.len() ==> self.rooms@[i].room_id != self.rooms@[j].room_id
        &&& forall|k: int|
            0 <= k < self.rooms@.len() ==> (#[trigger] self.rooms@[k]).extremities@.no_duplicates()
                && self.rooms@[k].extremities@.to_set() == spec_leaves(
                self.store@,
                self.rooms@[k].room_id,
            )
        &&& forall|id: EventId|
            #[trigger] self.store@.dom().contains(id) ==> room_listed_in(
                self.rooms@,
                self.store@[id].room_id,
            )
        &&& forall|k: Seq<EventId>|
            #[trigger] self.cache@.dom().contains(k) ==> spec_values(self.cache@[k]).subset_of(
                self.store@.dom(),
            )
        &&& forall|i: int|
            0 <= i < self.pending@.len() ==> spec_valid((#[trigger] self.pending@[i]).event)
    }

    /// A fresh engine with no rooms, events or cached state.
    pub fn new() -> (r: Engine)
        ensures
            r.wf(),
            r.store_map() == Map::<EventId, Event>::empty(),
            r.states_map() == Map::<EventId, Map<Slot, EventId>>::empty(),
            r.pending_seq() == Seq::<Pending>::empty(),
            r.resolution_count() == 0,
    {
        Engine {
            store: EventStore::new(),
            rooms: Vec::new(),
            states: Vec::new(),
            cache: StateCache::new(CACHE_CAPACITY),
            pending: Vec::new(),
            resolutions: 0,
        }
    }

    /// Lookup of a stored event by id.
    pub fn get_event(&self, id: EventId) -> (r: Option<&Event>)
        requires
            self.wf(),
        ensures
            match r {
                Some(e) => self.store_map().dom().contains(id) && *e == self.store_map()[id],
                None => !self.store_map().dom().contains(id),
            },
    {
        self.store.get(id)
    }

    /// Number of resolver invocations made for the frontier cache.
    pub fn resolutions(&self) -> (n: u64)
        ensures
            n == self.resolution_count(),
    {
        self.resolutions
    }

    /// The ids of the stored events that name `id` as a parent.
    pub fn children_of(&self, id: EventId) -> (r: Vec<EventId>)
        requires
            self.wf(),
        ensures
            r@.no_duplicates(),
            forall|c: EventId|
                r@.contains(c) <==> crate::store::spec_children(self.store_map(), id).contains(c),
    {
        self.store.children_of(id)
    }

    /// The forward extremities of a room: exactly its childless stored
    /// events.
    pub fn get_forward_extremities(&self, room: RoomId) -> (r: Vec<EventId>)
        requires
            self.wf(),
        ensures
            r@.no_duplicates(),
            r@.to_set() == spec_leaves(self.store_map(), room),
    {
        let mut k: usize = 0;
        while k < self.rooms.len()
            invariant
                k <= self.rooms@.len(),
                self.wf(),
                forall|p: int| 0 <= p < k ==> self.rooms@[p].room_id != room,
            decreases self.rooms@.len() - k,
        {
            if self.rooms[k].room_id == room {
                let src = &self.rooms[k].extremities;
                let mut out: Vec<EventId> = Vec::new();
                let mut i: usize = 0;
                while i < src.len()
                    invariant
                        i <= src@.len(),
                        out@ == src@.take(i as int),
                    decreases src@.len() - i,
                {
                    out.push(src[i]);
                    proof {
                        assert(src@.take(i + 1 as int) =~= src@.take(i as int).push(
                            src@[i as int],
                        ));
                    }
                    i = i + 1;
                }
                proof {
                    assert(src@.take(src@.len() as int) =~= src@);
                }
                return out;
            }
            k = k + 1;
        }
        proof {
            assert forall|x: EventId| !spec_leaves(self.store@, room).contains(x) by {
                if spec_leaves(self.store@, room).contains(x) {
                    assert(self.store@.dom().contains(x));
                    assert(room_listed_in(self.rooms@, room));
                    let p = choose|p: int|
                        0 <= p < self.rooms@.len() && self.rooms@[p].room_id == room;
                    assert(false);
                }
            }
            assert(Seq::<EventId>::empty().to_set() =~= spec_leaves(self.store@, room));
        }
        Vec::new()
    }

    fn find_state(&self, id: EventId) -> (r: Option<&StateSnapshot>)
        requires
            self.wf(),
        ensures
            match r {
                Some(s) => self.states_map().dom().contains(id) && s@ == self.states_map()[id]
                    && s.wf(),
                None => !self.states_map().dom().contains(id),
            },
    {
        let mut i: usize = 0;
        while i < self.states.len()
            invariant
                i <= self.states@.len(),
                self.wf(),
                forall|p: int| 0 <= p < i ==> self.states@[p].id != id,
            decreases self.states@.len() - i,
        {
            if self.states[i].id == id {
                proof {
                    lemma_smap_get(self.states@, i as int);
                }
                return Some(&self.states[i].snap);
            }
            i = i + 1;
        }
        proof {
            lemma_smap_contains(self.states@, id);
        }
        None
    }

    fn first_missing_in(&self, ids: &Vec<EventId>) -> (r: Option<EventId>)
        ensures
            r == fm_ids(ids@, self.store_map().dom()),
            r is None ==> forall|k: int|
                0 <= k < ids@.len() ==> self.store_map().dom().contains(#[trigger] ids@[k]),
    {
        let ghost dom = self.store@.dom();
        let mut i: usize = 0;
        proof {
            assert(ids@.skip(0) =~= ids@);
        }
        while i < ids.len()
            invariant
                i <= ids@.len(),
                dom == self.store@.dom(),
                fm_ids(ids@, dom) == fm_ids(ids@.skip(i as int), dom),
                forall|k: int| 0 <= k < i ==> dom.contains(#[trigger] ids@[k]),
            decreases ids@.len() - i,
        {
            proof {
                assert(ids@.skip(i as int)[0] == ids@[i as int]);
            }
            if !self.store.contains(ids[i]) {
                proof {
                    assert(fm_ids(ids@.skip(i as int), dom) == Some(ids@[i as int]));
                }
                return Some(ids[i]);
            }
            proof {
                assert(ids@.skip(i as int).drop_first() =~= ids@.skip(i + 1 as int));
            }
            i = i + 1;
        }
        proof {
            assert(ids@.skip(ids@.len() as int) =~= Seq::<EventId>::empty());
        }
        None
    }

    fn max_parent_depth(&self, ids: &Vec<EventId>) -> (r: u64)
        requires
            self.wf(),
            forall|k: int|
                0 <= k < ids@.len() ==> self.store_map().dom().contains(#[trigger] ids@[k]),
        ensures
            r == spec_max_depth(ids@, self.store_map()),
    {
        let mut maxd: u64 = 0;
        let mut k: usize = 0;
        proof {
            assert(ids@.take(0) =~= Seq::<EventId>::empty());
        }
        while k < ids.len()
            invariant
                k <= ids@.len(),
                self.wf(),
                forall|p: int|
                    0 <= p < ids@.len() ==> self.store_map().dom().contains(#[trigger] ids@[p]),
                maxd == spec_max_depth(ids@.take(k as int), self.store@),
            decreases ids@.len() - k,
        {
            let pev = self.store.get(ids[k]).unwrap();
            proof {
                assert(ids@.take(k + 1 as int).drop_last() =~= ids@.take(k as int));
                assert(ids@.take(k + 1 as int).last() == ids@[k as int]);
            }
            if pev.depth > maxd {
                maxd = pev.depth;
            }
            k = k + 1;
        }
        proof {
            assert(ids@.take(ids@.len() as int) =~= ids@);
        }
        maxd
    }

    fn find_room_index(&self, room: RoomId) -> (r: Option<usize>)
        ensures
            match r {
                Some(k) => k < self.rooms_seq().len() && self.rooms_seq()[k as int].room_id
                    == room,
                None => !self.room_listed(room),
            },
    {
        let mut k: usize = 0;
        while k < self.rooms.len()
            invariant
                k <= self.rooms@.len(),
                forall|p: int| 0 <= p < k ==> self.rooms@[p].room_id != room,
            decreases self.rooms@.len() - k,
        {
            if self.rooms[k].room_id == room {
                return Some(k);
            }
            k = k + 1;
        }
        None
    }

    fn first_missing_dep(&self, e: &Event) -> (r: Option<EventId>)
        ensures
            r == spec_first_missing(*e, self.store_map().dom()),
            r is None ==> (forall|k: int|
                0 <= k < e.prev_events@.len() ==> self.store_map().dom().contains(
                    #[trigger] e.prev_events@[k],
                )) && (forall|k: int|
                0 <= k < e.auth_events@.len() ==> self.store_map().dom().contains(
                    #[trigger] e.auth_events@[k],
                )),
    {
        match self.first_missing_in(&e.prev_events) {
            Some(x) => Some(x),
            None => self.first_missing_in(&e.auth_events),
        }
    }

    /// Accepts a new, valid event whose dependencies are all stored:
    /// checks room consistency and depth, resolves the parent frontier,
    /// authorizes, persists, indexes, and refreshes the cache.
    #[verifier::rlimit(80)]
    fn ingest_ready(&mut self, e: Event) -> (r: Outcome)
        requires
            old(self).wf(),
            !old(self).store_map().dom().contains(e.event_id),
            spec_valid(e),
            forall|k: int|
                0 <= k < e.prev_events@.len() ==> old(self).store_map().dom().contains(
                    #[trigger] e.prev_events@[k],
                ),
            forall|k: int|
                0 <= k < e.auth_events@.len() ==> old(self).store_map().dom().contains(
                    #[trigger] e.auth_events@[k],
                ),
        ensures
            final(self).wf(),
            final(self).pending_seq() == old(self).pending_seq(),
            !(spec_parents_same_room(e, old(self).store_map()) && spec_depth_ok(
                e,
                old(self).store_map(),
            )) ==> r == Outcome::Rejected(EngineError::Malformed) && *final(self) == *old(self),
            spec_parents_same_room(e, old(self).store_map()) && spec_depth_ok(
                e,
                old(self).store_map(),
            ) && e.event_type == EventType::Create && old(self).room_listed(e.room_id) ==> r
                == Outcome::Rejected(EngineError::Unauthorized) && *final(self) == *old(self),
            spec_parents_same_room(e, old(self).store_map()) && spec_depth_ok(
                e,
                old(self).store_map(),
            ) && !(e.event_type == EventType::Create && old(self).room_listed(e.room_id)) ==> exists|rs: Map<Slot, EventId>|
                #[trigger] spec_is_resolution(
                    spec_parent_views(e, old(self).states_map()),
                    old(self).store_map(),
                    rs,
                ) && (if crate::auth::spec_authorized(e, rs, old(self).store_map()) {
                    r == Outcome::Accepted && final(self).store_map() == old(self).store_map()
                        .insert(e.event_id, e)
                } else {
                    r == Outcome::Rejected(EngineError::Unauthorized) && *final(self) == *old(self)
                }),
    {
        // Parents must belong to the same room.
        let mut k: usize = 0;
        while k < e.prev_events.len()
            invariant
                k <= e.prev_events@.len(),
                self.wf(),
                *self == *old(self),
                forall|p: int|
                    0 <= p < e.prev_events@.len() ==> self.store_map().dom().contains(
                        #[trigger] e.prev_events@[p],
                    ),
                forall|p: int|
                    0 <= p < k ==> self.store@[#[trigger] e.prev_events@[p]].room_id == e.room_id,
            decreases e.prev_events@.len() - k,
        {
            let pev = self.store.get(e.prev_events[k]).unwrap();
            if pev.room_id != e.room_id {
                proof {
                    assert(!spec_parents_same_room(e, self.store@));
                }
                return Outcome::Rejected(EngineError::Malformed);
            }
            k = k + 1;
        }
        // Depth must be one more than the maximum parent depth.
        let maxd = self.max_parent_depth(&e.prev_events);
        let depth_good: bool = if matches!(e.event_type, EventType::Create) {
            e.depth == 0
        } else {
            maxd < u64::MAX && e.depth == maxd + 1
        };
        if !depth_good {
            return Outcome::Rejected(EngineError::Malformed);
        }
        // A creation event is self-authorizing only as the room's sole
        // root: a room the engine already tracks cannot be re-created.
        if matches!(e.event_type, EventType::Create) {
            if self.find_room_index(e.room_id).is_some() {
                return Outcome::Rejected(EngineError::Unauthorized);
            }
        }
        // Resolve the state at the parent frontier.
        let ghost pviews = spec_parent_views(e, self.states_map());
        let mut psnaps: Vec<StateSnapshot> = Vec::new();
        let mut k3: usize = 0;
        while k3 < e.prev_events.len()
            invariant
                k3 <= e.prev_events@.len(),
                self.wf(),
                *self == *old(self),
                pviews == spec_parent_views(e, self.states_map()),
                forall|p: int|
                    0 <= p < e.prev_events@.len() ==> self.store_map().dom().contains(
                        #[trigger] e.prev_events@[p],
                    ),
                psnaps@.len() == k3,
                forall|q: int|
                    0 <= q < k3 ==> (#[trigger] psnaps@[q])@ == self.states_map()[e.prev_events@[q]]
                        && psnaps@[q].wf(),
            decreases e.prev_events@.len() - k3,
        {
            let sref = self.find_state(e.prev_events[k3]).unwrap();
            let dup = sref.duplicate();
            psnaps.push(dup);
            k3 = k3 + 1;
        }
        proof {
            assert forall|q: int| 0 <= q < psnaps@.len() implies #[trigger] views_of(psnaps@)[q]
                == pviews[q] by {
                assert(views_of(psnaps@)[q] == psnaps@[q]@);
                assert(pviews[q] == self.states_map()[e.prev_events@[q]]);
            }
            assert(views_of(psnaps@) =~= pviews);
        }
        let rres = resolve(&psnaps, &self.store);
        let resolved = match rres {
            Ok(s) => s,
            Err(_) => {
                proof {
                    assert(!spec_candidates(pviews, self.store@).subset_of(self.store@.dom()));
                    let x = choose|x: EventId|
                        spec_candidates(pviews, self.store@).contains(x) && !self.store@.dom()
                            .contains(x);
                    if crate::resolve::spec_conflicted_ids(pviews).contains(x) {
                        let (i2, s2) = choose|i2: int, s2: Slot|
                            crate::resolve::spec_conflicted(pviews, s2)
                                && #[trigger] crate::resolve::view_has(pviews, i2, s2, x);
                        assert(pviews[i2] == self.states_map()[e.prev_events@[i2]]);
                        assert(self.states_map().dom().contains(e.prev_events@[i2]));
                        assert(spec_values(pviews[i2]).contains(x)) by {
                            assert(pviews[i2].dom().contains(s2) && pviews[i2][s2] == x);
                        }
                        assert(self.store@.dom().contains(x));
                        assert(false);
                    } else {
                        assert(crate::resolve::spec_auth_diff(pviews, self.store@).contains(x));
                        let c = choose|c: EventId|
                            crate::resolve::spec_conflicted_ids(pviews).contains(c)
                                && self.store@.dom().contains(c)
                                && #[trigger] self.store@[c].auth_events@.contains(x);
                        assert(self.store@.dom().contains(x));
                        assert(false);
                    }
                }
                return Outcome::Rejected(EngineError::Unresolvable);
            },
        };
        let ghost rsol = resolved@;
        proof {
            assert(spec_is_resolution(pviews, self.store@, rsol));
        }
        // Authorize against the resolved pre-state.
        let reason = crate::auth::authorize(&e, &resolved, &self.store);
        if !matches!(reason, crate::auth::AuthReason::Authorized) {
            proof {
                assert(!crate::auth::spec_authorized(e, rsol, self.store@));
            }
            return Outcome::Rejected(EngineError::Unauthorized);
        }
        // Persist, record the post-state, update the extremities, and
        // refresh the cache.
        let id = e.event_id;
        let room = e.room_id;
        let ghost ev = e;
        let slot_opt = slot_of(&e);
        let prevs = copy_ids(&e.prev_events);
        let ridx = self.find_room_index(room);
        let mut oldkey: Vec<EventId> = match ridx {
            Some(ix) => copy_ids(&self.rooms[ix].extremities),
            None => Vec::new(),
        };
        let ghost old_store = self.store@;
        let ghost old_states_map = self.states_map();
        let put_r = self.store.put(e);
        proof {
            assert(put_r == Ok::<(), EngineError>(()));
            assert(self.store@ == old_store.insert(id, ev));
        }
        let mut post = resolved;
        match slot_opt {
            Some(s) => {
                post.set(s, id);
            },
            None => {},
        }
        let post_for_cache = post.duplicate();
        let ghost old_states_seq = self.states@;
        proof {
            lemma_smap_contains(old_states_seq, id);
        }
        self.states.push(StateEntry { id, snap: post });
        proof {
            assert(self.states@.drop_last() =~= old_states_seq);
            assert(self.states_map() == old_states_map.insert(id, rsol.insert(
                spec_slot_of(ev)->Some_0,
                id,
            )) || self.states_map() == old_states_map.insert(id, rsol));
        }
        // Extremities: the new event is a leaf; its parents no longer are.
        match ridx {
            Some(ix) => {
                let ghost old_exts = self.rooms@[ix as int].extremities@;
                let n = self.rooms[ix].extremities.len();
                let mut newexts: Vec<EventId> = Vec::new();
                let mut k4: usize = 0;
                while k4 < n
                    invariant
                        k4 <= n == old_exts.len(),
                        ix < self.rooms@.len(),
                        self.rooms@[ix as int].extremities@ == old_exts,
                        old_exts.no_duplicates(),
                        newexts@.no_duplicates(),
                        forall|c: EventId|
                            newexts@.contains(c) <==> exists|p: int|
                                0 <= p < k4 && (#[trigger] old_exts[p]) == c && !prevs@.contains(
                                    c,
                                ),
                    decreases n - k4,
                {
                    let x = self.rooms[ix].extremities[k4];
                    let ghost ne0 = newexts@;
                    if !contains_id(&prevs, x) {
                        proof {
                            if ne0.contains(x) {
                                let p = choose|p: int|
                                    0 <= p < k4 && (#[trigger] old_exts[p]) == x
                                        && !prevs@.contains(x);
                                assert(false);
                            }
                        }
                        newexts.push(x);
                        proof {
                            assert forall|c: EventId| newexts@.contains(c) implies exists|p: int|
                                0 <= p < k4 + 1 && (#[trigger] old_exts[p]) == c
                                    && !prevs@.contains(c) by {
                                let q = choose|q: int|
                                    0 <= q < newexts@.len() && newexts@[q] == c;
                                if q == newexts@.len() - 1 {
                                    assert(old_exts[k4 as int] == c);
                                } else {
                                    assert(ne0[q] == c);
                                    assert(ne0.contains(c));
                                }
                            }
                            assert forall|c: EventId|
                                (exists|p: int|
                                    0 <= p < k4 + 1 && (#[trigger] old_exts[p]) == c
                                        && !prevs@.contains(c)) implies newexts@.contains(c) by {
                                let p = choose|p: int|
                                    0 <= p < k4 + 1 && (#[trigger] old_exts[p]) == c
                                        && !prevs@.contains(c);
                                if p < k4 {
                                    assert(ne0.contains(c));
                                    let q = choose|q: int|
                                        0 <= q < ne0.len() && ne0[q] == c;
                                    assert(newexts@[q] == c);
                                } else {
                                    assert(newexts@.last() == c);
                                }
                            }
                        }
                    } else {
                        proof {
                            assert forall|c: EventId|
                                (exists|p: int|
                                    0 <= p < k4 + 1 && (#[trigger] old_exts[p]) == c
                                        && !prevs@.contains(c)) implies newexts@.contains(c) by {
                                let p = choose|p: int|
                                    0 <= p < k4 + 1 && (#[trigger] old_exts[p]) == c
                                        && !prevs@.contains(c);
                                assert(p < k4);
                            }
                        }
                    }
                    k4 = k4 + 1;
                }
                proof {
                    if newexts@.contains(id) {
                        let p = choose|p: int|
                            0 <= p < old_exts.len() && (#[trigger] old_exts[p]) == id
                                && !prevs@.contains(id);
                        assert(old_exts.to_set().contains(id));
                        assert(spec_leaves(old_store, room).contains(id));
                        assert(false);
                    }
                }
                let ghost ne_pre = newexts@;
                newexts.push(id);
                self.rooms.set(ix, RoomMeta { room_id: room, extremities: newexts });
                proof {
                    let new_exts = self.rooms@[ix as int].extremities@;
                    assert(new_exts == ne_pre.push(id));
                    assert(old_exts.to_set() == spec_leaves(old_store, room));
                    assert forall|c: EventId| #[trigger] new_exts.to_set().contains(c) implies (c
                        == id || (spec_leaves(old_store, room).contains(c) && !ev.prev_events@
                        .contains(c))) by {
                        if c != id {
                            let q = choose|q: int|
                                0 <= q < new_exts.len() && new_exts[q] == c;
                            assert(ne_pre[q] == c);
                            assert(ne_pre.contains(c));
                            let p = choose|p: int|
                                0 <= p < old_exts.len() && (#[trigger] old_exts[p]) == c
                                    && !prevs@.contains(c);
                            assert(old_exts.to_set().contains(c));
                        }
                    }
                    assert forall|c: EventId|
                        (c == id || (spec_leaves(old_store, room).contains(c) && !ev.prev_events@
                            .contains(c))) implies #[trigger] new_exts.to_set().contains(c) by {
                        if c == id {
                            assert(new_exts.last() == id);
                        } else {
                            assert(old_exts.to_set().contains(c));
                            let p = choose|p: int|
                                0 <= p < old_exts.len() && old_exts[p] == c;
                            assert(ne_pre.contains(c));
                            let q = choose|q: int| 0 <= q < ne_pre.len() && ne_pre[q] == c;
                            assert(new_exts[q] == c);
                        }
                    }
                    assert(good_new_exts(new_exts, old_store, room, ev));
                }
            },
            None => {
                let mut single: Vec<EventId> = Vec::new();
                single.push(id);
                self.rooms.push(RoomMeta { room_id: room, extremities: single });
                proof {
                    let new_exts = self.rooms@[self.rooms@.len() - 1].extremities@;
                    assert(new_exts =~= seq![id]);
                    assert forall|c: EventId| !spec_leaves(old_store, room).contains(c) by {
                        if spec_leaves(old_store, room).contains(c) {
                            assert(old_store.dom().contains(c));
                            assert(room_listed_in(old(self).rooms@, room));
                            assert(false);
                        }
                    }
                    assert forall|c: EventId| #[trigger] new_exts.to_set().contains(c) implies c
                        == id by {
                        let q = choose|q: int| 0 <= q < new_exts.len() && new_exts[q] == c;
                    }
                    assert(new_exts.to_set().contains(id)) by {
                        assert(new_exts[0] == id);
                    }
                    assert(good_new_exts(new_exts, old_store, room, ev));
                }
            },
        }
        // Cache: drop the superseded frontier; when the new frontier is
        // the new event alone, its post-state is the resolved state there.
        sort_asc(&mut oldkey);
        self.cache.remove(&oldkey);
        let mut newkey: Vec<EventId> = Vec::new();
        newkey.push(id);
        proof {
            lemma_resolution_values(pviews, old_store, rsol);
            assert forall|x: EventId| spec_values(rsol).contains(x) implies old_store.dom()
                .contains(x) by {
                if exists|i2: int|
                    0 <= i2 < pviews.len() && #[trigger] spec_values(pviews[i2]).contains(x) {
                    let i2 = choose|i2: int|
                        0 <= i2 < pviews.len() && #[trigger] spec_values(pviews[i2]).contains(x);
                    assert(pviews[i2] == old_states_map[e.prev_events@[i2]]);
                    assert(old_states_map.dom().contains(e.prev_events@[i2]));
                } else {
                    assert(spec_candidates(pviews, old_store).contains(x));
                }
            }
            assert forall|x: EventId| spec_values(post_for_cache@).contains(x) implies self.store@
                .dom().contains(x) by {
                let s = choose|s: Slot|
                    post_for_cache@.dom().contains(s) && post_for_cache@[s] == x;
                if x != id {
                    assert(rsol.dom().contains(s) && rsol[s] == x);
                    assert(spec_values(rsol).contains(x));
                }
            }
        }
        self.cache.insert(newkey, post_for_cache);
        let out = Outcome::Accepted;
        // Re-establish the engine invariant over the grown store.
        proof {
            let ns = self.store@;
            assert(ns == old_store.insert(id, ev));
            assert(self.states_map().dom() =~= ns.dom());
            assert forall|x: EventId|
                #[trigger] self.states_map().dom().contains(x) implies spec_values(
                self.states_map()[x],
            ).subset_of(ns.dom()) by {
                if x == id {
                    assert forall|y: EventId|
                        spec_values(self.states_map()[id]).contains(y) implies ns.dom().contains(
                        y,
                    ) by {
                        let s = choose|s: Slot|
                            self.states_map()[id].dom().contains(s) && self.states_map()[id][s]
                                == y;
                        if y != id {
                            assert(rsol.dom().contains(s) && rsol[s] == y);
                            assert(spec_values(rsol).contains(y));
                        }
                    }
                } else {
                    assert(old_states_map.dom().contains(x));
                    assert(self.states_map()[x] == old_states_map[x]);
                    assert(spec_values(old_states_map[x]).subset_of(old_store.dom()));
                    assert forall|y: EventId|
                        spec_values(self.states_map()[x]).contains(y) implies ns.dom().contains(
                        y,
                    ) by {
                        assert(old_store.dom().contains(y));
                    }
                }
            }
            assert forall|x: EventId, p: EventId|
                ns.dom().contains(x) && #[trigger] ns[x].prev_events@.contains(p) implies ns.dom()
                .contains(p) by {
                if x == id {
                    let q = choose|q: int| 0 <= q < ev.prev_events@.len() && ev.prev_events@[q]
                        == p;
                    assert(old_store.dom().contains(p));
                } else {
                    assert(old_store.dom().contains(x) && old_store[x] == ns[x]);
                }
            }
            assert forall|x: EventId, p: EventId|
                ns.dom().contains(x) && #[trigger] ns[x].auth_events@.contains(p) implies ns.dom()
                .contains(p) by {
                if x == id {
                    let q = choose|q: int| 0 <= q < ev.auth_events@.len() && ev.auth_events@[q]
                        == p;
                    assert(old_store.dom().contains(p));
                } else {
                    assert(old_store.dom().contains(x) && old_store[x] == ns[x]);
                }
            }
            // Each room's extremity set is exactly its leaves.
            assert forall|k2: int| 0 <= k2 < self.rooms@.len() implies (
            #[trigger] self.rooms@[k2]).extremities@.no_duplicates()
                && self.rooms@[k2].extremities@.to_set() == spec_leaves(
                ns,
                self.rooms@[k2].room_id,
            ) by {
                let meta = self.rooms@[k2];
                if meta.room_id == room {
                    match ridx {
                        Some(ix) => {
                            if k2 != ix {
                                assert(meta == old(self).rooms@[k2]);
                                assert(old(self).rooms@[ix as int].room_id == room);
                                assert(false);
                            }
                        },
                        None => {
                            if k2 < self.rooms@.len() - 1 {
                                assert(meta == old(self).rooms@[k2]);
                                assert(room_listed_in(old(self).rooms@, room));
                                assert(false);
                            }
                        },
                    }
                    assert(good_new_exts(meta.extremities@, old_store, room, ev));
                    assert forall|x: EventId| meta.extremities@.to_set().contains(x)
                        == spec_leaves(ns, room).contains(x) by {
                        if x == id {
                            assert(meta.extremities@.to_set().contains(id));
                            assert forall|c: EventId| #[trigger] ns.dom().contains(c) implies !ns[c].prev_events@.contains(id) by {
                                if ns[c].prev_events@.contains(id) {
                                    if c == id {
                                        let q = choose|q: int|
                                            0 <= q < ev.prev_events@.len() && ev.prev_events@[q]
                                                == id;
                                        assert(old_store.dom().contains(id));
                                        assert(false);
                                    } else {
                                        assert(old_store.dom().contains(c));
                                        let q = choose|q: int|
                                            0 <= q < old_store[c].prev_events@.len()
                                                && old_store[c].prev_events@[q] == id;
                                        assert(old_store.dom().contains(id));
                                        assert(false);
                                    }
                                }
                            }
                            assert(spec_leaves(ns, room).contains(id));
                        } else {
                            if meta.extremities@.to_set().contains(x) {
                                // an old extremity not superseded by e
                                assert(spec_leaves(old_store, room).contains(x) && !ev
                                    .prev_events@.contains(x));
                                assert(old_store.dom().contains(x));
                                assert forall|c: EventId| #[trigger] ns.dom().contains(c) implies !ns[c].prev_events@.contains(x) by {
                                    if c == id {
                                        assert(!ev.prev_events@.contains(x));
                                    } else {
                                        assert(old_store.dom().contains(c));
                                    }
                                }
                                assert(spec_leaves(ns, room).contains(x));
                            }
                            if spec_leaves(ns, room).contains(x) {
                                assert(ns.dom().contains(x) && x != id);
                                assert(old_store.dom().contains(x));
                                assert forall|c: EventId| #[trigger] old_store.dom().contains(
                                    c,
                                ) implies !old_store[c].prev_events@.contains(x) by {
                                    assert(ns.dom().contains(c));
                                    assert(ns[c] == old_store[c]);
                                }
                                assert(spec_leaves(old_store, room).contains(x));
                                assert(ns.dom().contains(id));
                                assert(!ns[id].prev_events@.contains(x));
                                assert(!ev.prev_events@.contains(x));
                                assert(meta.extremities@.to_set().contains(x));
                            }
                        }
                    }
                    assert(meta.extremities@.to_set() =~= spec_leaves(ns, room));
                } else {
                    // untouched room: its leaves are unchanged
                    assert(meta == old(self).rooms@[k2]);
                    assert forall|x: EventId| spec_leaves(old_store, meta.room_id).contains(x)
                        == spec_leaves(ns, meta.room_id).contains(x) by {
                        if spec_leaves(old_store, meta.room_id).contains(x) {
                            assert forall|c: EventId| #[trigger] ns.dom().contains(c) implies !ns[c].prev_events@.contains(x) by {
                                if c == id {
                                    if ev.prev_events@.contains(x) {
                                        let q = choose|q: int|
                                            0 <= q < ev.prev_events@.len() && ev.prev_events@[q]
                                                == x;
                                        assert(old_store[x].room_id == room);
                                        assert(false);
                                    }
                                } else {
                                    assert(old_store.dom().contains(c));
                                }
                            }
                        }
                        if spec_leaves(ns, meta.room_id).contains(x) {
                            assert(x != id);
                            assert(old_store.dom().contains(x));
                            assert forall|c: EventId| #[trigger] old_store.dom().contains(
                                c,
                            ) implies !old_store[c].prev_events@.contains(x) by {
                                assert(ns.dom().contains(c) && ns[c] == old_store[c]);
                            }
                        }
                    }
                    assert(spec_leaves(old_store, meta.room_id) =~= spec_leaves(
                        ns,
                        meta.room_id,
                    ));
                }
            }
            // Every stored event's room is listed.
            assert forall|x: EventId| #[trigger] ns.dom().contains(x) implies room_listed_in(
                self.rooms@,
                ns[x].room_id,
            ) by {
                if x == id {
                    match ridx {
                        Some(ix) => {
                            assert(self.rooms@[ix as int].room_id == room);
                        },
                        None => {
                            assert(self.rooms@[self.rooms@.len() - 1].room_id == room);
                        },
                    }
                } else {
                    assert(old_store.dom().contains(x));
                    assert(room_listed_in(old(self).rooms@, old_store[x].room_id));
                    let q = choose|q: int|
                        0 <= q < old(self).rooms@.len() && old(self).rooms@[q].room_id
                            == old_store[x].room_id;
                    assert(self.rooms@[q].room_id == old_store[x].room_id);
                }
            }
            // Cached snapshots only name stored events.
            assert forall|ck: Seq<EventId>| #[trigger] self.cache@.dom().contains(
                ck,
            ) implies spec_values(self.cache@[ck]).subset_of(ns.dom()) by {
                if ck != newkey@ {
                    assert(old(self).cache@.dom().contains(ck));
                    assert(self.cache@[ck] == old(self).cache@[ck]);
                    assert forall|y: EventId| spec_values(self.cache@[ck]).contains(
                        y,
                    ) implies ns.dom().contains(y) by {
                        assert(old_store.dom().contains(y));
                    }
                }
            }
            assert(spec_is_resolution(pviews, old_store, rsol));
            if crate::auth::spec_authorized(ev, rsol, old_store) {
            } else {
                assert(false);
            }
        }
        out
    }

    /// The candidate set of a resolution whose inputs are recorded
    /// post-states is always locally stored: the store is closed under
    /// auth edges and post-states only name stored events.
    proof fn lemma_resolvable(self, views: Seq<Map<Slot, EventId>>, ids: Seq<EventId>)
        requires
            self.wf(),
            views.len() == ids.len(),
            forall|q: int|
                0 <= q < ids.len() ==> self.states_map().dom().contains(#[trigger] ids[q])
                    && views[q] == self.states_map()[ids[q]],
        ensures
            spec_candidates(views, self.store_map()).subset_of(self.store_map().dom()),
    {
        assert forall|x: EventId| spec_candidates(views, self.store@).contains(
            x,
        ) implies self.store@.dom().contains(x) by {
            if crate::resolve::spec_conflicted_ids(views).contains(x) {
                let (i2, s2) = choose|i2: int, s2: Slot|
                    crate::resolve::spec_conflicted(views, s2)
                        && #[trigger] crate::resolve::view_has(views, i2, s2, x);
                assert(views[i2] == self.states_map()[ids[i2]]);
                assert(spec_values(views[i2]).contains(x)) by {
                    assert(views[i2].dom().contains(s2) && views[i2][s2] == x);
                }
            } else {
                assert(crate::resolve::spec_auth_diff(views, self.store@).contains(x));
                let c = choose|c: EventId|
                    crate::resolve::spec_conflicted_ids(views).contains(c) && self.store@.dom()
                        .contains(c) && #[trigger] self.store@[c].auth_events@.contains(x);
            }
        }
    }

    fn find_ready(&self) -> (r: Option<usize>)
        requires
            self.wf(),
        ensures
            match r {
                Some(i) => i < self.pending_seq().len() && (forall|k: int|
                    0 <= k < self.pending_seq()[i as int].event.prev_events@.len()
                        ==> self.store_map().dom().contains(
                        #[trigger] self.pending_seq()[i as int].event.prev_events@[k],
                    )) && (forall|k: int|
                    0 <= k < self.pending_seq()[i as int].event.auth_events@.len()
                        ==> self.store_map().dom().contains(
                        #[trigger] self.pending_seq()[i as int].event.auth_events@[k],
                    )),
                None => true,
            },
    {
        let mut i: usize = 0;
        while i < self.pending.len()
            invariant
                i <= self.pending@.len(),
                self.wf(),
            decreases self.pending@.len() - i,
        {
            if self.first_missing_dep(&self.pending[i].event).is_none() {
                return Some(i);
            }
            i = i + 1;
        }
        None
    }

    /// Re-runs every suspended event whose dependencies have all
    /// arrived, to a fixed point. Events rejected on retry are dropped.
    fn drain_pending(&mut self)
        requires
            old(self).wf(),
        ensures
            final(self).wf(),
            forall|k: EventId|
                #[trigger] old(self).store_map().dom().contains(k) ==> final(self).store_map()
                    .dom().contains(k) && final(self).store_map()[k] == old(self).store_map()[k],
    {
        let mut go = true;
        while go
            invariant
                self.wf(),
                forall|k: EventId|
                    #[trigger] old(self).store_map().dom().contains(k) ==> self.store_map().dom()
                        .contains(k) && self.store_map()[k] == old(self).store_map()[k],
            decreases self.pending@.len() + (if go {
                1int
            } else {
                0int
            }),
        {
            match self.find_ready() {
                None => {
                    go = false;
                },
                Some(i) => {
                    let ghost pend0 = self.pending@;
                    let ghost store0 = self.store_map();
                    let p = self.pending.remove(i);
                    proof {
                        assert(p == pend0[i as int]);
                        assert forall|q: int|
                            0 <= q < self.pending@.len() implies spec_valid(
                            (#[trigger] self.pending@[q]).event,
                        ) by {
                            if q < i {
                                assert(self.pending@[q] == pend0[q]);
                            } else {
                                assert(self.pending@[q] == pend0[q + 1]);
                            }
                        }
                    }
                    if !self.store.contains(p.event.event_id) {
                        let _ = self.ingest_ready(p.event);
                    }
                },
            }
        }
    }

    /// Decrements every suspended event's retry budget; events whose
    /// budget is exhausted are dropped as unresolvable and their ids
    /// returned.
    pub fn tick_pending(&mut self) -> (expired: Vec<EventId>)
        requires
            old(self).wf(),
        ensures
            final(self).wf(),
            final(self).store_map() == old(self).store_map(),
            final(self).pending_seq() == spec_tick(old(self).pending_seq()),
            expired@ == spec_expired(old(self).pending_seq()),
    {
        let ghost orig = self.pending@;
        let n = self.pending.len();
        let mut kept: Vec<Pending> = Vec::new();
        let mut expired: Vec<EventId> = Vec::new();
        let mut k: usize = 0;
        proof {
            assert(orig.skip(0) =~= orig);
            assert(orig.take(0) =~= Seq::<Pending>::empty());
        }
        while k < n
            invariant
                k <= n == orig.len(),
                self.wf(),
                self.store == old(self).store,
                self.states == old(self).states,
                self.rooms == old(self).rooms,
                self.cache == old(self).cache,
                self.resolutions == old(self).resolutions,
                self.pending@ == orig.skip(k as int),
                kept@ == spec_tick(orig.take(k as int)),
                expired@ == spec_expired(orig.take(k as int)),
                forall|q: int| 0 <= q < kept@.len() ==> spec_valid((#[trigger] kept@[q]).event),
            decreases n - k,
        {
            proof {
                assert(orig.skip(k as int)[0] == orig[k as int]);
                assert(orig.take(k + 1 as int).drop_last() =~= orig.take(k as int));
                assert(orig.take(k + 1 as int).last() == orig[k as int]);
            }
            let p = self.pending.remove(0);
            proof {
                assert(orig.skip(k as int).remove(0) =~= orig.skip(k + 1 as int));
                assert(spec_valid(orig[k as int].event));
            }
            if p.budget > 1 {
                kept.push(Pending { event: p.event, missing: p.missing, budget: p.budget - 1 });
            } else {
                expired.push(p.event.event_id);
            }
            k = k + 1;
        }
        proof {
            assert(orig.take(orig.len() as int) =~= orig);
        }
        self.pending = kept;
        expired
    }

    /// The resolved state at a room's live frontier, through the cache:
    /// a cached frontier is answered without invoking the resolver, a
    /// missing one costs exactly one resolver invocation, which is then
    /// cached. Returns `None` for a room the engine has no events for.
    #[verifier::rlimit(60)]
    pub fn get_resolved_state(&mut self, room: RoomId) -> (r: Option<StateSnapshot>)
        requires
            old(self).wf(),
            old(self).resolution_count() < u64::MAX,
        ensures
            final(self).wf(),
            final(self).store_map() == old(self).store_map(),
            final(self).states_map() == old(self).states_map(),
            final(self).rooms_seq() == old(self).rooms_seq(),
            final(self).pending_seq() == old(self).pending_seq(),
            r.is_some() <==> old(self).room_listed(room),
            match r {
                Some(s) => s.wf() && spec_values(s@).subset_of(old(self).store_map().dom())
                    && exists|key: Seq<EventId>|
                    (#[trigger] key.to_set()) == spec_leaves(old(self).store_map(), room)
                        && key.no_duplicates() && (forall|p: int, q: int|
                        0 <= p < q < key.len() ==> key[p] < key[q]) && (if old(self).cache_map().dom().contains(key) {
                        final(self).resolution_count() == old(self).resolution_count() && s@
                            == old(self).cache_map()[key] && final(self).cache_map() == old(self).cache_map()
                    } else {
                        final(self).resolution_count() == old(self).resolution_count() + 1
                            && spec_is_resolution(
                            key.map_values(|p2: EventId| old(self).states_map()[p2]),
                            old(self).store_map(),
                            s@,
                        ) && final(self).cache_map().dom().contains(key) && final(self).cache_map()[key] == s@
                    }),
                None => *final(self) == *old(self),
            },
    {
        let ridx = self.find_room_index(room);
        let ix = match ridx {
            None => {
                return None;
            },
            Some(ix) => ix,
        };
        let mut key = copy_ids(&self.rooms[ix].extremities);
        sort_asc(&mut key);
        let ghost gkey = key@;
        proof {
            assert(gkey.to_set() == spec_leaves(self.store@, room));
        }
        match self.cache.lookup(&key) {
            Some(s) => {
                proof {
                    assert(spec_values(s@).subset_of(self.store@.dom()));
                }
                return Some(s);
            },
            None => {},
        }
        // Gather the post-states at the frontier and resolve them.
        let mut fsnaps: Vec<StateSnapshot> = Vec::new();
        let mut k: usize = 0;
        while k < key.len()
            invariant
                k <= key@.len(),
                key@ == gkey,
                self.wf(),
                self.store == old(self).store,
                self.states == old(self).states,
                self.rooms == old(self).rooms,
                self.pending == old(self).pending,
                self.resolutions == old(self).resolutions,
                self.cache@ == old(self).cache@,
                gkey.to_set() == spec_leaves(self.store@, room),
                fsnaps@.len() == k,
                forall|q: int|
                    0 <= q < k ==> (#[trigger] fsnaps@[q])@ == self.states_map()[key@[q]]
                        && fsnaps@[q].wf(),
            decreases key@.len() - k,
        {
            proof {
                assert(gkey.to_set().contains(gkey[k as int]));
                assert(spec_leaves(self.store@, room).contains(gkey[k as int]));
            }
            let sref = self.find_state(key[k]).unwrap();
            let dup = sref.duplicate();
            fsnaps.push(dup);
            k = k + 1;
        }
        let ghost fviews = views_of(fsnaps@);
        proof {
            assert forall|q: int| 0 <= q < fsnaps@.len() implies #[trigger] fviews[q]
                == self.states_map()[gkey[q]] by {
                assert(fviews[q] == fsnaps@[q]@);
            }
            assert forall|q: int| 0 <= q < gkey.len() implies self.states_map().dom().contains(
                #[trigger] gkey[q],
            ) by {
                assert(gkey.to_set().contains(gkey[q]));
                assert(spec_leaves(self.store@, room).contains(gkey[q]));
            }
            self.lemma_resolvable(fviews, gkey);
            assert(fviews =~= gkey.map_values(|p2: EventId| self.states_map()[p2]));
        }
        let rres = resolve(&fsnaps, &self.store);
        let s = match rres {
            Ok(s) => s,
            Err(_) => {
                proof {
                    assert(false);
                }
                return None;
            },
        };
        self.resolutions = self.resolutions + 1;
        proof {
            lemma_resolution_values(fviews, self.store@, s@);
            assert forall|x: EventId| spec_values(s@).contains(x) implies self.store@.dom()
                .contains(x) by {
                if exists|i2: int|
                    0 <= i2 < fviews.len() && #[trigger] spec_values(fviews[i2]).contains(x) {
                    let i2 = choose|i2: int|
                        0 <= i2 < fviews.len() && #[trigger] spec_values(fviews[i2]).contains(x);
                    assert(fviews[i2] == self.states_map()[gkey[i2]]);
                    assert(self.states_map().dom().contains(gkey[i2]));
                } else {
                    assert(spec_candidates(fviews, self.store@).contains(x));
                }
            }
        }
        let out = s.duplicate();
        self.cache.insert(key, s);
        proof {
            assert(self.cache@.dom().contains(gkey) && self.cache@[gkey] == out@);
            assert forall|ck: Seq<EventId>| #[trigger] self.cache@.dom().contains(
                ck,
            ) implies spec_values(self.cache@[ck]).subset_of(self.store@.dom()) by {
                if ck != gkey {
                    assert(old(self).cache@.dom().contains(ck));
                    assert(self.cache@[ck] == old(self).cache@[ck]);
                }
            }
        }
        Some(out)
    }

    /// Validates, suspends or accepts one incoming event: the pipeline
    /// entry point. Ingestion is idempotent on a known event id; a
    /// missing dependency suspends the event rather than rejecting it;
    /// acceptance persists and indexes the event and retries suspended
    /// events that it unblocked.
    pub fn ingest(&mut self, e: Event) -> (r: Outcome)
        requires
            old(self).wf(),
        ensures
            final(self).wf(),
            old(self).store_map().dom().contains(e.event_id) ==> r == Outcome::AlreadyKnown && *final(self) == *old(self),
            !old(self).store_map().dom().contains(e.event_id) && spec_validate(e) is Err ==> r
                == Outcome::Rejected(spec_validate(e)->Err_0) && *final(self) == *old(self),
            !old(self).store_map().dom().contains(e.event_id) && spec_validate(e) is Ok
                && spec_first_missing(e, old(self).store_map().dom()) is Some ==> r
                == Outcome::Suspended(spec_first_missing(e, old(self).store_map().dom())->Some_0)
                && final(self).store_map() == old(self).store_map() && final(self).states_map()
                == old(self).states_map() && final(self).rooms_seq() == old(self).rooms_seq()
                && final(self).cache_map() == old(self).cache_map() && final(self).resolution_count() == old(self).resolution_count() && final(self).pending_seq()
                == old(self).pending_seq().push(
                Pending {
                    event: e,
                    missing: spec_first_missing(e, old(self).store_map().dom())->Some_0,
                    budget: RETRY_BUDGET,
                },
            ),
            !old(self).store_map().dom().contains(e.event_id) && spec_validate(e) is Ok
                && spec_first_missing(e, old(self).store_map().dom()) is None && !(
            spec_parents_same_room(e, old(self).store_map()) && spec_depth_ok(
                e,
                old(self).store_map(),
            )) ==> r == Outcome::Rejected(EngineError::Malformed) && *final(self) == *old(self),
            !old(self).store_map().dom().contains(e.event_id) && spec_validate(e) is Ok
                && spec_first_missing(e, old(self).store_map().dom()) is None
                && spec_parents_same_room(e, old(self).store_map()) && spec_depth_ok(
                e,
                old(self).store_map(),
            ) && e.event_type == EventType::Create && old(self).room_listed(e.room_id) ==> r
                == Outcome::Rejected(EngineError::Unauthorized) && *final(self) == *old(self),
            !old(self).store_map().dom().contains(e.event_id) && spec_validate(e) is Ok
                && spec_first_missing(e, old(self).store_map().dom()) is None
                && spec_parents_same_room(e, old(self).store_map()) && spec_depth_ok(
                e,
                old(self).store_map(),
            ) && !(e.event_type == EventType::Create && old(self).room_listed(e.room_id)) ==> exists|rs: Map<Slot, EventId>|
                #[trigger] spec_is_resolution(
                    spec_parent_views(e, old(self).states_map()),
                    old(self).store_map(),
                    rs,
                ) && (if crate::auth::spec_authorized(e, rs, old(self).store_map()) {
                    r == Outcome::Accepted && final(self).store_map().dom().contains(e.event_id)
                        && final(self).store_map()[e.event_id] == e && (forall|k: EventId|
                        #[trigger] old(self).store_map().dom().contains(k) ==> final(self).store_map().dom().contains(k) && final(self).store_map()[k] == old(self).store_map()[k])
                } else {
                    r == Outcome::Rejected(EngineError::Unauthorized) && *final(self) == *old(self)
                }),
    {
        if self.store.contains(e.event_id) {
            return Outcome::AlreadyKnown;
        }
        let vres = validate(&e);
        match vres {
            Err(err) => {
                return Outcome::Rejected(err);
            },
            Ok(()) => {},
        }
        let fm = self.first_missing_dep(&e);
        match fm {
            Some(p) => {
                self.pending.push(Pending { event: e, missing: p, budget: RETRY_BUDGET });
                return Outcome::Suspended(p);
            },
            None => {},
        }
        let out = self.ingest_ready(e);
        let ghost mid = *self;
        if matches!(out, Outcome::Accepted) {
            self.drain_pending();
        }
        proof {
            if mid.store_map().dom().contains(e.event_id) {
                assert(self.store_map().dom().contains(e.event_id));
            }
            assert forall|k2: EventId| #[trigger] mid.store_map().dom().contains(
                k2,
            ) implies self.store_map().dom().contains(k2) && self.store_map()[k2]
                == mid.store_map()[k2] by {}
            if spec_parents_same_room(e, old(self).store_map()) && spec_depth_ok(
                e,
                old(self).store_map(),
            ) && !(e.event_type == EventType::Create && old(self).room_listed(e.room_id)) {
                let rs0 = choose|rs: Map<Slot, EventId>|
                    #[trigger] spec_is_resolution(
                        spec_parent_views(e, old(self).states_map()),
                        old(self).store_map(),
                        rs,
                    ) && (if crate::auth::spec_authorized(e, rs, old(self).store_map()) {
                        out == Outcome::Accepted && mid.store_map() == old(self).store_map()
                            .insert(e.event_id, e)
                    } else {
                        out == Outcome::Rejected(EngineError::Unauthorized) && mid == *old(self)
                    });
                if crate::auth::spec_authorized(e, rs0, old(self).store_map()) {
                    assert(out == Outcome::Accepted);
                    assert(mid.store_map().dom().contains(e.event_id));
                    assert(self.store_map().dom().contains(e.event_id) && self.store_map()[e.event_id]
                        == e);
                    assert forall|k2: EventId| #[trigger] old(self).store_map().dom().contains(
                        k2,
                    ) implies self.store_map().dom().contains(k2) && self.store_map()[k2] == old(self).store_map()[k2] by {
                        assert(mid.store_map().dom().contains(k2));
                    }
                } else {
                    assert(out == Outcome::Rejected(EngineError::Unauthorized));
                    assert(*self == *old(self));
                }
            }
        }
        out
    }
}

/// What one retry round leaves of the pending registry: entries with
/// budget left, each decremented.
pub open spec fn spec_tick(ps: Seq<Pending>) -> Seq<Pending>
    decreases ps.len(),
{
    if ps.len() == 0 {
        Seq::empty()
    } else {
        let rest = spec_tick(ps.drop_last());
        if ps.last().budget > 1 {
            rest.push(
                Pending {
                    event: ps.last().event,
                    missing: ps.last().missing,
                    budget: (ps.last().budget - 1) as u64,
                },
            )
        } else {
            rest
        }
    }
}

/// The ids of the pending events one retry round rejects as
/// unresolvable.
pub open spec fn spec_expired(ps: Seq<Pending>) -> Seq<EventId>
    decreases ps.len(),
{
    if ps.len() == 0 {
        Seq::empty()
    } else {
        let rest = spec_expired(ps.drop_last());
        if ps.last().budget > 1 {
            rest
        } else {
            rest.push(ps.last().event.event_id)
        }
    }
}

/// A frontier has exactly one canonical key: two strictly ascending,
/// duplicate-free id sequences over the same extremity set are the same
/// sequence. With the resolver's determinism, the resolved state served
/// for a frontier is a function of the extremity set alone.
pub proof fn lemma_canonical_frontier_unique(k1: Seq<EventId>, k2: Seq<EventId>)
    requires
        k1.no_duplicates(),
        k2.no_duplicates(),
        k1.to_set() == k2.to_set(),
        forall|p: int, q: int| 0 <= p < q < k1.len() ==> k1[p] < k1[q],
        forall|p: int, q: int| 0 <= p < q < k2.len() ==> k2[p] < k2[q],
    ensures
        k1 == k2,
    decreases k1.len(),
{
    if k1.len() == 0 {
        if k2.len() > 0 {
            assert(k2.to_set().contains(k2[0]));
            assert(k1.to_set().contains(k2[0]));
        }
        assert(k1 =~= k2);
    } else {
        assert(k1.to_set().contains(k1[0]));
        assert(k2.to_set().contains(k1[0]));
        if k2.len() == 0 {
            assert(k2.to_set() =~= Set::<EventId>::empty());
        }
        let j = choose|j: int| 0 <= j < k2.len() && k2[j] == k1[0];
        assert(k2.to_set().contains(k2[0]));
        assert(k1.to_set().contains(k2[0]));
        let i = choose|i: int| 0 <= i < k1.len() && k1[i] == k2[0];
        assert(k1[0] == k2[0]);
        let t1 = k1.drop_first();
        let t2 = k2.drop_first();
        assert forall|id: EventId| t1.to_set().contains(id) implies t2.to_set().contains(id) by {
            let p = choose|p: int| 0 <= p < t1.len() && t1[p] == id;
            assert(k1[p + 1] == id);
            assert(k2.to_set().contains(id));
            let q = choose|q: int| 0 <= q < k2.len() && k2[q] == id;
            if q == 0 {
                assert(k1[0] == id);
            } else {
                assert(t2[q - 1] == id);
            }
        }
        assert forall|id: EventId| t2.to_set().contains(id) implies t1.to_set().contains(id) by {
            let p = choose|p: int| 0 <= p < t2.len() && t2[p] == id;
            assert(k2[p + 1] == id);
            assert(k1.to_set().contains(id));
            let q = choose|q: int| 0 <= q < k1.len() && k1[q] == id;
            if q == 0 {
                assert(k2[0] == id);
            } else {
                assert(t1[q - 1] == id);
            }
        }
        assert(t1.to_set() =~= t2.to_set());
        assert forall|p: int, q: int| 0 <= p < q < t1.len() implies t1[p] < t1[q] by {
            assert(t1[p] == k1[p + 1] && t1[q] == k1[q + 1]);
        }
        assert forall|p: int, q: int| 0 <= p < q < t2.len() implies t2[p] < t2[q] by {
            assert(t2[p] == k2[p + 1] && t2[q] == k2[q + 1]);
        }
        lemma_canonical_frontier_unique(t1, t2);
        assert forall|p: int| 0 <= p < k1.len() implies k1[p] == k2[p] by {
            if p > 0 {
                assert(t1[p - 1] == k1[p]);
                assert(t2[p - 1] == k2[p]);
            }
        }
        assert(k1 =~= k2);
    }
}

/// An event the engine does not store appears in no snapshot the engine
/// holds: a rejected or unknown event is in no recorded post-state and
/// in no cached resolved state, whatever is ingested later cannot change
/// what was already recorded.
pub proof fn lemma_unstored_never_in_state(eng: Engine, id: EventId)
    requires
        eng.wf(),
        !eng.store_map().dom().contains(id),
    ensures
        forall|p: EventId|
            #[trigger] eng.states_map().dom().contains(p) ==> !spec_values(
                eng.states_map()[p],
            ).contains(id),
        forall|k: Seq<EventId>|
            #[trigger] eng.cache_map().dom().contains(k) ==> !spec_values(
                eng.cache_map()[k],
            ).contains(id),
{
}

} // verus!
