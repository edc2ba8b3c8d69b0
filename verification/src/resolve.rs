//! The state resolver: collapses divergent state snapshots into one
//! canonical snapshot, deterministically. Unconflicted slots pass
//! through; the conflicted events plus their cited authorizations are
//! ordered by descending sender power, then ascending timestamp, then
//! ascending event id, and replayed through the authorization checker.

use vstd::prelude::*;

use crate::auth::{is_authorized, spec_authorized, spec_power_of};
use crate::event::{slot_of, spec_slot_of, EngineError, Event, EventId, Slot};
use crate::snapshot::{map_of, spec_values, SlotEntry, StateSnapshot};
use crate::store::{contains_id, EventStore};

verus! {

/// The map views of a sequence of snapshots.
pub open spec fn views_of(snaps: Seq<StateSnapshot>) -> Seq<Map<Slot, EventId>> {
    snaps.map_values(|s: StateSnapshot| s@)
}

/// Inputs `i` and `j` disagree on slot `s`.
pub open spec fn spec_disagree(views: Seq<Map<Slot, EventId>>, i: int, j: int, s: Slot) -> bool {
    0 <= i < views.len() && 0 <= j < views.len() && views[i].dom().contains(s)
        && views[j].dom().contains(s) && views[i][s] != views[j][s]
}

/// A slot is conflicted when two inputs both fill it differently;
/// absence from an input is not a conflict.
pub open spec fn spec_conflicted(views: Seq<Map<Slot, EventId>>, s: Slot) -> bool {
    exists|i: int, j: int| spec_disagree(views, i, j, s)
}

pub open spec fn spec_no_conflicts(views: Seq<Map<Slot, EventId>>) -> bool {
    forall|s: Slot| !spec_conflicted(views, s)
}

/// Union of the inputs, later inputs preferred on shared slots.
pub open spec fn spec_union(views: Seq<Map<Slot, EventId>>) -> Map<Slot, EventId>
    decreases views.len(),
{
    if views.len() == 0 {
        Map::empty()
    } else {
        spec_union(views.drop_last()).union_prefer_right(views.last())
    }
}

/// Input `i` fills slot `s` with `id`.
pub open spec fn view_has(views: Seq<Map<Slot, EventId>>, i: int, s: Slot, id: EventId) -> bool {
    0 <= i < views.len() && views[i].dom().contains(s) && views[i][s] == id
}

/// The event ids occupying conflicted slots in some input.
pub open spec fn spec_conflicted_ids(views: Seq<Map<Slot, EventId>>) -> Set<EventId> {
    Set::new(
        |id: EventId|
            exists|i: int, s: Slot| spec_conflicted(views, s) && #[trigger] view_has(
                views,
                i,
                s,
                id,
            ),
    )
}

/// The ids every input agrees on: values of some slot in each input.
pub open spec fn spec_agreed(views: Seq<Map<Slot, EventId>>) -> Set<EventId> {
    Set::new(
        |id: EventId|
            views.len() > 0 && forall|i: int|
                0 <= i < views.len() ==> #[trigger] spec_values(views[i]).contains(id),
    )
}

/// The auth difference: authorizations cited by conflicted events, less
/// the agreed ids.
pub open spec fn spec_auth_diff(
    views: Seq<Map<Slot, EventId>>,
    store: Map<EventId, Event>,
) -> Set<EventId> {
    Set::new(
        |id: EventId|
            !spec_agreed(views).contains(id) && exists|c: EventId|
                spec_conflicted_ids(views).contains(c) && store.dom().contains(c)
                    && #[trigger] store[c].auth_events@.contains(id),
    )
}

/// The candidate set the resolver orders and replays.
pub open spec fn spec_candidates(
    views: Seq<Map<Slot, EventId>>,
    store: Map<EventId, Event>,
) -> Set<EventId> {
    spec_conflicted_ids(views).union(spec_auth_diff(views, store))
}

/// The unconflicted base: the union restricted to unconflicted slots.
pub open spec fn spec_base(views: Seq<Map<Slot, EventId>>) -> Map<Slot, EventId> {
    Map::new(
        |s: Slot| spec_union(views).dom().contains(s) && !spec_conflicted(views, s),
        |s: Slot| spec_union(views)[s],
    )
}

/// One replay step: an authorized stored state event claims its slot,
/// anything else is discarded.
pub open spec fn spec_step(
    store: Map<EventId, Event>,
    m: Map<Slot, EventId>,
    c: EventId,
) -> Map<Slot, EventId> {
    if store.dom().contains(c) && spec_authorized(store[c], m, store) {
        match spec_slot_of(store[c]) {
            Some(s) => m.insert(s, c),
            None => m,
        }
    } else {
        m
    }
}

/// Replay of a candidate sequence, first to last, from a base state.
pub open spec fn spec_replay(
    store: Map<EventId, Event>,
    m: Map<Slot, EventId>,
    cs: Seq<EventId>,
) -> Map<Slot, EventId>
    decreases cs.len(),
{
    if cs.len() == 0 {
        m
    } else {
        spec_step(store, spec_replay(store, m, cs.drop_last()), cs.last())
    }
}

/// The replay order: descending sender power measured in the base state,
/// ties by ascending origin timestamp, then ascending event id.
pub open spec fn spec_key_lt(
    store: Map<EventId, Event>,
    base: Map<Slot, EventId>,
    a: EventId,
    b: EventId,
) -> bool {
    let pa = spec_power_of(base, store, store[a].sender);
    let pb = spec_power_of(base, store, store[b].sender);
    let ta = store[a].origin_server_ts;
    let tb = store[b].origin_server_ts;
    pa > pb || (pa == pb && (ta < tb || (ta == tb && a < b)))
}

/// Strictly ordered under the replay key.
pub open spec fn spec_sorted(
    store: Map<EventId, Event>,
    base: Map<Slot, EventId>,
    cs: Seq<EventId>,
) -> bool {
    forall|i: int, j: int| 0 <= i < j < cs.len() ==> spec_key_lt(store, base, cs[i], cs[j])
}

/// `cs` is the replay order of the inputs: the candidate set, without
/// duplicates, strictly sorted under the replay key.
pub open spec fn spec_resolution_order(
    views: Seq<Map<Slot, EventId>>,
    store: Map<EventId, Event>,
    cs: Seq<EventId>,
) -> bool {
    cs.no_duplicates() && cs.to_set() == spec_candidates(views, store) && spec_sorted(
        store,
        spec_base(views),
        cs,
    )
}

/// `m` is a resolution of the inputs: the replay of their candidate
/// sequence over the unconflicted base. There is exactly one such map
/// (`lemma_resolution_deterministic`).
pub open spec fn spec_is_resolution(
    views: Seq<Map<Slot, EventId>>,
    store: Map<EventId, Event>,
    m: Map<Slot, EventId>,
) -> bool {
    exists|cs: Seq<EventId>|
        #[trigger] spec_resolution_order(views, store, cs) && m == spec_replay(
            store,
            spec_base(views),
            cs,
        )
}

// ---------------------------------------------------------------------
// Order and determinism lemmas
// ---------------------------------------------------------------------

/// The replay key is a strict total order on distinct ids.
pub proof fn lemma_key_total(store: Map<EventId, Event>, base: Map<Slot, EventId>, a: EventId, b: EventId)
    requires
        a != b,
    ensures
        spec_key_lt(store, base, a, b) || spec_key_lt(store, base, b, a),
        !(spec_key_lt(store, base, a, b) && spec_key_lt(store, base, b, a)),
{
}

pub proof fn lemma_key_trans(
    store: Map<EventId, Event>,
    base: Map<Slot, EventId>,
    a: EventId,
    b: EventId,
    c: EventId,
)
    requires
        spec_key_lt(store, base, a, b),
        spec_key_lt(store, base, b, c),
    ensures
        spec_key_lt(store, base, a, c),
{
}

/// Two strictly sorted sequences over the same element set are equal:
/// the replay order of a candidate set is unique.
pub proof fn lemma_sorted_unique(
    store: Map<EventId, Event>,
    base: Map<Slot, EventId>,
    xs: Seq<EventId>,
    ys: Seq<EventId>,
)
    requires
        xs.no_duplicates(),
        ys.no_duplicates(),
        xs.to_set() == ys.to_set(),
        spec_sorted(store, base, xs),
        spec_sorted(store, base, ys),
    ensures
        xs == ys,
    decreases xs.len(),
{
    if xs.len() == 0 {
        if ys.len() > 0 {
            assert(ys.to_set().contains(ys[0]));
            assert(xs.to_set().contains(ys[0]));
        }
        assert(xs =~= ys);
    } else {
        assert(xs.to_set().contains(xs[0]));
        assert(ys.to_set().contains(xs[0]));
        if ys.len() == 0 {
            assert(ys.to_set() =~= Set::<EventId>::empty());
            assert(false);
        }
        // The heads agree: each head is the strict minimum of the set.
        let j = choose|j: int| 0 <= j < ys.len() && ys[j] == xs[0];
        if j != 0 {
            assert(spec_key_lt(store, base, ys[0], ys[j]));
        }
        assert(ys.to_set().contains(ys[0]));
        assert(xs.to_set().contains(ys[0]));
        let k = choose|k: int| 0 <= k < xs.len() && xs[k] == ys[0];
        if k != 0 {
            assert(spec_key_lt(store, base, xs[0], xs[k]));
        }
        if xs[0] != ys[0] {
            assert(j != 0 && k != 0);
            lemma_key_total(store, base, xs[0], ys[0]);
            assert(false);
        }
        let xt = xs.drop_first();
        let yt = ys.drop_first();
        assert forall|id: EventId| xt.to_set().contains(id) implies yt.to_set().contains(id) by {
            let p = choose|p: int| 0 <= p < xt.len() && xt[p] == id;
            assert(xs[p + 1] == id);
            assert(xs.to_set().contains(id));
            assert(ys.to_set().contains(id));
            let q = choose|q: int| 0 <= q < ys.len() && ys[q] == id;
            if q == 0 {
                assert(id == ys[0] && id == xs[p + 1]);
                assert(!xs.no_duplicates() || false);
            } else {
                assert(yt[q - 1] == id);
            }
        }
        assert forall|id: EventId| yt.to_set().contains(id) implies xt.to_set().contains(id) by {
            let p = choose|p: int| 0 <= p < yt.len() && yt[p] == id;
            assert(ys[p + 1] == id);
            assert(ys.to_set().contains(id));
            assert(xs.to_set().contains(id));
            let q = choose|q: int| 0 <= q < xs.len() && xs[q] == id;
            if q == 0 {
            } else {
                assert(xt[q - 1] == id);
            }
        }
        assert(xt.to_set() =~= yt.to_set());
        assert(xt.no_duplicates());
        assert(yt.no_duplicates());
        assert(spec_sorted(store, base, xt)) by {
            assert forall|i: int, j2: int| 0 <= i < j2 < xt.len() implies spec_key_lt(
                store,
                base,
                xt[i],
                xt[j2],
            ) by {
                assert(xt[i] == xs[i + 1] && xt[j2] == xs[j2 + 1]);
            }
        }
        assert(spec_sorted(store, base, yt)) by {
            assert forall|i: int, j2: int| 0 <= i < j2 < yt.len() implies spec_key_lt(
                store,
                base,
                yt[i],
                yt[j2],
            ) by {
                assert(yt[i] == ys[i + 1] && yt[j2] == ys[j2 + 1]);
            }
        }
        lemma_sorted_unique(store, base, xt, yt);
        assert(xs.len() == ys.len());
        assert forall|i: int| 0 <= i < xs.len() implies xs[i] == ys[i] by {
            if i > 0 {
                assert(xt[i - 1] == xs[i]);
                assert(yt[i - 1] == ys[i]);
            }
        }
        assert(xs =~= ys);
    }
}

/// Determinism of resolution: any two maps satisfying the resolution
/// characterization for the same inputs are the same map. Together with
/// `resolve`'s contract, the resolved state is a function of the input
/// snapshot set and the store, independent of any delivery or iteration
/// order.
pub proof fn lemma_resolution_deterministic(
    views: Seq<Map<Slot, EventId>>,
    store: Map<EventId, Event>,
    m1: Map<Slot, EventId>,
    m2: Map<Slot, EventId>,
)
    requires
        spec_is_resolution(views, store, m1),
        spec_is_resolution(views, store, m2),
    ensures
        m1 == m2,
{
    let cs1 = choose|cs: Seq<EventId>|
        #[trigger] spec_resolution_order(views, store, cs) && m1 == spec_replay(
            store,
            spec_base(views),
            cs,
        );
    let cs2 = choose|cs: Seq<EventId>|
        #[trigger] spec_resolution_order(views, store, cs) && m2 == spec_replay(
            store,
            spec_base(views),
            cs,
        );
    lemma_sorted_unique(store, spec_base(views), cs1, cs2);
}

/// Two input lists carry the same snapshots, in whatever order or
/// multiplicity.
pub open spec fn same_inputs(v1: Seq<Map<Slot, EventId>>, v2: Seq<Map<Slot, EventId>>) -> bool {
    forall|m: Map<Slot, EventId>| v1.contains(m) <==> v2.contains(m)
}

/// Order independence of resolution: feeding the resolver the same
/// snapshots in another order (or repeated) characterizes the same
/// resolved map. With `lemma_resolution_deterministic`, the resolved
/// state is a function of the set of input snapshots alone.
pub proof fn lemma_resolution_order_irrelevant(
    v1: Seq<Map<Slot, EventId>>,
    v2: Seq<Map<Slot, EventId>>,
    store: Map<EventId, Event>,
    m: Map<Slot, EventId>,
)
    requires
        same_inputs(v1, v2),
        spec_is_resolution(v1, store, m),
    ensures
        spec_is_resolution(v2, store, m),
{
    assert forall|s: Slot| spec_conflicted(v1, s) == spec_conflicted(v2, s) by {
        if spec_conflicted(v1, s) {
            lemma_conflicted_same_inputs(v1, v2, s);
        }
        if spec_conflicted(v2, s) {
            lemma_conflicted_same_inputs(v2, v1, s);
        }
    }
    assert forall|s: Slot| spec_base(v1).dom().contains(s) == spec_base(v2).dom().contains(
        s,
    ) by {
        lemma_union_dom(v1);
        lemma_union_dom(v2);
        if spec_union(v1).dom().contains(s) {
            let i = choose|i: int| 0 <= i < v1.len() && (#[trigger] v1[i]).dom().contains(s);
            assert(v1.contains(v1[i]));
            assert(v2.contains(v1[i]));
            let j = choose|j: int| 0 <= j < v2.len() && v2[j] == v1[i];
            assert(v2[j].dom().contains(s));
        }
        if spec_union(v2).dom().contains(s) {
            let i = choose|i: int| 0 <= i < v2.len() && (#[trigger] v2[i]).dom().contains(s);
            assert(v2.contains(v2[i]));
            assert(v1.contains(v2[i]));
            let j = choose|j: int| 0 <= j < v1.len() && v1[j] == v2[i];
            assert(v1[j].dom().contains(s));
        }
    }
    assert forall|s: Slot| #[trigger] spec_base(v1).dom().contains(s) implies spec_base(v1)[s]
        == spec_base(v2)[s] by {
        lemma_union_dom(v1);
        lemma_union_agreeing_slot(v1, s);
        lemma_union_agreeing_slot(v2, s);
        let i = choose|i: int| 0 <= i < v1.len() && (#[trigger] v1[i]).dom().contains(s);
        assert(spec_union(v1)[s] == v1[i][s]);
        assert(v2.contains(v1[i]));
        let j = choose|j: int| 0 <= j < v2.len() && v2[j] == v1[i];
        assert(spec_union(v2).dom().contains(s) && spec_union(v2)[s] == v2[j][s]);
    }
    assert(spec_base(v1) =~= spec_base(v2));
    assert forall|id: EventId| spec_agreed(v1).contains(id) == spec_agreed(v2).contains(id) by {
        if spec_agreed(v1).contains(id) {
            lemma_agreed_same_inputs(v1, v2, id);
        }
        if spec_agreed(v2).contains(id) {
            lemma_agreed_same_inputs(v2, v1, id);
        }
    }
    assert forall|id: EventId| spec_conflicted_ids(v1).contains(id) == spec_conflicted_ids(
        v2,
    ).contains(id) by {
        if spec_conflicted_ids(v1).contains(id) {
            let (i, s) = choose|i: int, s: Slot|
                spec_conflicted(v1, s) && #[trigger] view_has(v1, i, s, id);
            assert(v1.contains(v1[i]));
            assert(v2.contains(v1[i]));
            let j = choose|j: int| 0 <= j < v2.len() && v2[j] == v1[i];
            assert(view_has(v2, j, s, id));
        }
        if spec_conflicted_ids(v2).contains(id) {
            let (i, s) = choose|i: int, s: Slot|
                spec_conflicted(v2, s) && #[trigger] view_has(v2, i, s, id);
            assert(v2.contains(v2[i]));
            assert(v1.contains(v2[i]));
            let j = choose|j: int| 0 <= j < v1.len() && v1[j] == v2[i];
            assert(view_has(v1, j, s, id));
        }
    }
    assert(spec_conflicted_ids(v1) =~= spec_conflicted_ids(v2));
    assert(spec_agreed(v1) =~= spec_agreed(v2));
    assert(spec_auth_diff(v1, store) =~= spec_auth_diff(v2, store));
    assert(spec_candidates(v1, store) =~= spec_candidates(v2, store));
    let cs = choose|cs: Seq<EventId>|
        #[trigger] spec_resolution_order(v1, store, cs) && m == spec_replay(
            store,
            spec_base(v1),
            cs,
        );
    assert(spec_resolution_order(v2, store, cs));
    assert(m == spec_replay(store, spec_base(v2), cs));
}

proof fn lemma_conflicted_same_inputs(
    v1: Seq<Map<Slot, EventId>>,
    v2: Seq<Map<Slot, EventId>>,
    s: Slot,
)
    requires
        same_inputs(v1, v2),
        spec_conflicted(v1, s),
    ensures
        spec_conflicted(v2, s),
{
    let (i, j) = choose|i: int, j: int| spec_disagree(v1, i, j, s);
    assert(v1.contains(v1[i]));
    assert(v1.contains(v1[j]));
    assert(v2.contains(v1[i]));
    assert(v2.contains(v1[j]));
    let i2 = choose|i2: int| 0 <= i2 < v2.len() && v2[i2] == v1[i];
    let j2 = choose|j2: int| 0 <= j2 < v2.len() && v2[j2] == v1[j];
    assert(spec_disagree(v2, i2, j2, s));
}

proof fn lemma_agreed_same_inputs(
    v1: Seq<Map<Slot, EventId>>,
    v2: Seq<Map<Slot, EventId>>,
    id: EventId,
)
    requires
        same_inputs(v1, v2),
        spec_agreed(v1).contains(id),
    ensures
        spec_agreed(v2).contains(id),
{
    assert(v1.len() > 0);
    assert(v1.contains(v1[0]));
    assert(v2.contains(v1[0]));
    assert(v2.len() > 0);
    assert forall|i: int| 0 <= i < v2.len() implies #[trigger] spec_values(v2[i]).contains(
        id,
    ) by {
        assert(v2.contains(v2[i]));
        assert(v1.contains(v2[i]));
        let j = choose|j: int| 0 <= j < v1.len() && v1[j] == v2[i];
        assert(spec_values(v1[j]).contains(id));
    }
}

// ---------------------------------------------------------------------
// Union lemmas
// ---------------------------------------------------------------------

pub proof fn lemma_union_dom(views: Seq<Map<Slot, EventId>>)
    ensures
        forall|s: Slot|
            spec_union(views).dom().contains(s) <==> exists|i: int|
                0 <= i < views.len() && (#[trigger] views[i]).dom().contains(s),
    decreases views.len(),
{
    if views.len() > 0 {
        let vd = views.drop_last();
        lemma_union_dom(vd);
        assert forall|s: Slot| spec_union(views).dom().contains(s) implies exists|i: int|
            0 <= i < views.len() && (#[trigger] views[i]).dom().contains(s) by {
            assert(spec_union(views) == spec_union(vd).union_prefer_right(views.last()));
            assert(spec_union(vd).dom().contains(s) || views.last().dom().contains(s));
            if views.last().dom().contains(s) {
                assert(views[views.len() - 1].dom().contains(s));
            } else {
                let i = choose|i: int| 0 <= i < vd.len() && (#[trigger] vd[i]).dom().contains(s);
                assert(vd[i] == views[i]);
                assert(views[i].dom().contains(s));
            }
        }
        assert forall|s: Slot|
            exists|i: int|
                0 <= i < views.len() && (#[trigger] views[i]).dom().contains(s) implies spec_union(
            views,
        ).dom().contains(s) by {
            assert(spec_union(views) == spec_union(vd).union_prefer_right(views.last()));
            let i = choose|i: int| 0 <= i < views.len() && (#[trigger] views[i]).dom().contains(s);
            if i == views.len() - 1 {
                assert(views.last().dom().contains(s));
            } else {
                assert(vd[i] == views[i]);
                assert(vd[i].dom().contains(s));
                assert(spec_union(vd).dom().contains(s));
            }
        }
    }
}

/// Where no input disagrees on a slot, every input filling it matches
/// the union.
pub proof fn lemma_union_agreeing_slot(views: Seq<Map<Slot, EventId>>, s: Slot)
    requires
        !spec_conflicted(views, s),
    ensures
        forall|i: int|
            0 <= i < views.len() && (#[trigger] views[i]).dom().contains(s) ==> spec_union(
                views,
            ).dom().contains(s) && spec_union(views)[s] == views[i][s],
    decreases views.len(),
{
    if views.len() > 0 {
        assert(!spec_conflicted(views.drop_last(), s)) by {
            if spec_conflicted(views.drop_last(), s) {
                let (i, j) = choose|i: int, j: int| spec_disagree(views.drop_last(), i, j, s);
                assert(views.drop_last()[i] == views[i]);
                assert(views.drop_last()[j] == views[j]);
                assert(spec_disagree(views, i, j, s));
            }
        }
        lemma_union_agreeing_slot(views.drop_last(), s);
        assert forall|i: int|
            0 <= i < views.len() && (#[trigger] views[i]).dom().contains(s) implies spec_union(
            views,
        ).dom().contains(s) && spec_union(views)[s] == views[i][s] by {
            let vd = views.drop_last();
            assert(spec_union(views) == spec_union(vd).union_prefer_right(views.last()));
            if views.last().dom().contains(s) {
                assert(spec_union(views).dom().contains(s));
                assert(spec_union(views)[s] == views.last()[s]);
                if i < views.len() - 1 {
                    if views[i][s] != views[views.len() - 1][s] {
                        assert(spec_disagree(views, i, views.len() - 1, s));
                        assert(spec_conflicted(views, s));
                    }
                }
            } else {
                assert(i < views.len() - 1);
                assert(vd[i] == views[i]);
                assert(vd[i].dom().contains(s));
                assert(spec_union(vd).dom().contains(s) && spec_union(vd)[s] == vd[i][s]);
                assert(spec_union(views).dom().contains(s));
                assert(spec_union(views)[s] == spec_union(vd)[s]);
            }
        }
    }
}

/// A filled union slot carries the value of some input filling it.
pub proof fn lemma_union_value_witness(views: Seq<Map<Slot, EventId>>, s: Slot)
    requires
        spec_union(views).dom().contains(s),
    ensures
        exists|i: int| view_has(views, i, s, spec_union(views)[s]),
    decreases views.len(),
{
    let vd = views.drop_last();
    assert(views.len() > 0);
    assert(spec_union(views) == spec_union(vd).union_prefer_right(views.last()));
    if views.last().dom().contains(s) {
        assert(view_has(views, views.len() - 1, s, spec_union(views)[s]));
    } else {
        assert(spec_union(vd).dom().contains(s));
        lemma_union_value_witness(vd, s);
        let i = choose|i: int| view_has(vd, i, s, spec_union(vd)[s]);
        assert(vd[i] == views[i]);
        assert(view_has(views, i, s, spec_union(views)[s]));
    }
}

/// Replay introduces no event id beyond the base's values and the
/// replayed candidates.
pub proof fn lemma_replay_values(
    store: Map<EventId, Event>,
    m: Map<Slot, EventId>,
    cs: Seq<EventId>,
)
    ensures
        spec_values(spec_replay(store, m, cs)).subset_of(spec_values(m).union(cs.to_set())),
    decreases cs.len(),
{
    if cs.len() > 0 {
        lemma_replay_values(store, m, cs.drop_last());
        let prev = spec_replay(store, m, cs.drop_last());
        let c = cs.last();
        let stepped = spec_step(store, prev, c);
        assert(cs.to_set().contains(c)) by {
            assert(cs[cs.len() - 1] == c);
        }
        assert forall|id: EventId| spec_values(stepped).contains(id) implies spec_values(m).union(
            cs.to_set(),
        ).contains(id) by {
            let s = choose|s: Slot| stepped.dom().contains(s) && stepped[s] == id;
            if stepped == prev.insert(spec_slot_of(store[c])->Some_0, c) && store.dom().contains(c)
                && spec_slot_of(store[c]).is_some() && s == spec_slot_of(store[c])->Some_0 {
                assert(id == c || prev[s] == id);
            }
            if id != c || !cs.to_set().contains(id) {
                if prev.dom().contains(s) && prev[s] == id {
                    assert(spec_values(prev).contains(id));
                    if cs.drop_last().to_set().contains(id) {
                        let p = choose|p: int|
                            0 <= p < cs.len() - 1 && cs.drop_last()[p] == id;
                        assert(cs[p] == id);
                    }
                } else {
                    assert(id == c);
                }
            }
        }
    }
}

/// Every id in a resolution result comes from an input snapshot or from
/// the candidate set.
pub proof fn lemma_resolution_values(
    views: Seq<Map<Slot, EventId>>,
    store: Map<EventId, Event>,
    m: Map<Slot, EventId>,
)
    requires
        spec_is_resolution(views, store, m),
    ensures
        forall|id: EventId|
            #[trigger] spec_values(m).contains(id) ==> (exists|i: int|
                0 <= i < views.len() && #[trigger] spec_values(views[i]).contains(id))
                || spec_candidates(views, store).contains(id),
{
    let cs = choose|cs: Seq<EventId>|
        #[trigger] spec_resolution_order(views, store, cs) && m == spec_replay(
            store,
            spec_base(views),
            cs,
        );
    lemma_replay_values(store, spec_base(views), cs);
    assert forall|id: EventId| #[trigger] spec_values(m).contains(id) implies (exists|i: int|
        0 <= i < views.len() && #[trigger] spec_values(views[i]).contains(id))
        || spec_candidates(views, store).contains(id) by {
        assert(spec_values(spec_base(views)).union(cs.to_set()).contains(id));
        if cs.to_set().contains(id) {
            assert(spec_candidates(views, store).contains(id));
        } else {
            assert(spec_values(spec_base(views)).contains(id));
            let s = choose|s: Slot|
                spec_base(views).dom().contains(s) && spec_base(views)[s] == id;
            assert(spec_union(views).dom().contains(s) && spec_union(views)[s] == id);
            lemma_union_value_witness(views, s);
            let i = choose|i: int| view_has(views, i, s, spec_union(views)[s]);
            assert(views[i].dom().contains(s) && views[i][s] == id);
            assert(spec_values(views[i]).contains(id));
        }
    }
}

// ---------------------------------------------------------------------
// Executable helpers
// ---------------------------------------------------------------------

fn slot_in(v: &Vec<Slot>, s: Slot) -> (r: bool)
    ensures
        r == v@.contains(s),
{
    let mut i: usize = 0;
    while i < v.len()
        invariant
            i <= v@.len(),
            forall|p: int| 0 <= p < i ==> v@[p] != s,
        decreases v@.len() - i,
    {
        if v[i] == s {
            return true;
        }
        i = i + 1;
    }
    false
}

fn snapshot_has_value(snap: &StateSnapshot, id: EventId) -> (r: bool)
    requires
        snap.wf(),
    ensures
        r == spec_values(snap@).contains(id),
{
    proof {
        snap.lemma_entries_view();
    }
    let n = snap.num_entries();
    let mut j: usize = 0;
    while j < n
        invariant
            j <= n == snap.entries_seq().len(),
            snap.wf(),
            forall|p: int| 0 <= p < j ==> snap.entries_seq()[p].event != id,
        decreases n - j,
    {
        let ent = snap.entry_at(j);
        if ent.event == id {
            proof {
                snap.lemma_entries_view();
                assert(snap@.dom().contains(ent.slot) && snap@[ent.slot] == id);
            }
            return true;
        }
        j = j + 1;
    }
    proof {
        snap.lemma_entries_view();
        if spec_values(snap@).contains(id) {
            let s = choose|s: Slot| snap@.dom().contains(s) && snap@[s] == id;
            let p = choose|p: int|
                0 <= p < snap.entries_seq().len() && #[trigger] snap.entries_seq()[p].slot == s;
            assert(snap.entries_seq()[p].event == id);
        }
    }
    false
}

fn is_agreed(snaps: &Vec<StateSnapshot>, id: EventId) -> (r: bool)
    requires
        forall|k: int| 0 <= k < snaps@.len() ==> (#[trigger] snaps@[k]).wf(),
    ensures
        r == spec_agreed(views_of(snaps@)).contains(id),
{
    let ghost views = views_of(snaps@);
    if snaps.len() == 0 {
        return false;
    }
    let mut i: usize = 0;
    while i < snaps.len()
        invariant
            i <= snaps@.len(),
            views == views_of(snaps@),
            forall|k: int| 0 <= k < snaps@.len() ==> (#[trigger] snaps@[k]).wf(),
            forall|k: int| 0 <= k < i ==> #[trigger] spec_values(views[k]).contains(id),
        decreases snaps@.len() - i,
    {
        let sn = &snaps[i];
        if !snapshot_has_value(sn, id) {
            proof {
                assert(views[i as int] == snaps@[i as int]@);
            }
            return false;
        }
        proof {
            assert(views[i as int] == snaps@[i as int]@);
        }
        i = i + 1;
    }
    true
}

fn key_lt(store: &EventStore, base: &StateSnapshot, a: EventId, b: EventId) -> (r: bool)
    requires
        store.wf(),
        base.wf(),
        store@.dom().contains(a),
        store@.dom().contains(b),
    ensures
        r == spec_key_lt(store@, base@, a, b),
{
    let ea = store.get(a).unwrap();
    let sender_a = ea.sender;
    let ta = ea.origin_server_ts;
    let eb = store.get(b).unwrap();
    let sender_b = eb.sender;
    let tb = eb.origin_server_ts;
    let pa = crate::auth::power_of(base, store, sender_a);
    let pb = crate::auth::power_of(base, store, sender_b);
    pa > pb || (pa == pb && (ta < tb || (ta == tb && a < b)))
}

fn sort_ids(v: &mut Vec<EventId>, base: &StateSnapshot, store: &EventStore)
    requires
        old(v)@.no_duplicates(),
        base.wf(),
        store.wf(),
        forall|k: int| 0 <= k < old(v)@.len() ==> store@.dom().contains(#[trigger] old(v)@[k]),
    ensures
        final(v)@.no_duplicates(),
        final(v)@.to_set() == old(v)@.to_set(),
        final(v)@.len() == old(v)@.len(),
        spec_sorted(store@, base@, final(v)@),
{
    let ghost st = store@;
    let ghost bs = base@;
    let mut i: usize = 1;
    while i < v.len()
        invariant
            1 <= i <= v@.len() || v@.len() == 0,
            base.wf(),
            store.wf(),
            st == store@,
            bs == base@,
            v@.no_duplicates(),
            v@.to_set() == old(v)@.to_set(),
            v@.len() == old(v)@.len(),
            forall|k: int| 0 <= k < v@.len() ==> st.dom().contains(#[trigger] v@[k]),
            forall|p: int, q: int| 0 <= p < q < i ==> spec_key_lt(st, bs, v@[p], v@[q]),
        decreases v@.len() - i,
    {
        let mut j: usize = i;
        while j > 0 && key_lt(store, base, v[j], v[j - 1])
            invariant
                j <= i < v@.len(),
                base.wf(),
                store.wf(),
                st == store@,
                bs == base@,
                v@.no_duplicates(),
                v@.to_set() == old(v)@.to_set(),
                v@.len() == old(v)@.len(),
                forall|k: int| 0 <= k < v@.len() ==> st.dom().contains(#[trigger] v@[k]),
                forall|p: int, q: int|
                    0 <= p < q <= i && q != j ==> spec_key_lt(st, bs, v@[p], v@[q]),
                forall|p: int| j < p <= i ==> spec_key_lt(st, bs, v@[j as int], v@[p]),
            decreases j,
        {
            let ghost s1 = v@;
            let x = v[j];
            let y = v[j - 1];
            v.set(j, y);
            v.set(j - 1, x);
            proof {
                let s2 = v@;
                assert(s2 == s1.update(j as int, y).update(j - 1, x));
                assert forall|id: EventId| s2.to_set().contains(id) implies s1.to_set().contains(
                    id,
                ) by {
                    let p = choose|p: int| 0 <= p < s2.len() && s2[p] == id;
                    if p == j {
                        assert(s1[j - 1] == id);
                    } else if p == j - 1 {
                        assert(s1[j as int] == id);
                    } else {
                        assert(s1[p] == id);
                    }
                }
                assert forall|id: EventId| s1.to_set().contains(id) implies s2.to_set().contains(
                    id,
                ) by {
                    let p = choose|p: int| 0 <= p < s1.len() && s1[p] == id;
                    if p == j {
                        assert(s2[j - 1] == id);
                    } else if p == j - 1 {
                        assert(s2[j as int] == id);
                    } else {
                        assert(s2[p] == id);
                    }
                }
                assert(s2.to_set() =~= s1.to_set());
                assert forall|p: int, q: int| 0 <= p < q < s2.len() implies s2[p] != s2[q] by {
                    if p == j - 1 && q == j {
                    } else if p == j - 1 || p == j || q == j - 1 || q == j {
                    }
                }
                assert forall|p: int, q: int|
                    0 <= p < q <= i && q != j - 1 implies spec_key_lt(st, bs, s2[p], s2[q]) by {
                    if q == j {
                        if p < j - 1 {
                            assert(spec_key_lt(st, bs, s1[p], s1[j - 1]));
                        } else {
                            assert(p == j - 1);
                            assert(spec_key_lt(st, bs, s1[j as int], s1[j - 1]));
                        }
                    } else if q > j {
                        if p == j - 1 {
                            assert(spec_key_lt(st, bs, s1[j as int], s1[q]));
                        } else if p == j {
                            assert(spec_key_lt(st, bs, s1[j - 1], s1[q]));
                        } else {
                            assert(spec_key_lt(st, bs, s1[p], s1[q]));
                        }
                    } else {
                        assert(spec_key_lt(st, bs, s1[p], s1[q]));
                    }
                }
                assert forall|p: int| j - 1 < p <= i implies #[trigger] spec_key_lt(
                    st,
                    bs,
                    s2[j - 1],
                    s2[p],
                ) by {
                    if p == j {
                        assert(spec_key_lt(st, bs, s1[j as int], s1[j - 1]));
                    } else {
                        assert(spec_key_lt(st, bs, s1[j as int], s1[p]));
                    }
                }
            }
            j = j - 1;
        }
        proof {
            assert forall|p: int, q: int| 0 <= p < q <= i implies spec_key_lt(
                st,
                bs,
                v@[p],
                v@[q],
            ) by {
                if q == j {
                    assert(j > 0);
                    assert(!spec_key_lt(st, bs, v@[j as int], v@[j - 1]));
                    assert(v@[j as int] != v@[j - 1]);
                    lemma_key_total(st, bs, v@[j as int], v@[j - 1]);
                    assert(spec_key_lt(st, bs, v@[j - 1], v@[j as int]));
                    if p < j - 1 {
                        assert(spec_key_lt(st, bs, v@[p], v@[j - 1]));
                        lemma_key_trans(st, bs, v@[p], v@[j - 1], v@[j as int]);
                    }
                }
            }
        }
        i = i + 1;
    }
}

/// How the conflict set changes when one more entry `(s, v)` of the
/// input being scanned is taken into account.
proof fn lemma_conflict_extend(
    prefix: Seq<Map<Slot, EventId>>,
    partial: Map<Slot, EventId>,
    s: Slot,
    v: EventId,
)
    requires
        !partial.dom().contains(s),
    ensures
        forall|t: Slot|
            t != s ==> (spec_conflicted(prefix.push(partial.insert(s, v)), t) <==> spec_conflicted(
                prefix.push(partial),
                t,
            )),
        spec_conflicted(prefix.push(partial.insert(s, v)), s) <==> (spec_conflicted(
            prefix.push(partial),
            s,
        ) || exists|i: int, w: EventId| #[trigger] view_has(prefix.push(partial), i, s, w) && w
            != v),
{
    let pv = prefix.push(partial);
    let pv2 = prefix.push(partial.insert(s, v));
    let last = pv.len() - 1;
    assert forall|t: Slot| t != s implies (spec_conflicted(pv2, t) <==> spec_conflicted(
        pv,
        t,
    )) by {
        if spec_conflicted(pv2, t) {
            let (a, b) = choose|a: int, b: int| spec_disagree(pv2, a, b, t);
            assert(pv2[a].dom().contains(t) == pv[a].dom().contains(t));
            assert(pv2[b].dom().contains(t) == pv[b].dom().contains(t));
            assert(spec_disagree(pv, a, b, t));
        }
        if spec_conflicted(pv, t) {
            let (a, b) = choose|a: int, b: int| spec_disagree(pv, a, b, t);
            assert(spec_disagree(pv2, a, b, t));
        }
    }
    if spec_conflicted(pv2, s) {
        let (a, b) = choose|a: int, b: int| spec_disagree(pv2, a, b, s);
        if a != last && b != last {
            assert(spec_disagree(pv, a, b, s));
        } else if a == last {
            assert(b != last);
            assert(pv2[a][s] == v);
            assert(view_has(pv, b, s, pv[b][s]) && pv[b][s] != v);
        } else {
            assert(a != last);
            assert(pv2[b][s] == v);
            assert(view_has(pv, a, s, pv[a][s]) && pv[a][s] != v);
        }
    }
    if spec_conflicted(pv, s) {
        let (a, b) = choose|a: int, b: int| spec_disagree(pv, a, b, s);
        assert(a != last && b != last);
        assert(spec_disagree(pv2, a, b, s));
    }
    if exists|i: int, w: EventId| #[trigger] view_has(pv, i, s, w) && w != v {
        let (i, w) = choose|i: int, w: EventId| #[trigger] view_has(pv, i, s, w) && w != v;
        assert(i != last);
        assert(pv2[i] == pv[i]);
        assert(pv2[last].dom().contains(s) && pv2[last][s] == v);
        assert(spec_disagree(pv2, i, last, s));
    }
}

/// Resolves divergent state snapshots into one canonical snapshot.
///
/// When no slot conflicts the result is the plain union of the inputs
/// and the sort-and-replay machinery is never entered. Otherwise the
/// candidate events are ordered under the replay key and replayed from
/// the unconflicted base; a candidate missing from the store suspends
/// resolution with `IncompleteGraph` instead of guessing.
pub fn resolve(snaps: &Vec<StateSnapshot>, store: &EventStore) -> (r: Result<
    StateSnapshot,
    EngineError,
>)
    requires
        store.wf(),
        forall|k: int| 0 <= k < snaps@.len() ==> (#[trigger] snaps@[k]).wf(),
    ensures
        r.is_ok() <==> spec_candidates(views_of(snaps@), store@).subset_of(store@.dom()),
        (match r {
            Ok(out) => out.wf() && spec_is_resolution(views_of(snaps@), store@, out@) && (
            spec_no_conflicts(views_of(snaps@)) ==> out@ == spec_union(views_of(snaps@))),
            Err(err) => (match err {
                EngineError::IncompleteGraph(x) => spec_candidates(
                    views_of(snaps@),
                    store@,
                ).contains(x) && !store@.dom().contains(x),
                _ => false,
            }),
        }),
{
    let ghost views = views_of(snaps@);
    let mut uni = StateSnapshot::new();
    let mut conflicted: Vec<Slot> = Vec::new();
    let mut i: usize = 0;
    proof {
        assert(views.take(0) =~= Seq::<Map<Slot, EventId>>::empty());
    }
    while i < snaps.len()
        invariant
            i <= snaps@.len(),
            views == views_of(snaps@),
            forall|k: int| 0 <= k < snaps@.len() ==> (#[trigger] snaps@[k]).wf(),
            store.wf(),
            uni.wf(),
            uni@ == spec_union(views.take(i as int)),
            conflicted@.no_duplicates(),
            forall|t: Slot|
                conflicted@.contains(t) <==> spec_conflicted(views.take(i as int), t),
        decreases snaps@.len() - i,
    {
        let snap = &snaps[i];
        let n = snap.num_entries();
        let mut j: usize = 0;
        proof {
            snap.lemma_entries_distinct();
            snap.lemma_view_is_map_of();
            assert(views[i as int] == snaps@[i as int]@);
            assert(snap.entries_seq().take(0) =~= Seq::<SlotEntry>::empty());
            let pv0 = views.take(i as int).push(map_of(snap.entries_seq().take(0)));
            assert(map_of(snap.entries_seq().take(0)) == Map::<Slot, EventId>::empty());
            assert(pv0.drop_last() =~= views.take(i as int));
            assert(spec_union(pv0) == spec_union(views.take(i as int)).union_prefer_right(
                Map::empty(),
            ));
            assert(spec_union(pv0) =~= spec_union(views.take(i as int)));
            assert forall|t: Slot| spec_conflicted(pv0, t) == spec_conflicted(
                views.take(i as int),
                t,
            ) by {
                if spec_conflicted(pv0, t) {
                    let (a, b) = choose|a: int, b: int| spec_disagree(pv0, a, b, t);
                    assert(a < pv0.len() - 1 && b < pv0.len() - 1);
                    assert(spec_disagree(views.take(i as int), a, b, t));
                }
                if spec_conflicted(views.take(i as int), t) {
                    let (a, b) = choose|a: int, b: int|
                        spec_disagree(views.take(i as int), a, b, t);
                    assert(spec_disagree(pv0, a, b, t));
                }
            }
        }
        while j < n
            invariant
                j <= n == snap.entries_seq().len(),
                i < snaps@.len(),
                views == views_of(snaps@),
                forall|k: int| 0 <= k < snaps@.len() ==> (#[trigger] snaps@[k]).wf(),
                store.wf(),
                uni.wf(),
                snap.wf(),
                *snap == snaps@[i as int],
                uni@ == spec_union(
                    views.take(i as int).push(map_of(snap.entries_seq().take(j as int))),
                ),
                conflicted@.no_duplicates(),
                forall|t: Slot|
                    conflicted@.contains(t) <==> spec_conflicted(
                        views.take(i as int).push(map_of(snap.entries_seq().take(j as int))),
                        t,
                    ),
            decreases n - j,
        {
            let ghost partial = map_of(snap.entries_seq().take(j as int));
            let ghost pviews = views.take(i as int).push(partial);
            let ent = snap.entry_at(j);
            let ghost partial2 = map_of(snap.entries_seq().take(j + 1 as int));
            let ghost pviews2 = views.take(i as int).push(partial2);
            proof {
                snap.lemma_entries_distinct();
                assert(snap.entries_seq().take(j + 1 as int).drop_last() =~= snap.entries_seq()
                    .take(j as int));
                assert(snap.entries_seq().take(j + 1 as int).last() == ent);
                assert(partial2 == partial.insert(ent.slot, ent.event));
                crate::snapshot::lemma_map_of_contains(
                    snap.entries_seq().take(j as int),
                    ent.slot,
                );
                if partial.dom().contains(ent.slot) {
                    let p = choose|p: int|
                        0 <= p < j && #[trigger] snap.entries_seq().take(j as int)[p].slot
                            == ent.slot;
                    assert(snap.entries_seq()[p].slot == snap.entries_seq()[j as int].slot);
                    assert(false);
                }
                lemma_conflict_extend(views.take(i as int), partial, ent.slot, ent.event);
                lemma_union_dom(pviews);
            }
            let prev = uni.get(ent.slot);
            match prev {
                Some(w) => {
                    if w != ent.event {
                        proof {
                            lemma_union_value_witness(pviews, ent.slot);
                            assert(spec_conflicted(pviews2, ent.slot));
                        }
                        if !slot_in(&conflicted, ent.slot) {
                            let ghost c_old = conflicted@;
                            conflicted.push(ent.slot);
                            proof {
                                assert forall|t: Slot| conflicted@.contains(t)
                                    <==> spec_conflicted(pviews2, t) by {
                                    if t == ent.slot {
                                        assert(conflicted@.last() == ent.slot);
                                    } else {
                                        if conflicted@.contains(t) {
                                            let p = choose|p: int|
                                                0 <= p < conflicted@.len() && conflicted@[p] == t;
                                            assert(p < c_old.len());
                                            assert(c_old.contains(t));
                                        }
                                        if c_old.contains(t) {
                                            let p = choose|p: int|
                                                0 <= p < c_old.len() && c_old[p] == t;
                                            assert(conflicted@[p] == t);
                                        }
                                    }
                                }
                            }
                        } else {
                            proof {
                                assert forall|t: Slot| conflicted@.contains(t)
                                    <==> spec_conflicted(pviews2, t) by {}
                            }
                        }
                    } else {
                        proof {
                            if !spec_conflicted(pviews, ent.slot) {
                                lemma_union_agreeing_slot(pviews, ent.slot);
                                if exists|i2: int, w2: EventId|
                                    #[trigger] view_has(pviews, i2, ent.slot, w2) && w2
                                        != ent.event {
                                    let (i2, w2) = choose|i2: int, w2: EventId|
                                        #[trigger] view_has(pviews, i2, ent.slot, w2) && w2
                                            != ent.event;
                                    assert(spec_union(pviews)[ent.slot] == pviews[i2][ent.slot]);
                                    assert(false);
                                }
                            }
                            assert forall|t: Slot| conflicted@.contains(t) <==> spec_conflicted(
                                pviews2,
                                t,
                            ) by {}
                        }
                    }
                },
                None => {
                    proof {
                        if exists|i2: int, w2: EventId|
                            #[trigger] view_has(pviews, i2, ent.slot, w2) && w2 != ent.event {
                            let (i2, w2) = choose|i2: int, w2: EventId|
                                #[trigger] view_has(pviews, i2, ent.slot, w2) && w2 != ent.event;
                            assert(pviews[i2].dom().contains(ent.slot));
                            assert(spec_union(pviews).dom().contains(ent.slot));
                            assert(false);
                        }
                        if spec_conflicted(pviews, ent.slot) {
                            let (a, b) = choose|a: int, b: int|
                                spec_disagree(pviews, a, b, ent.slot);
                            assert(pviews[a].dom().contains(ent.slot));
                            assert(spec_union(pviews).dom().contains(ent.slot));
                            assert(false);
                        }
                        assert forall|t: Slot| conflicted@.contains(t) <==> spec_conflicted(
                            pviews2,
                            t,
                        ) by {}
                    }
                },
            }
            uni.set(ent.slot, ent.event);
            proof {
                assert(pviews.drop_last() =~= views.take(i as int));
                assert(pviews.last() == partial);
                assert(pviews2.drop_last() =~= views.take(i as int));
                assert(pviews2.last() == partial2);
                assert(spec_union(pviews2) == spec_union(views.take(i as int)).union_prefer_right(
                    partial2,
                ));
                assert(spec_union(pviews) == spec_union(views.take(i as int)).union_prefer_right(
                    partial,
                ));
                assert(spec_union(views.take(i as int)).union_prefer_right(
                    partial.insert(ent.slot, ent.event),
                ) =~= spec_union(views.take(i as int)).union_prefer_right(partial).insert(
                    ent.slot,
                    ent.event,
                ));
                assert(uni@ == spec_union(pviews2));
            }
            j = j + 1;
        }
        proof {
            assert(snap.entries_seq().take(n as int) =~= snap.entries_seq());
            snap.lemma_view_is_map_of();
            assert(map_of(snap.entries_seq()) == views[i as int]);
            assert(views.take(i as int).push(map_of(snap.entries_seq().take(n as int))) =~= views
                .take(i + 1 as int));
        }
        i = i + 1;
    }
    proof {
        assert(views.take(snaps@.len() as int) =~= views);
    }
    if conflicted.len() == 0 {
        proof {
            assert forall|t: Slot| !spec_conflicted(views, t) by {
                assert(!conflicted@.contains(t));
            }
            assert forall|id: EventId| !spec_conflicted_ids(views).contains(id) by {}
            assert(spec_conflicted_ids(views) =~= Set::<EventId>::empty());
            assert forall|id: EventId| !spec_auth_diff(views, store@).contains(id) by {
                if spec_auth_diff(views, store@).contains(id) {
                    let c = choose|c: EventId|
                        spec_conflicted_ids(views).contains(c) && store@.dom().contains(c)
                            && #[trigger] store@[c].auth_events@.contains(id);
                    assert(false);
                }
            }
            assert(spec_auth_diff(views, store@) =~= Set::<EventId>::empty());
            assert(spec_candidates(views, store@) =~= Set::<EventId>::empty());
            assert(spec_candidates(views, store@).subset_of(store@.dom()));
            assert(spec_base(views) =~= spec_union(views));
            let cs0 = Seq::<EventId>::empty();
            assert(cs0.to_set() =~= Set::<EventId>::empty());
            assert(spec_resolution_order(views, store@, cs0));
            assert(spec_replay(store@, spec_base(views), cs0) == spec_base(views));
            assert(uni@ == spec_replay(store@, spec_base(views), cs0));
            assert(spec_is_resolution(views, store@, uni@));
        }
        return Ok(uni);
    }
    proof {
        assert(conflicted@.contains(conflicted@[0]));
        assert(spec_conflicted(views, conflicted@[0]));
        assert(!spec_no_conflicts(views));
    }
    // Restrict the union to the unconflicted slots: the replay base.
    let mut base = StateSnapshot::new();
    let un = uni.num_entries();
    let mut k: usize = 0;
    while k < un
        invariant
            k <= un == uni.entries_seq().len(),
            uni.wf(),
            base.wf(),
            uni@ == spec_union(views),
            conflicted@.no_duplicates(),
            forall|t: Slot| conflicted@.contains(t) <==> spec_conflicted(views, t),
            forall|t: Slot|
                #[trigger] base@.dom().contains(t) ==> uni@.dom().contains(t) && base@[t]
                    == uni@[t] && !conflicted@.contains(t),
            forall|p: int|
                0 <= p < k ==> (conflicted@.contains(#[trigger] uni.entries_seq()[p].slot)
                    || base@.dom().contains(uni.entries_seq()[p].slot)),
        decreases un - k,
    {
        let ent = uni.entry_at(k);
        proof {
            uni.lemma_entries_view();
        }
        if !slot_in(&conflicted, ent.slot) {
            proof {
                assert(uni@.dom().contains(ent.slot) && uni@[ent.slot] == ent.event);
            }
            base.set(ent.slot, ent.event);
        }
        k = k + 1;
    }
    proof {
        uni.lemma_entries_view();
        assert forall|t: Slot| base@.dom().contains(t) == spec_base(views).dom().contains(t) by {
            if base@.dom().contains(t) {
                assert(uni@.dom().contains(t) && !conflicted@.contains(t));
            }
            if spec_base(views).dom().contains(t) {
                assert(uni@.dom().contains(t));
                let p = choose|p: int|
                    0 <= p < uni.entries_seq().len() && #[trigger] uni.entries_seq()[p].slot == t;
                assert(!conflicted@.contains(t));
                assert(base@.dom().contains(t));
            }
        }
        assert(base@ =~= spec_base(views));
    }
    // The events occupying conflicted slots in some input.
    let mut cids: Vec<EventId> = Vec::new();
    let mut k2: usize = 0;
    while k2 < conflicted.len()
        invariant
            k2 <= conflicted@.len(),
            views == views_of(snaps@),
            forall|kk: int| 0 <= kk < snaps@.len() ==> (#[trigger] snaps@[kk]).wf(),
            conflicted@.no_duplicates(),
            forall|t: Slot| conflicted@.contains(t) <==> spec_conflicted(views, t),
            cids@.no_duplicates(),
            forall|id: EventId|
                cids@.contains(id) <==> exists|p: int, ii: int|
                    0 <= p < k2 && #[trigger] view_has(views, ii, conflicted@[p], id),
        decreases conflicted@.len() - k2,
    {
        let s = conflicted[k2];
        let mut ii: usize = 0;
        while ii < snaps.len()
            invariant
                ii <= snaps@.len(),
                k2 < conflicted@.len(),
                s == conflicted@[k2 as int],
                views == views_of(snaps@),
                forall|kk: int| 0 <= kk < snaps@.len() ==> (#[trigger] snaps@[kk]).wf(),
                cids@.no_duplicates(),
                forall|id: EventId|
                    cids@.contains(id) <==> (exists|p: int, i2: int|
                        0 <= p < k2 && #[trigger] view_has(views, i2, conflicted@[p], id)) || (
                    exists|i2: int| 0 <= i2 < ii && #[trigger] view_has(views, i2, s, id)),
            decreases snaps@.len() - ii,
        {
            let sn = &snaps[ii];
            proof {
                assert(views[ii as int] == snaps@[ii as int]@);
            }
            match sn.get(s) {
                Some(v) => {
                    if !contains_id(&cids, v) {
                        let ghost c_old = cids@;
                        cids.push(v);
                        proof {
                            assert(cids@ == c_old.push(v));
                            assert forall|id: EventId| cids@.contains(id) implies ((exists|
                                p: int,
                                i2: int,
                            |
                                0 <= p < k2 && #[trigger] view_has(views, i2, conflicted@[p], id))
                                || (exists|i2: int|
                                0 <= i2 < ii + 1 && #[trigger] view_has(views, i2, s, id))) by {
                                let q = choose|q: int| 0 <= q < cids@.len() && cids@[q] == id;
                                if q == cids@.len() - 1 {
                                    assert(view_has(views, ii as int, s, id));
                                } else {
                                    assert(c_old[q] == id);
                                    assert(c_old.contains(id));
                                }
                            }
                            assert forall|id: EventId|
                                ((exists|p: int, i2: int|
                                    0 <= p < k2 && #[trigger] view_has(
                                        views,
                                        i2,
                                        conflicted@[p],
                                        id,
                                    )) || (exists|i2: int|
                                    0 <= i2 < ii + 1 && #[trigger] view_has(
                                        views,
                                        i2,
                                        s,
                                        id,
                                    ))) implies cids@.contains(id) by {
                                if (exists|p: int, i2: int|
                                    0 <= p < k2 && #[trigger] view_has(
                                        views,
                                        i2,
                                        conflicted@[p],
                                        id,
                                    )) || (exists|i2: int|
                                    0 <= i2 < ii && #[trigger] view_has(views, i2, s, id)) {
                                    assert(c_old.contains(id));
                                    let q = choose|q: int|
                                        0 <= q < c_old.len() && c_old[q] == id;
                                    assert(cids@[q] == id);
                                } else {
                                    assert(id == v);
                                    assert(cids@.last() == v);
                                }
                            }
                        }
                    } else {
                        proof {
                            assert forall|id: EventId|
                                ((exists|p: int, i2: int|
                                    0 <= p < k2 && #[trigger] view_has(
                                        views,
                                        i2,
                                        conflicted@[p],
                                        id,
                                    )) || (exists|i2: int|
                                    0 <= i2 < ii + 1 && #[trigger] view_has(
                                        views,
                                        i2,
                                        s,
                                        id,
                                    ))) implies cids@.contains(id) by {
                                if exists|i2: int|
                                    0 <= i2 < ii + 1 && #[trigger] view_has(views, i2, s, id) {
                                    let i2 = choose|i2: int|
                                        0 <= i2 < ii + 1 && #[trigger] view_has(
                                            views,
                                            i2,
                                            s,
                                            id,
                                        );
                                    if i2 == ii {
                                        assert(id == v);
                                    }
                                }
                            }
                        }
                    }
                },
                None => {
                    proof {
                        assert forall|id: EventId|
                            ((exists|p: int, i2: int|
                                0 <= p < k2 && #[trigger] view_has(views, i2, conflicted@[p], id))
                                || (exists|i2: int|
                                0 <= i2 < ii + 1 && #[trigger] view_has(
                                    views,
                                    i2,
                                    s,
                                    id,
                                ))) implies cids@.contains(id) by {
                            if exists|i2: int|
                                0 <= i2 < ii + 1 && #[trigger] view_has(views, i2, s, id) {
                                let i2 = choose|i2: int|
                                    0 <= i2 < ii + 1 && #[trigger] view_has(views, i2, s, id);
                                assert(i2 != ii);
                            }
                        }
                    }
                },
            }
            ii = ii + 1;
        }
        proof {
            assert forall|id: EventId| cids@.contains(id) implies (exists|p: int, i2: int|
                0 <= p < k2 + 1 && #[trigger] view_has(views, i2, conflicted@[p], id)) by {
                if exists|i2: int| 0 <= i2 < snaps@.len() && #[trigger] view_has(
                    views,
                    i2,
                    s,
                    id,
                ) {
                    let i2 = choose|i2: int|
                        0 <= i2 < snaps@.len() && #[trigger] view_has(views, i2, s, id);
                    assert(view_has(views, i2, conflicted@[k2 as int], id));
                }
            }
            assert forall|id: EventId|
                (exists|p: int, i2: int|
                    0 <= p < k2 + 1 && #[trigger] view_has(
                        views,
                        i2,
                        conflicted@[p],
                        id,
                    )) implies cids@.contains(id) by {
                let (p, i2) = choose|p: int, i2: int|
                    0 <= p < k2 + 1 && #[trigger] view_has(views, i2, conflicted@[p], id);
                if p == k2 {
                    assert(0 <= i2 < views.len());
                    assert(views.len() == snaps@.len());
                    assert(view_has(views, i2, s, id));
                }
            }
        }
        k2 = k2 + 1;
    }
    proof {
        assert forall|id: EventId| cids@.contains(id) == spec_conflicted_ids(views).contains(
            id,
        ) by {
            if cids@.contains(id) {
                let (p, i2) = choose|p: int, i2: int|
                    0 <= p < conflicted@.len() && #[trigger] view_has(
                        views,
                        i2,
                        conflicted@[p],
                        id,
                    );
                assert(conflicted@.contains(conflicted@[p]));
                assert(spec_conflicted(views, conflicted@[p]));
            }
            if spec_conflicted_ids(views).contains(id) {
                let (i2, t) = choose|i2: int, t: Slot|
                    spec_conflicted(views, t) && #[trigger] view_has(views, i2, t, id);
                assert(conflicted@.contains(t));
                let p = choose|p: int| 0 <= p < conflicted@.len() && conflicted@[p] == t;
                assert(view_has(views, i2, conflicted@[p], id));
            }
        }
    }
    // Every conflicted event must be locally stored.
    let mut k3: usize = 0;
    while k3 < cids.len()
        invariant
            k3 <= cids@.len(),
            views == views_of(snaps@),
            forall|id: EventId| cids@.contains(id) == spec_conflicted_ids(views).contains(id),
            forall|p: int| 0 <= p < k3 ==> store@.dom().contains(#[trigger] cids@[p]),
        decreases cids@.len() - k3,
    {
        if !store.contains(cids[k3]) {
            proof {
                assert(cids@.contains(cids@[k3 as int]));
                assert(spec_candidates(views, store@).contains(cids@[k3 as int]));
                assert(!spec_candidates(views, store@).subset_of(store@.dom()));
            }
            return Err(EngineError::IncompleteGraph(cids[k3]));
        }
        k3 = k3 + 1;
    }
    // The candidate set: conflicted events plus the auth difference.
    let mut cand: Vec<EventId> = Vec::new();
    let mut k4: usize = 0;
    while k4 < cids.len()
        invariant
            k4 <= cids@.len(),
            cids@.no_duplicates(),
            cand@ == cids@.take(k4 as int),
        decreases cids@.len() - k4,
    {
        cand.push(cids[k4]);
        proof {
            assert(cids@.take(k4 + 1 as int) =~= cids@.take(k4 as int).push(cids@[k4 as int]));
        }
        k4 = k4 + 1;
    }
    proof {
        assert(cids@.take(cids@.len() as int) =~= cids@);
    }
    let mut k5: usize = 0;
    while k5 < cids.len()
        invariant
            k5 <= cids@.len(),
            views == views_of(snaps@),
            store.wf(),
            forall|kk: int| 0 <= kk < snaps@.len() ==> (#[trigger] snaps@[kk]).wf(),
            forall|id: EventId| cids@.contains(id) == spec_conflicted_ids(views).contains(id),
            forall|p: int| 0 <= p < cids@.len() ==> store@.dom().contains(#[trigger] cids@[p]),
            cand@.no_duplicates(),
            forall|id: EventId|
                cand@.contains(id) <==> (cids@.contains(id) || (!spec_agreed(views).contains(id)
                    && exists|p: int|
                    0 <= p < k5 && #[trigger] store@[cids@[p]].auth_events@.contains(id))),
        decreases cids@.len() - k5,
    {
        let c = cids[k5];
        let e = store.get(c).unwrap();
        let m = e.auth_events.len();
        let mut ai: usize = 0;
        while ai < m
            invariant
                ai <= m == e.auth_events@.len(),
                k5 < cids@.len(),
                c == cids@[k5 as int],
                *e == store@[c],
                store@.dom().contains(c),
                views == views_of(snaps@),
                store.wf(),
                forall|kk: int| 0 <= kk < snaps@.len() ==> (#[trigger] snaps@[kk]).wf(),
                forall|id: EventId|
                    cids@.contains(id) == spec_conflicted_ids(views).contains(id),
                forall|p: int|
                    0 <= p < cids@.len() ==> store@.dom().contains(#[trigger] cids@[p]),
                cand@.no_duplicates(),
                forall|id: EventId|
                    cand@.contains(id) <==> (cids@.contains(id) || (!spec_agreed(
                        views,
                    ).contains(id) && ((exists|p: int|
                        0 <= p < k5 && #[trigger] store@[cids@[p]].auth_events@.contains(id)) || (
                    e.auth_events@.take(ai as int).contains(id))))),
            decreases m - ai,
        {
            let a = e.auth_events[ai];
            proof {
                assert(e.auth_events@.take(ai + 1 as int) =~= e.auth_events@.take(
                    ai as int,
                ).push(a));
            }
            if !contains_id(&cand, a) {
                if !is_agreed(snaps, a) {
                    let ghost c_old = cand@;
                    cand.push(a);
                    proof {
                        assert(cand@ == c_old.push(a));
                        assert forall|id: EventId| c_old.contains(id) implies cand@.contains(
                            id,
                        ) by {
                            let q = choose|q: int| 0 <= q < c_old.len() && c_old[q] == id;
                            assert(cand@[q] == id);
                        }
                        assert(cand@.last() == a);
                        assert(e.auth_events@.take(ai + 1 as int).contains(a)) by {
                            assert(e.auth_events@.take(ai + 1 as int).last() == a);
                        }
                        assert forall|id: EventId| cand@.contains(id) implies (cids@.contains(id)
                            || (!spec_agreed(views).contains(id) && ((exists|p: int|
                            0 <= p < k5 && #[trigger] store@[cids@[p]].auth_events@.contains(id))
                            || (e.auth_events@.take(ai + 1 as int).contains(id))))) by {
                            let q = choose|q: int| 0 <= q < cand@.len() && cand@[q] == id;
                            if q == cand@.len() - 1 {
                            } else {
                                assert(c_old[q] == id);
                                assert(c_old.contains(id));
                                if !cids@.contains(id) && !spec_agreed(views).contains(id) {
                                    if e.auth_events@.take(ai as int).contains(id) {
                                        let w = choose|w: int|
                                            0 <= w < ai && #[trigger] e.auth_events@.take(
                                                ai as int,
                                            )[w] == id;
                                        assert(e.auth_events@.take(ai + 1 as int)[w] == id);
                                    }
                                }
                            }
                        }
                    }
                } else {
                    proof {
                        assert forall|id: EventId|
                            (cids@.contains(id) || (!spec_agreed(views).contains(id) && ((exists|
                                p: int,
                            |
                                0 <= p < k5 && #[trigger] store@[cids@[p]].auth_events@.contains(
                                    id,
                                )) || (e.auth_events@.take(ai + 1 as int).contains(
                                id,
                            ))))) implies cand@.contains(id) by {
                            if !cids@.contains(id) && !spec_agreed(views).contains(id)
                                && !(exists|p: int|
                                0 <= p < k5 && #[trigger] store@[cids@[p]].auth_events@.contains(
                                    id,
                                )) && e.auth_events@.take(ai + 1 as int).contains(id) {
                                let w = choose|w: int|
                                    0 <= w < ai + 1 && #[trigger] e.auth_events@.take(
                                        ai + 1 as int,
                                    )[w] == id;
                                if w == ai {
                                    assert(id == a);
                                    assert(false);
                                } else {
                                    assert(e.auth_events@.take(ai as int)[w] == id);
                                    assert(e.auth_events@.take(ai as int).contains(id));
                                }
                            }
                        }
                    }
                }
            } else {
                proof {
                    assert forall|id: EventId|
                        (cids@.contains(id) || (!spec_agreed(views).contains(id) && ((exists|
                            p: int,
                        |
                            0 <= p < k5 && #[trigger] store@[cids@[p]].auth_events@.contains(id))
                            || (e.auth_events@.take(ai + 1 as int).contains(
                            id,
                        ))))) implies cand@.contains(id) by {
                        if !cids@.contains(id) && !spec_agreed(views).contains(id) && !(exists|
                            p: int,
                        |
                            0 <= p < k5 && #[trigger] store@[cids@[p]].auth_events@.contains(id))
                            && e.auth_events@.take(ai + 1 as int).contains(id) {
                            let w = choose|w: int|
                                0 <= w < ai + 1 && #[trigger] e.auth_events@.take(
                                    ai + 1 as int,
                                )[w] == id;
                            if w == ai {
                                assert(id == a);
                            } else {
                                assert(e.auth_events@.take(ai as int)[w] == id);
                                assert(e.auth_events@.take(ai as int).contains(id));
                            }
                        }
                    }
                }
            }
            ai = ai + 1;
        }
        proof {
            assert(e.auth_events@.take(e.auth_events@.len() as int) =~= e.auth_events@);
            assert forall|id: EventId|
                cand@.contains(id) <==> (cids@.contains(id) || (!spec_agreed(views).contains(id)
                    && exists|p: int|
                    0 <= p < k5 + 1 && #[trigger] store@[cids@[p]].auth_events@.contains(
                        id,
                    ))) by {
                if cand@.contains(id) && !cids@.contains(id) {
                    if e.auth_events@.contains(id) {
                        assert(store@[cids@[k5 as int]].auth_events@.contains(id));
                    }
                }
                if !cand@.contains(id) && !cids@.contains(id) && !spec_agreed(views).contains(id) {
                    if exists|p: int|
                        0 <= p < k5 + 1 && #[trigger] store@[cids@[p]].auth_events@.contains(id) {
                        let p = choose|p: int|
                            0 <= p < k5 + 1 && #[trigger] store@[cids@[p]].auth_events@.contains(
                                id,
                            );
                        if p == k5 {
                            assert(store@[c].auth_events@.contains(id));
                            assert(e.auth_events@.contains(id));
                        }
                    }
                }
            }
        }
        k5 = k5 + 1;
    }
    proof {
        assert forall|id: EventId| cand@.contains(id) == spec_candidates(views, store@).contains(
            id,
        ) by {
            if cand@.contains(id) {
                if cids@.contains(id) {
                    assert(spec_conflicted_ids(views).contains(id));
                } else {
                    let p = choose|p: int|
                        0 <= p < cids@.len() && #[trigger] store@[cids@[p]].auth_events@.contains(
                            id,
                        );
                    assert(cids@.contains(cids@[p]));
                    assert(spec_conflicted_ids(views).contains(cids@[p]));
                    assert(spec_auth_diff(views, store@).contains(id));
                }
            }
            if spec_candidates(views, store@).contains(id) && !cand@.contains(id) {
                if spec_conflicted_ids(views).contains(id) {
                    assert(cids@.contains(id));
                    assert(false);
                } else {
                    assert(spec_auth_diff(views, store@).contains(id));
                    let c2 = choose|c2: EventId|
                        spec_conflicted_ids(views).contains(c2) && store@.dom().contains(c2)
                            && #[trigger] store@[c2].auth_events@.contains(id);
                    assert(cids@.contains(c2));
                    let p = choose|p: int| 0 <= p < cids@.len() && cids@[p] == c2;
                    assert(store@[cids@[p]].auth_events@.contains(id));
                    assert(false);
                }
            }
        }
    }
    // Every candidate must be locally stored before it can be replayed.
    let mut k6: usize = 0;
    while k6 < cand.len()
        invariant
            k6 <= cand@.len(),
            views == views_of(snaps@),
            forall|id: EventId|
                cand@.contains(id) == spec_candidates(views, store@).contains(id),
            forall|p: int| 0 <= p < k6 ==> store@.dom().contains(#[trigger] cand@[p]),
        decreases cand@.len() - k6,
    {
        if !store.contains(cand[k6]) {
            proof {
                assert(cand@.contains(cand@[k6 as int]));
                assert(!spec_candidates(views, store@).subset_of(store@.dom()));
            }
            return Err(EngineError::IncompleteGraph(cand[k6]));
        }
        k6 = k6 + 1;
    }
    proof {
        assert forall|id: EventId| spec_candidates(views, store@).contains(id) implies store@.dom()
            .contains(id) by {
            assert(cand@.contains(id));
            let p = choose|p: int| 0 <= p < cand@.len() && cand@[p] == id;
            assert(store@.dom().contains(cand@[p]));
        }
    }
    // Power-ordered, timestamp- and id-tie-broken replay order.
    let ghost cand_pre = cand@;
    sort_ids(&mut cand, &base, store);
    proof {
        assert forall|p: int| 0 <= p < cand@.len() implies store@.dom().contains(
            #[trigger] cand@[p],
        ) by {
            assert(cand@.to_set().contains(cand@[p]));
            assert(cand_pre.to_set().contains(cand@[p]));
            let q = choose|q: int| 0 <= q < cand_pre.len() && cand_pre[q] == cand@[p];
            assert(store@.dom().contains(cand_pre[q]));
        }
    }
    // Replay the candidates from the unconflicted base.
    let ghost b0 = base@;
    let mut acc = base;
    let mut k7: usize = 0;
    proof {
        assert(cand@.take(0) =~= Seq::<EventId>::empty());
    }
    while k7 < cand.len()
        invariant
            k7 <= cand@.len(),
            store.wf(),
            acc.wf(),
            forall|p: int| 0 <= p < cand@.len() ==> store@.dom().contains(#[trigger] cand@[p]),
            acc@ == spec_replay(store@, b0, cand@.take(k7 as int)),
        decreases cand@.len() - k7,
    {
        let c = cand[k7];
        let e = store.get(c).unwrap();
        proof {
            assert(cand@.take(k7 + 1 as int).drop_last() =~= cand@.take(k7 as int));
            assert(cand@.take(k7 + 1 as int).last() == c);
        }
        if is_authorized(e, &acc, store) {
            match slot_of(e) {
                Some(s) => {
                    acc.set(s, c);
                },
                None => {},
            }
        }
        proof {
            assert(acc@ == spec_replay(store@, b0, cand@.take(k7 + 1 as int)));
        }
        k7 = k7 + 1;
    }
    proof {
        assert(cand@.take(cand@.len() as int) =~= cand@);
        assert forall|id: EventId| cand@.to_set().contains(id) == spec_candidates(
            views,
            store@,
        ).contains(id) by {
            assert(cand@.to_set() == cand_pre.to_set());
            assert(cand_pre.to_set().contains(id) == cand_pre.contains(id));
            assert(cand_pre.contains(id) == spec_candidates(views, store@).contains(id));
        }
        assert(cand@.to_set() =~= spec_candidates(views, store@));
        assert(spec_resolution_order(views, store@, cand@));
        assert(acc@ == spec_replay(store@, spec_base(views), cand@));
        assert(spec_is_resolution(views, store@, acc@));
    }
    Ok(acc)
}

} // verus!
