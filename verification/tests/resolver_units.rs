use roomgraph::auth::{is_authorized, power_of};
use roomgraph::engine::{Engine, Outcome};
use roomgraph::event::{
    compute_event_id, Content, EngineError, Event, EventType, Membership, PowerLevels, Slot,
    UserLevel,
};
use roomgraph::resolve::resolve;
use roomgraph::snapshot::StateSnapshot;
use roomgraph::store::EventStore;

fn finish(mut e: Event) -> Event {
    e.event_id = compute_event_id(&e);
    e
}

fn create_event(room: u64, creator: u64) -> Event {
    finish(Event {
        event_id: 0,
        room_id: room,
        sender: creator,
        event_type: EventType::Create,
        state_key: Some(0),
        content: Content::Create { creator },
        prev_events: vec![],
        auth_events: vec![],
        depth: 0,
        origin_server_ts: 1,
    })
}

fn member_event(
    room: u64,
    sender: u64,
    target: u64,
    membership: Membership,
    parents: Vec<u64>,
    auth: Vec<u64>,
    depth: u64,
    ts: u64,
) -> Event {
    finish(Event {
        event_id: 0,
        room_id: room,
        sender,
        event_type: EventType::Member,
        state_key: Some(target),
        content: Content::Member { membership },
        prev_events: parents,
        auth_events: auth,
        depth,
        origin_server_ts: ts,
    })
}

fn create_slot() -> Slot {
    Slot { etype: EventType::Create, key: 0 }
}

fn member_slot(user: u64) -> Slot {
    Slot { etype: EventType::Member, key: user }
}

#[test]
fn hash_is_deterministic_and_content_sensitive() {
    let a = create_event(1, 10);
    let b = create_event(1, 10);
    assert_eq!(a.event_id, b.event_id);
    let c = create_event(1, 11);
    assert_ne!(a.event_id, c.event_id);
    let d = create_event(2, 10);
    assert_ne!(a.event_id, d.event_id);
}

#[test]
fn store_put_is_idempotent_and_validating() {
    let mut store = EventStore::new();
    let a = create_event(1, 10);
    let aid = a.event_id;
    assert_eq!(store.put(a.clone()), Ok(()));
    assert_eq!(store.put(a.clone()), Ok(()));
    assert!(store.get(aid).is_some());
    assert_eq!(store.get(aid).unwrap().room_id, 1);
    // A declared id that is not the content hash is an integrity error.
    let mut forged = create_event(1, 12);
    forged.event_id = forged.event_id.wrapping_add(1);
    assert_eq!(store.put(forged), Err(EngineError::IntegrityViolation));
    // A message carrying a state key is malformed.
    let bad = Event {
        event_id: 0,
        room_id: 1,
        sender: 10,
        event_type: EventType::Message,
        state_key: Some(3),
        content: Content::Text { body: 9 },
        prev_events: vec![aid],
        auth_events: vec![],
        depth: 1,
        origin_server_ts: 2,
    };
    let bad = finish(bad);
    assert_eq!(store.put(bad), Err(EngineError::Malformed));
}

#[test]
fn store_indexes_children_and_rooms() {
    let mut store = EventStore::new();
    let a = create_event(1, 10);
    let aid = a.event_id;
    let j = member_event(1, 10, 10, Membership::Join, vec![aid], vec![aid], 1, 2);
    let jid = j.event_id;
    assert_eq!(store.put(a), Ok(()));
    assert_eq!(store.put(j), Ok(()));
    assert_eq!(store.children_of(aid), vec![jid]);
    assert!(store.children_of(jid).is_empty());
    let mut room_events = store.events_in_room(1);
    room_events.sort();
    let mut want = vec![aid, jid];
    want.sort();
    assert_eq!(room_events, want);
    assert!(store.events_in_room(2).is_empty());
}

#[test]
fn snapshot_slots_supersede() {
    let mut s = StateSnapshot::new();
    assert!(s.is_empty());
    s.set(member_slot(7), 100);
    s.set(create_slot(), 5);
    assert_eq!(s.get(member_slot(7)), Some(100));
    s.set(member_slot(7), 200);
    assert_eq!(s.get(member_slot(7)), Some(200));
    assert_eq!(s.get(create_slot()), Some(5));
    assert_eq!(s.get(member_slot(8)), None);
    let d = s.duplicate();
    assert_eq!(d.get(member_slot(7)), Some(200));
    assert!(!s.is_empty());
}

#[test]
fn resolver_fast_path_is_the_union() {
    let store = EventStore::new();
    let mut s1 = StateSnapshot::new();
    s1.set(create_slot(), 5);
    let mut s2 = StateSnapshot::new();
    s2.set(create_slot(), 5);
    s2.set(member_slot(7), 9);
    let inputs = vec![s1, s2];
    let out = resolve(&inputs, &store).expect("no conflicts");
    assert_eq!(out.get(create_slot()), Some(5));
    assert_eq!(out.get(member_slot(7)), Some(9));
}

#[test]
fn resolver_suspends_on_missing_conflicted_event() {
    let store = EventStore::new();
    let mut s1 = StateSnapshot::new();
    s1.set(member_slot(7), 111);
    let mut s2 = StateSnapshot::new();
    s2.set(member_slot(7), 222);
    let inputs = vec![s1, s2];
    match resolve(&inputs, &store) {
        Err(EngineError::IncompleteGraph(x)) => assert!(x == 111 || x == 222),
        other => panic!("expected suspension, got {:?}", other.is_ok()),
    }
}

#[test]
fn resolver_replays_conflicts_by_power() {
    let mut store = EventStore::new();
    let a = create_event(1, 10);
    let aid = a.event_id;
    let j10 = member_event(1, 10, 10, Membership::Join, vec![aid], vec![aid], 1, 2);
    let j10id = j10.event_id;
    let j20 = member_event(1, 20, 20, Membership::Join, vec![j10id], vec![aid], 2, 3);
    let j20id = j20.event_id;
    let d = member_event(1, 10, 30, Membership::Invite, vec![j20id], vec![aid], 3, 4);
    let did = d.event_id;
    let e = member_event(1, 20, 30, Membership::Invite, vec![j20id], vec![aid], 3, 5);
    let eid = e.event_id;
    for ev in [a, j10, j20, d, e] {
        assert_eq!(store.put(ev), Ok(()));
    }
    let base_slots = [(create_slot(), aid), (member_slot(10), j10id), (member_slot(20), j20id)];
    let mut s1 = StateSnapshot::new();
    let mut s2 = StateSnapshot::new();
    for (slot, id) in base_slots {
        s1.set(slot, id);
        s2.set(slot, id);
    }
    s1.set(member_slot(30), did);
    s2.set(member_slot(30), eid);
    let inputs = vec![s1, s2];
    let out = resolve(&inputs, &store).expect("conflict is resolvable");
    // The creator (power 100) replays before user 20 (power 0), whose
    // invite then fails the invite threshold: the creator's event wins.
    assert_eq!(out.get(member_slot(30)), Some(did));
    assert_eq!(out.get(create_slot()), Some(aid));
    assert_eq!(out.get(member_slot(10)), Some(j10id));
    assert_eq!(out.get(member_slot(20)), Some(j20id));
}

#[test]
fn power_defaults_favor_the_creator() {
    let mut store = EventStore::new();
    let a = create_event(1, 10);
    let aid = a.event_id;
    assert_eq!(store.put(a), Ok(()));
    let mut snap = StateSnapshot::new();
    snap.set(create_slot(), aid);
    assert_eq!(power_of(&snap, &store, 10), 100);
    assert_eq!(power_of(&snap, &store, 20), 0);
}

#[test]
fn power_event_overrides_defaults() {
    let mut store = EventStore::new();
    let a = create_event(1, 10);
    let aid = a.event_id;
    let p = finish(Event {
        event_id: 0,
        room_id: 1,
        sender: 10,
        event_type: EventType::PowerLevels,
        state_key: Some(0),
        content: Content::Power(PowerLevels {
            users: vec![UserLevel { user: 10, level: 100 }, UserLevel { user: 20, level: 75 }],
            users_default: 1,
            events_default: 0,
            state_default: 50,
            ban: 50,
            kick: 50,
            invite: 50,
        }),
        prev_events: vec![aid],
        auth_events: vec![aid],
        depth: 1,
        origin_server_ts: 2,
    });
    let pid = p.event_id;
    assert_eq!(store.put(a), Ok(()));
    assert_eq!(store.put(p), Ok(()));
    let mut snap = StateSnapshot::new();
    snap.set(create_slot(), aid);
    snap.set(Slot { etype: EventType::PowerLevels, key: 0 }, pid);
    assert_eq!(power_of(&snap, &store, 10), 100);
    assert_eq!(power_of(&snap, &store, 20), 75);
    assert_eq!(power_of(&snap, &store, 30), 1);
}

#[test]
fn auth_rules_gate_membership() {
    let mut store = EventStore::new();
    let a = create_event(1, 10);
    let aid = a.event_id;
    let j10 = member_event(1, 10, 10, Membership::Join, vec![aid], vec![aid], 1, 2);
    let j10id = j10.event_id;
    assert_eq!(store.put(a), Ok(()));
    assert_eq!(store.put(j10.clone()), Ok(()));
    let mut snap = StateSnapshot::new();
    snap.set(create_slot(), aid);
    snap.set(member_slot(10), j10id);
    // A self-join is allowed; a forced join of another user is not.
    let self_join = member_event(1, 20, 20, Membership::Join, vec![j10id], vec![aid], 2, 3);
    assert!(is_authorized(&self_join, &snap, &store));
    let forced = member_event(1, 10, 20, Membership::Join, vec![j10id], vec![aid], 2, 3);
    assert!(!is_authorized(&forced, &snap, &store));
    // The creator may ban a defaulted user; a stranger may do nothing.
    let ban = member_event(1, 10, 20, Membership::Ban, vec![j10id], vec![aid], 2, 4);
    assert!(is_authorized(&ban, &snap, &store));
    let stranger_ban = member_event(1, 40, 20, Membership::Ban, vec![j10id], vec![aid], 2, 4);
    assert!(!is_authorized(&stranger_ban, &snap, &store));
}

#[test]
fn depth_and_room_consistency_are_enforced() {
    let mut eng = Engine::new();
    let a = create_event(1, 10);
    let aid = a.event_id;
    assert_eq!(eng.ingest(a), Outcome::Accepted);
    // Wrong depth: parents have depth 0, so depth must be 1.
    let wrong_depth = member_event(1, 20, 20, Membership::Join, vec![aid], vec![aid], 5, 2);
    assert_eq!(eng.ingest(wrong_depth), Outcome::Rejected(EngineError::Malformed));
    // A create event must carry no parents.
    let bad_create = finish(Event {
        event_id: 0,
        room_id: 3,
        sender: 10,
        event_type: EventType::Create,
        state_key: Some(0),
        content: Content::Create { creator: 10 },
        prev_events: vec![aid],
        auth_events: vec![],
        depth: 1,
        origin_server_ts: 5,
    });
    assert_eq!(eng.ingest(bad_create), Outcome::Rejected(EngineError::Malformed));
    // An event whose parent lives in another room is malformed.
    let b = create_event(2, 10);
    let bid = b.event_id;
    assert_eq!(eng.ingest(b), Outcome::Accepted);
    let cross = member_event(1, 20, 20, Membership::Join, vec![bid], vec![bid], 1, 6);
    assert_eq!(eng.ingest(cross), Outcome::Rejected(EngineError::Malformed));
}

#[test]
fn resolver_accepts_empty_input() {
    let store = EventStore::new();
    let inputs: Vec<StateSnapshot> = vec![];
    let out = resolve(&inputs, &store).expect("nothing conflicts");
    assert!(out.is_empty());
}

#[test]
fn resolver_input_order_is_irrelevant() {
    let mut store = EventStore::new();
    let a = create_event(1, 10);
    let aid = a.event_id;
    let j10 = member_event(1, 10, 10, Membership::Join, vec![aid], vec![aid], 1, 2);
    let j10id = j10.event_id;
    let d = member_event(1, 10, 30, Membership::Invite, vec![j10id], vec![aid], 2, 4);
    let did = d.event_id;
    let e = member_event(1, 10, 30, Membership::Ban, vec![j10id], vec![aid], 2, 5);
    let eid = e.event_id;
    for ev in [a, j10, d, e] {
        assert_eq!(store.put(ev), Ok(()));
    }
    let mut s1 = StateSnapshot::new();
    let mut s2 = StateSnapshot::new();
    for (slot, id) in [(create_slot(), aid), (member_slot(10), j10id)] {
        s1.set(slot, id);
        s2.set(slot, id);
    }
    s1.set(member_slot(30), did);
    s2.set(member_slot(30), eid);
    let fwd = vec![s1.duplicate(), s2.duplicate()];
    let rev = vec![s2, s1];
    let out1 = resolve(&fwd, &store).expect("resolvable");
    let out2 = resolve(&rev, &store).expect("resolvable");
    for slot in [create_slot(), member_slot(10), member_slot(30)] {
        assert_eq!(out1.get(slot), out2.get(slot));
    }
}

#[test]
fn banned_user_cannot_rejoin() {
    let mut eng = Engine::new();
    let a = create_event(1, 10);
    let aid = a.event_id;
    let j10 = member_event(1, 10, 10, Membership::Join, vec![aid], vec![aid], 1, 2);
    let jid = j10.event_id;
    let j20 = member_event(1, 20, 20, Membership::Join, vec![jid], vec![aid], 2, 3);
    let j20id = j20.event_id;
    let ban = member_event(1, 10, 20, Membership::Ban, vec![j20id], vec![aid], 3, 4);
    let banid = ban.event_id;
    for ev in [a, j10, j20, ban] {
        assert_eq!(eng.ingest(ev), Outcome::Accepted);
    }
    let rejoin = member_event(1, 20, 20, Membership::Join, vec![banid], vec![aid], 4, 5);
    assert_eq!(eng.ingest(rejoin), Outcome::Rejected(EngineError::Unauthorized));
    let snap = eng.get_resolved_state(1).unwrap();
    assert_eq!(snap.get(member_slot(20)), Some(banid));
}

#[test]
fn redaction_follows_the_send_level() {
    let mut eng = Engine::new();
    let a = create_event(1, 10);
    let aid = a.event_id;
    let j10 = member_event(1, 10, 10, Membership::Join, vec![aid], vec![aid], 1, 2);
    let jid = j10.event_id;
    let msg = finish(Event {
        event_id: 0,
        room_id: 1,
        sender: 10,
        event_type: EventType::Message,
        state_key: None,
        content: Content::Text { body: 3 },
        prev_events: vec![jid],
        auth_events: vec![],
        depth: 2,
        origin_server_ts: 3,
    });
    let mid = msg.event_id;
    for ev in [a, j10, msg] {
        assert_eq!(eng.ingest(ev), Outcome::Accepted);
    }
    let redact = finish(Event {
        event_id: 0,
        room_id: 1,
        sender: 10,
        event_type: EventType::Redaction,
        state_key: None,
        content: Content::Redact { redacts: mid },
        prev_events: vec![mid],
        auth_events: vec![],
        depth: 3,
        origin_server_ts: 4,
    });
    let rid = redact.event_id;
    assert_eq!(eng.ingest(redact), Outcome::Accepted);
    assert!(eng.get_event(rid).is_some());
    assert_eq!(eng.get_forward_extremities(1), vec![rid]);
}
