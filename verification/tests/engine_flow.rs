use roomgraph::engine::{Engine, Outcome};
use roomgraph::event::{
    compute_event_id, Content, EngineError, Event, EventType, Membership, PowerLevels, Slot,
    UserLevel,
};

fn finish(mut e: Event) -> Event {
    e.event_id = compute_event_id(&e);
    e
}

fn create_event(room: u64, creator: u64) -> Event {
    finish(Event {
        event_id: 0,
        room_id: room,
        sender: creator,
        event_type: EventType::Create,
        state_key: Some(0),
        content: Content::Create { creator },
        prev_events: vec![],
        auth_events: vec![],
        depth: 0,
        origin_server_ts: 1,
    })
}

fn member_event(
    room: u64,
    sender: u64,
    target: u64,
    membership: Membership,
    parents: Vec<u64>,
    auth: Vec<u64>,
    depth: u64,
    ts: u64,
) -> Event {
    finish(Event {
        event_id: 0,
        room_id: room,
        sender,
        event_type: EventType::Member,
        state_key: Some(target),
        content: Content::Member { membership },
        prev_events: parents,
        auth_events: auth,
        depth,
        origin_server_ts: ts,
    })
}

fn power_event(
    room: u64,
    sender: u64,
    users: Vec<UserLevel>,
    parents: Vec<u64>,
    auth: Vec<u64>,
    depth: u64,
    ts: u64,
) -> Event {
    finish(Event {
        event_id: 0,
        room_id: room,
        sender,
        event_type: EventType::PowerLevels,
        state_key: Some(0),
        content: Content::Power(PowerLevels {
            users,
            users_default: 0,
            events_default: 0,
            state_default: 50,
            ban: 50,
            kick: 50,
            invite: 50,
        }),
        prev_events: parents,
        auth_events: auth,
        depth,
        origin_server_ts: ts,
    })
}

fn message_event(room: u64, sender: u64, body: u64, parents: Vec<u64>, depth: u64, ts: u64) -> Event {
    finish(Event {
        event_id: 0,
        room_id: room,
        sender,
        event_type: EventType::Message,
        state_key: None,
        content: Content::Text { body },
        prev_events: parents,
        auth_events: vec![],
        depth,
        origin_server_ts: ts,
    })
}

fn member_slot(user: u64) -> Slot {
    Slot { etype: EventType::Member, key: user }
}

#[test]
fn create_then_join_builds_state() {
    let mut eng = Engine::new();
    let a = create_event(1, 10);
    let aid = a.event_id;
    assert_eq!(eng.ingest(a), Outcome::Accepted);
    let b = member_event(1, 20, 20, Membership::Join, vec![aid], vec![aid], 1, 2);
    let bid = b.event_id;
    assert_eq!(eng.ingest(b), Outcome::Accepted);
    let snap = eng.get_resolved_state(1).expect("room exists");
    assert_eq!(snap.get(Slot { etype: EventType::Create, key: 0 }), Some(aid));
    assert_eq!(snap.get(member_slot(20)), Some(bid));
    assert!(eng.get_event(aid).is_some());
    assert!(eng.get_event(bid).is_some());
    assert!(eng.get_resolved_state(2).is_none());
}

#[test]
fn ingest_is_idempotent() {
    let mut eng = Engine::new();
    let a = create_event(1, 10);
    let aid = a.event_id;
    assert_eq!(eng.ingest(a.clone()), Outcome::Accepted);
    let exts_before = {
        let mut v = eng.get_forward_extremities(1);
        v.sort();
        v
    };
    let snap_before = eng.get_resolved_state(1).unwrap();
    let res_before = eng.resolutions();
    assert_eq!(eng.ingest(a), Outcome::AlreadyKnown);
    let exts_after = {
        let mut v = eng.get_forward_extremities(1);
        v.sort();
        v
    };
    let snap_after = eng.get_resolved_state(1).unwrap();
    assert_eq!(exts_before, exts_after);
    assert_eq!(
        snap_before.get(Slot { etype: EventType::Create, key: 0 }),
        snap_after.get(Slot { etype: EventType::Create, key: 0 })
    );
    assert_eq!(snap_after.get(Slot { etype: EventType::Create, key: 0 }), Some(aid));
    assert_eq!(eng.resolutions(), res_before);
}

#[test]
fn missing_parent_suspends_until_it_arrives() {
    let mut eng = Engine::new();
    let a = create_event(1, 10);
    let aid = a.event_id;
    let b = member_event(1, 20, 20, Membership::Join, vec![aid], vec![aid], 1, 2);
    let bid = b.event_id;
    let c = message_event(1, 20, 77, vec![bid], 2, 3);
    let cid = c.event_id;
    assert_eq!(eng.ingest(a), Outcome::Accepted);
    // C arrives before its parent B: suspended, not rejected.
    assert_eq!(eng.ingest(c), Outcome::Suspended(bid));
    assert!(eng.get_event(cid).is_none());
    // When B arrives, C completes without re-submission.
    assert_eq!(eng.ingest(b), Outcome::Accepted);
    assert!(eng.get_event(bid).is_some());
    assert!(eng.get_event(cid).is_some());
}

#[test]
fn retry_budget_expires_suspended_events() {
    let mut eng = Engine::new();
    let a = create_event(1, 10);
    let aid = a.event_id;
    let b = member_event(1, 20, 20, Membership::Join, vec![aid], vec![aid], 1, 2);
    let bid = b.event_id;
    let c = message_event(1, 20, 77, vec![bid], 2, 3);
    let cid = c.event_id;
    assert_eq!(eng.ingest(a), Outcome::Accepted);
    assert_eq!(eng.ingest(c), Outcome::Suspended(bid));
    let mut expired: Vec<u64> = vec![];
    for _ in 0..roomgraph::engine::RETRY_BUDGET + 1 {
        expired = eng.tick_pending();
        if !expired.is_empty() {
            break;
        }
    }
    assert_eq!(expired, vec![cid]);
    // The expired event is gone for good: its parent arriving no longer
    // completes it.
    assert_eq!(eng.ingest(b), Outcome::Accepted);
    assert!(eng.get_event(cid).is_none());
}

#[test]
fn unauthorized_event_is_rejected_and_never_in_state() {
    let mut eng = Engine::new();
    let a = create_event(1, 10);
    let aid = a.event_id;
    assert_eq!(eng.ingest(a), Outcome::Accepted);
    // User 30 never joined, so their message is rejected outright.
    let m = message_event(1, 30, 5, vec![aid], 1, 4);
    let mid = m.event_id;
    assert_eq!(eng.ingest(m), Outcome::Rejected(EngineError::Unauthorized));
    assert!(eng.get_event(mid).is_none());
    let snap = eng.get_resolved_state(1).unwrap();
    assert_eq!(snap.get(Slot { etype: EventType::Create, key: 0 }), Some(aid));
    // A second create for an existing room is not the sole root.
    let a2 = finish(Event {
        event_id: 0,
        room_id: 1,
        sender: 11,
        event_type: EventType::Create,
        state_key: Some(0),
        content: Content::Create { creator: 11 },
        prev_events: vec![],
        auth_events: vec![],
        depth: 0,
        origin_server_ts: 9,
    });
    // The room already exists, so a second root is not the sole root.
    let a2id = a2.event_id;
    assert_eq!(eng.ingest(a2), Outcome::Rejected(EngineError::Unauthorized));
    assert!(eng.get_event(a2id).is_none());
}

#[test]
fn extremities_are_exactly_childless_events() {
    let mut eng = Engine::new();
    let a = create_event(1, 10);
    let aid = a.event_id;
    let b = member_event(1, 20, 20, Membership::Join, vec![aid], vec![aid], 1, 2);
    let bid = b.event_id;
    assert_eq!(eng.ingest(a), Outcome::Accepted);
    assert_eq!(eng.ingest(b), Outcome::Accepted);
    let c = message_event(1, 20, 1, vec![bid], 2, 5);
    let d = message_event(1, 20, 2, vec![bid], 2, 6);
    let cid = c.event_id;
    let did = d.event_id;
    assert_eq!(eng.ingest(c), Outcome::Accepted);
    assert_eq!(eng.ingest(d), Outcome::Accepted);
    let mut exts = eng.get_forward_extremities(1);
    exts.sort();
    let mut want = vec![cid, did];
    want.sort();
    assert_eq!(exts, want);
    let mut kids = eng.children_of(bid);
    kids.sort();
    assert_eq!(kids, want);
    // The other room is untouched.
    assert!(eng.get_forward_extremities(2).is_empty());
}

#[test]
fn delivery_order_does_not_change_resolved_state() {
    // A (create and the creator's join), B (join by 20), C (power
    // levels), D and E (conflicting invites of user 30, both children of
    // C), delivered as [...,D,E] and as [...,E,D].
    let a = create_event(1, 10);
    let aid = a.event_id;
    let j10 = member_event(1, 10, 10, Membership::Join, vec![aid], vec![aid], 1, 2);
    let jid = j10.event_id;
    let b = member_event(1, 20, 20, Membership::Join, vec![jid], vec![aid], 2, 3);
    let bid = b.event_id;
    let c = power_event(
        1,
        10,
        vec![UserLevel { user: 10, level: 100 }, UserLevel { user: 20, level: 50 }],
        vec![bid],
        vec![aid],
        3,
        4,
    );
    let cid = c.event_id;
    let d = member_event(1, 10, 30, Membership::Invite, vec![cid], vec![aid, cid], 4, 5);
    let e = member_event(1, 20, 30, Membership::Invite, vec![cid], vec![aid, cid], 4, 6);
    let did = d.event_id;
    let eid = e.event_id;
    assert_ne!(did, eid);

    let mut eng1 = Engine::new();
    for ev in [a.clone(), j10.clone(), b.clone(), c.clone(), d.clone(), e.clone()] {
        assert_eq!(eng1.ingest(ev), Outcome::Accepted);
    }
    let mut eng2 = Engine::new();
    for ev in [a, j10, b, c, e, d] {
        assert_eq!(eng2.ingest(ev), Outcome::Accepted);
    }
    let s1 = eng1.get_resolved_state(1).unwrap();
    let s2 = eng2.get_resolved_state(1).unwrap();
    let w1 = s1.get(member_slot(30)).expect("slot resolved");
    let w2 = s2.get(member_slot(30)).expect("slot resolved");
    assert_eq!(w1, w2);
    assert!(w1 == did || w1 == eid);
    for slot in [
        Slot { etype: EventType::Create, key: 0 },
        Slot { etype: EventType::PowerLevels, key: 0 },
        member_slot(10),
        member_slot(20),
        member_slot(30),
    ] {
        assert_eq!(s1.get(slot), s2.get(slot));
    }
    let mut x1 = eng1.get_forward_extremities(1);
    let mut x2 = eng2.get_forward_extremities(1);
    x1.sort();
    x2.sort();
    assert_eq!(x1, x2);
}

#[test]
fn cache_answers_second_query_without_recomputation() {
    let mut eng = Engine::new();
    let a = create_event(1, 10);
    let aid = a.event_id;
    assert_eq!(eng.ingest(a), Outcome::Accepted);
    let j = member_event(1, 10, 10, Membership::Join, vec![aid], vec![aid], 1, 2);
    let jid = j.event_id;
    assert_eq!(eng.ingest(j), Outcome::Accepted);
    let m1 = message_event(1, 10, 1, vec![jid], 2, 3);
    let m2 = message_event(1, 10, 2, vec![jid], 2, 4);
    assert_eq!(eng.ingest(m1), Outcome::Accepted);
    assert_eq!(eng.ingest(m2), Outcome::Accepted);
    // Frontier now has two extremities; its resolution is not cached yet.
    let before = eng.resolutions();
    let s1 = eng.get_resolved_state(1).unwrap();
    let after_first = eng.resolutions();
    assert_eq!(after_first, before + 1);
    let s2 = eng.get_resolved_state(1).unwrap();
    let after_second = eng.resolutions();
    // Exactly one resolution computation for the two queries.
    assert_eq!(after_second, after_first);
    assert_eq!(
        s1.get(Slot { etype: EventType::Create, key: 0 }),
        s2.get(Slot { etype: EventType::Create, key: 0 })
    );
}

#[test]
fn kick_requires_more_power_than_target() {
    let mut eng = Engine::new();
    let a = create_event(1, 10);
    let aid = a.event_id;
    let j10 = member_event(1, 10, 10, Membership::Join, vec![aid], vec![aid], 1, 2);
    let jid = j10.event_id;
    let b = member_event(1, 20, 20, Membership::Join, vec![jid], vec![aid], 2, 3);
    let bid = b.event_id;
    let c = member_event(1, 30, 30, Membership::Join, vec![bid], vec![aid], 3, 4);
    let cid = c.event_id;
    assert_eq!(eng.ingest(a), Outcome::Accepted);
    assert_eq!(eng.ingest(j10), Outcome::Accepted);
    assert_eq!(eng.ingest(b), Outcome::Accepted);
    assert_eq!(eng.ingest(c), Outcome::Accepted);
    // User 20 (level 0) cannot kick user 30.
    let kick = member_event(1, 20, 30, Membership::Leave, vec![cid], vec![aid], 4, 5);
    assert_eq!(eng.ingest(kick), Outcome::Rejected(EngineError::Unauthorized));
    // The creator (level 100) can.
    let kick2 = member_event(1, 10, 30, Membership::Leave, vec![cid], vec![aid], 4, 6);
    let kid = kick2.event_id;
    assert_eq!(eng.ingest(kick2), Outcome::Accepted);
    let snap = eng.get_resolved_state(1).unwrap();
    assert_eq!(snap.get(member_slot(30)), Some(kid));
}

#[test]
fn missing_cited_authorization_also_suspends() {
    let mut eng = Engine::new();
    let a = create_event(1, 10);
    let aid = a.event_id;
    let j10 = member_event(1, 10, 10, Membership::Join, vec![aid], vec![aid], 1, 2);
    let jid = j10.event_id;
    assert_eq!(eng.ingest(a), Outcome::Accepted);
    // The join cites the create event; an event citing an unknown
    // authorization waits for it like a missing parent.
    let absent_auth = 0xdead_beefu64;
    let m = member_event(1, 20, 20, Membership::Join, vec![jid], vec![absent_auth], 2, 3);
    let mid = m.event_id;
    assert_eq!(eng.ingest(j10), Outcome::Accepted);
    assert_eq!(eng.ingest(m), Outcome::Suspended(absent_auth));
    assert!(eng.get_event(mid).is_none());
}
