//! Events (PDUs): the immutable, hash-identified units of room history,
//! their canonical encoding, the content hash that names them, and the
//! structural checks an event must pass before the store accepts it.

use vstd::prelude::*;

verus! {

/// Identifier of an event: the content hash of its canonical encoding.
pub type EventId = u64;

/// Identifier of a user.
pub type UserId = u64;

/// Identifier of a room.
pub type RoomId = u64;

/// Errors of the engine, from structural rejection through resolution
/// suspension.
#[derive(Clone, Copy, PartialEq, Eq, Structural, Debug)]
pub enum EngineError {
    /// Canonical encoding or shape of the event is wrong. Permanent.
    Malformed,
    /// The declared event id does not match the recomputed content hash.
    /// Permanent.
    IntegrityViolation,
    /// A parent named in `prev_events` or `auth_events` is not stored yet.
    /// Transient: the caller fetches the parent and retries.
    MissingParent(EventId),
    /// The event fails authorization against its resolved pre-state.
    /// Permanent.
    Unauthorized,
    /// The retry budget for a suspended event ran out. Permanent.
    Unresolvable,
    /// State resolution needs an event that is not locally stored; the
    /// computation is deferred rather than guessed.
    IncompleteGraph(EventId),
}

/// The event types the engine distinguishes. `Create`, `Member` and
/// `PowerLevels` are state events; `Message` and `Redaction` are not.
#[derive(Clone, Copy, PartialEq, Eq, Structural, Debug)]
pub enum EventType {
    Create,
    Member,
    PowerLevels,
    Message,
    Redaction,
}

/// Membership of a user in a room, as recorded by a `Member` state event.
#[derive(Clone, Copy, PartialEq, Eq, Structural, Debug)]
pub enum Membership {
    Join,
    Invite,
    Leave,
    Ban,
}

/// One user's entry in a power-levels event.
#[derive(Clone, Copy, PartialEq, Eq, Structural, Debug)]
pub struct UserLevel {
    pub user: UserId,
    pub level: u64,
}

/// Content of a `PowerLevels` state event: per-user levels plus the
/// defaults and thresholds the authorization rules read.
#[derive(Clone, Debug)]
pub struct PowerLevels {
    /// Per-user levels, strictly increasing by user id (canonical form).
    pub users: Vec<UserLevel>,
    /// Level of a user with no entry in `users`.
    pub users_default: u64,
    /// Minimum level to send `Message` and `Redaction` events.
    pub events_default: u64,
    /// Minimum level to send a state event.
    pub state_default: u64,
    /// Minimum level to ban a user.
    pub ban: u64,
    /// Minimum level to kick a user.
    pub kick: u64,
    /// Minimum level to invite a user.
    pub invite: u64,
}

/// Structured payload of an event; the variant must match the event type.
#[derive(Clone, Debug)]
pub enum Content {
    Create { creator: UserId },
    Member { membership: Membership },
    Power(PowerLevels),
    Text { body: u64 },
    Redact { redacts: EventId },
}

/// A persistent event (PDU). Immutable once accepted by the store; the
/// `event_id` is the content hash of the canonical encoding of all other
/// fields.
#[derive(Clone, Debug)]
pub struct Event {
    pub event_id: EventId,
    pub room_id: RoomId,
    pub sender: UserId,
    pub event_type: EventType,
    /// Present exactly for state events; the `(event_type, state_key)`
    /// pair is the slot the event occupies in a state snapshot.
    pub state_key: Option<u64>,
    pub content: Content,
    /// Parent event ids (child points to parents); the DAG edges.
    pub prev_events: Vec<EventId>,
    /// The state events this event cites as authorizing it.
    pub auth_events: Vec<EventId>,
    /// One greater than the maximum depth of the parents; a tie-break
    /// hint only, never a substitute for the causal order of the edges.
    pub depth: u64,
    pub origin_server_ts: u64,
}

// ---------------------------------------------------------------------
// Canonical encoding and content hash
// ---------------------------------------------------------------------

/// One step of the content hash: a 64-bit wrapping polynomial fold.
pub open spec fn mix(h: u64, v: u64) -> u64 {
    h.wrapping_mul(31).wrapping_add(v)
}

/// Hash of a canonical word sequence.
pub open spec fn hash_seq(s: Seq<u64>) -> u64
    decreases s.len(),
{
    if s.len() == 0 {
        17u64
    } else {
        mix(hash_seq(s.drop_last()), s.last())
    }
}

pub proof fn lemma_hash_push(s: Seq<u64>, v: u64)
    ensures
        hash_seq(s.push(v)) == mix(hash_seq(s), v),
{
    assert(s.push(v).drop_last() =~= s);
    assert(s.push(v).last() == v);
}

pub open spec fn spec_type_code(t: EventType) -> u64 {
    match t {
        EventType::Create => 1u64,
        EventType::Member => 2u64,
        EventType::PowerLevels => 3u64,
        EventType::Message => 4u64,
        EventType::Redaction => 5u64,
    }
}

pub open spec fn spec_membership_code(m: Membership) -> u64 {
    match m {
        Membership::Join => 1u64,
        Membership::Invite => 2u64,
        Membership::Leave => 3u64,
        Membership::Ban => 4u64,
    }
}

pub open spec fn spec_state_key_words(sk: Option<u64>) -> Seq<u64> {
    match sk {
        None => seq![0u64, 0u64],
        Some(k) => seq![1u64, k],
    }
}

/// An id list is encoded length-prefixed, so that adjacent lists cannot
/// alias each other in the flat word stream.
pub open spec fn spec_id_words(ids: Seq<u64>) -> Seq<u64> {
    seq![ids.len() as u64] + ids
}

pub open spec fn spec_user_words(us: Seq<UserLevel>) -> Seq<u64>
    decreases us.len(),
{
    if us.len() == 0 {
        Seq::empty()
    } else {
        spec_user_words(us.drop_last()) + seq![us.last().user, us.last().level]
    }
}

pub open spec fn spec_content_words(c: Content) -> Seq<u64> {
    match c {
        Content::Create { creator } => seq![1u64, creator],
        Content::Member { membership } => seq![2u64, spec_membership_code(membership)],
        Content::Power(p) => seq![
            3u64,
            p.users_default,
            p.events_default,
            p.state_default,
            p.ban,
            p.kick,
            p.invite,
            p.users@.len() as u64,
        ] + spec_user_words(p.users@),
        Content::Text { body } => seq![4u64, body],
        Content::Redact { redacts } => seq![5u64, redacts],
    }
}

/// Canonical encoding of an event as a flat word sequence; every field
/// except the event id itself contributes.
pub open spec fn spec_words(e: Event) -> Seq<u64> {
    seq![e.room_id, e.sender, spec_type_code(e.event_type)] + spec_state_key_words(e.state_key)
        + seq![e.depth, e.origin_server_ts] + spec_content_words(e.content)
        + spec_id_words(e.prev_events@) + spec_id_words(e.auth_events@)
}

/// The content hash an event's id must equal.
pub open spec fn spec_event_id(e: Event) -> u64 {
    hash_seq(spec_words(e))
}

fn type_code(t: EventType) -> (n: u64)
    ensures
        n == spec_type_code(t),
{
    match t {
        EventType::Create => 1u64,
        EventType::Member => 2u64,
        EventType::PowerLevels => 3u64,
        EventType::Message => 4u64,
        EventType::Redaction => 5u64,
    }
}

fn membership_code(m: Membership) -> (n: u64)
    ensures
        n == spec_membership_code(m),
{
    match m {
        Membership::Join => 1u64,
        Membership::Invite => 2u64,
        Membership::Leave => 3u64,
        Membership::Ban => 4u64,
    }
}

fn push_id_words(out: &mut Vec<u64>, ids: &Vec<EventId>)
    ensures
        final(out)@ == old(out)@ + spec_id_words(ids@),
{
    out.push(ids.len() as u64);
    let ghost base = out@;
    let mut i: usize = 0;
    while i < ids.len()
        invariant
            i <= ids.len(),
            out@ == base + ids@.take(i as int),
        decreases ids.len() - i,
    {
        out.push(ids[i]);
        proof {
            assert(ids@.take(i + 1 as int) =~= ids@.take(i as int).push(ids@[i as int]));
        }
        i = i + 1;
    }
    proof {
        assert(ids@.take(ids@.len() as int) =~= ids@);
        assert(out@ =~= old(out)@ + spec_id_words(ids@));
    }
}

fn push_user_words(out: &mut Vec<u64>, us: &Vec<UserLevel>)
    ensures
        final(out)@ == old(out)@ + spec_user_words(us@),
{
    let mut i: usize = 0;
    while i < us.len()
        invariant
            i <= us.len(),
            out@ == old(out)@ + spec_user_words(us@.take(i as int)),
        decreases us.len() - i,
    {
        out.push(us[i].user);
        out.push(us[i].level);
        proof {
            assert(us@.take(i + 1 as int).drop_last() =~= us@.take(i as int));
            assert(us@.take(i + 1 as int).last() == us@[i as int]);
        }
        i = i + 1;
    }
    proof {
        assert(us@.take(us@.len() as int) =~= us@);
    }
}

fn push_content_words(out: &mut Vec<u64>, c: &Content)
    ensures
        final(out)@ == old(out)@ + spec_content_words(*c),
{
    match c {
        Content::Create { creator } => {
            out.push(1u64);
            out.push(*creator);
            proof {
                assert(out@ =~= old(out)@ + spec_content_words(*c));
            }
        },
        Content::Member { membership } => {
            out.push(2u64);
            let mc = membership_code(*membership);
            out.push(mc);
            proof {
                assert(out@ =~= old(out)@ + spec_content_words(*c));
            }
        },
        Content::Power(p) => {
            out.push(3u64);
            out.push(p.users_default);
            out.push(p.events_default);
            out.push(p.state_default);
            out.push(p.ban);
            out.push(p.kick);
            out.push(p.invite);
            out.push(p.users.len() as u64);
            push_user_words(out, &p.users);
            proof {
                assert(out@ =~= old(out)@ + spec_content_words(*c));
            }
        },
        Content::Text { body } => {
            out.push(4u64);
            out.push(*body);
            proof {
                assert(out@ =~= old(out)@ + spec_content_words(*c));
            }
        },
        Content::Redact { redacts } => {
            out.push(5u64);
            out.push(*redacts);
            proof {
                assert(out@ =~= old(out)@ + spec_content_words(*c));
            }
        },
    }
}

/// Canonical encoding of an event, as the flat word sequence the content
/// hash is computed over.
pub fn canonical_words(e: &Event) -> (ws: Vec<u64>)
    ensures
        ws@ == spec_words(*e),
{
    let mut ws: Vec<u64> = Vec::new();
    ws.push(e.room_id);
    ws.push(e.sender);
    let tc = type_code(e.event_type);
    ws.push(tc);
    match e.state_key {
        None => {
            ws.push(0u64);
            ws.push(0u64);
        },
        Some(k) => {
            ws.push(1u64);
            ws.push(k);
        },
    }
    ws.push(e.depth);
    ws.push(e.origin_server_ts);
    push_content_words(&mut ws, &e.content);
    push_id_words(&mut ws, &e.prev_events);
    push_id_words(&mut ws, &e.auth_events);
    proof {
        assert(ws@ =~= spec_words(*e));
    }
    ws
}

fn hash_words(ws: &Vec<u64>) -> (h: u64)
    ensures
        h == hash_seq(ws@),
{
    let mut h: u64 = 17;
    let mut i: usize = 0;
    while i < ws.len()
        invariant
            i <= ws.len(),
            h == hash_seq(ws@.take(i as int)),
        decreases ws.len() - i,
    {
        proof {
            lemma_hash_push(ws@.take(i as int), ws@[i as int]);
            assert(ws@.take(i + 1 as int) =~= ws@.take(i as int).push(ws@[i as int]));
        }
        h = h.wrapping_mul(31).wrapping_add(ws[i]);
        i = i + 1;
    }
    proof {
        assert(ws@.take(ws@.len() as int) =~= ws@);
    }
    h
}

/// Recomputes the content hash that the event's id must equal.
pub fn compute_event_id(e: &Event) -> (h: u64)
    ensures
        h == spec_event_id(*e),
{
    let ws = canonical_words(e);
    hash_words(&ws)
}

// ---------------------------------------------------------------------
// Structural validation
// ---------------------------------------------------------------------

/// The event types that occupy a state slot.
pub open spec fn spec_is_state_type(t: EventType) -> bool {
    t == EventType::Create || t == EventType::Member || t == EventType::PowerLevels
}

/// Per-user power entries must be strictly increasing by user id, so the
/// canonical encoding of a power-levels event is unique and lookups are
/// unambiguous.
pub open spec fn spec_users_sorted(us: Seq<UserLevel>) -> bool {
    forall|i: int, j: int| 0 <= i < j < us.len() ==> us[i].user < us[j].user
}

/// The content variant must match the event type.
pub open spec fn spec_content_matches(e: Event) -> bool {
    match e.content {
        Content::Create { .. } => e.event_type == EventType::Create,
        Content::Member { .. } => e.event_type == EventType::Member,
        Content::Power(p) => e.event_type == EventType::PowerLevels && spec_users_sorted(p.users@),
        Content::Text { .. } => e.event_type == EventType::Message,
        Content::Redact { .. } => e.event_type == EventType::Redaction,
    }
}

/// State events carry a state key (`Create` and `PowerLevels` the fixed
/// key 0, `Member` the target user id); other events carry none.
pub open spec fn spec_state_key_ok(e: Event) -> bool {
    match e.event_type {
        EventType::Create => e.state_key == Some(0u64),
        EventType::PowerLevels => e.state_key == Some(0u64),
        EventType::Member => e.state_key.is_some(),
        EventType::Message => e.state_key.is_none(),
        EventType::Redaction => e.state_key.is_none(),
    }
}

/// A create event is a root (no parents); every other event has at least
/// one parent, and parent lists carry no duplicates.
pub open spec fn spec_prev_ok(e: Event) -> bool {
    &&& if e.event_type == EventType::Create {
        e.prev_events@.len() == 0
    } else {
        e.prev_events@.len() > 0
    }
    &&& e.prev_events@.no_duplicates()
}

/// Shape of an event, independent of the hash check.
pub open spec fn spec_structural(e: Event) -> bool {
    spec_content_matches(e) && spec_state_key_ok(e) && spec_prev_ok(e)
}

/// A fully valid event: well shaped, and its declared id equals the
/// recomputed content hash.
pub open spec fn spec_valid(e: Event) -> bool {
    spec_structural(e) && e.event_id == spec_event_id(e)
}

/// The outcome structural validation must produce for an event: shape
/// errors are `Malformed`, a wrong declared id is `IntegrityViolation`.
pub open spec fn spec_validate(e: Event) -> Result<(), EngineError> {
    if !spec_structural(e) {
        Err(EngineError::Malformed)
    } else if e.event_id != spec_event_id(e) {
        Err(EngineError::IntegrityViolation)
    } else {
        Ok(())
    }
}

fn ids_distinct(ids: &Vec<EventId>) -> (r: bool)
    ensures
        r == ids@.no_duplicates(),
{
    let mut i: usize = 0;
    while i < ids.len()
        invariant
            i <= ids.len(),
            forall|p: int, q: int| 0 <= p < q < i ==> ids@[p] != ids@[q],
        decreases ids.len() - i,
    {
        let mut j: usize = 0;
        while j < i
            invariant
                j <= i < ids@.len(),
                forall|p: int, q: int| 0 <= p < q < i ==> ids@[p] != ids@[q],
                forall|p: int| 0 <= p < j ==> ids@[p] != ids@[i as int],
            decreases i - j,
        {
            if ids[j] == ids[i] {
                return false;
            }
            j = j + 1;
        }
        i = i + 1;
    }
    true
}

fn users_sorted(us: &Vec<UserLevel>) -> (r: bool)
    ensures
        r == spec_users_sorted(us@),
{
    if us.len() == 0 {
        return true;
    }
    let mut i: usize = 1;
    while i < us.len()
        invariant
            1 <= i <= us.len(),
            forall|p: int, q: int| 0 <= p < q < i ==> us@[p].user < us@[q].user,
        decreases us.len() - i,
    {
        if us[i - 1].user >= us[i].user {
            return false;
        }
        i = i + 1;
    }
    true
}

/// Structural and integrity validation of a single event, before any
/// store or graph interaction.
pub fn validate(e: &Event) -> (r: Result<(), EngineError>)
    ensures
        r == spec_validate(*e),
{
    let shape_ok: bool = match &e.content {
        Content::Create { .. } => matches!(e.event_type, EventType::Create),
        Content::Member { .. } => matches!(e.event_type, EventType::Member),
        Content::Power(p) => matches!(e.event_type, EventType::PowerLevels) && users_sorted(
            &p.users,
        ),
        Content::Text { .. } => matches!(e.event_type, EventType::Message),
        Content::Redact { .. } => matches!(e.event_type, EventType::Redaction),
    };
    let key_ok: bool = match e.event_type {
        EventType::Create => matches!(e.state_key, Some(0u64)),
        EventType::PowerLevels => matches!(e.state_key, Some(0u64)),
        EventType::Member => e.state_key.is_some(),
        EventType::Message => e.state_key.is_none(),
        EventType::Redaction => e.state_key.is_none(),
    };
    let prev_ok: bool = if matches!(e.event_type, EventType::Create) {
        e.prev_events.len() == 0
    } else {
        e.prev_events.len() > 0
    } && ids_distinct(&e.prev_events);
    if !(shape_ok && key_ok && prev_ok) {
        return Err(EngineError::Malformed);
    }
    let h = compute_event_id(e);
    if e.event_id != h {
        return Err(EngineError::IntegrityViolation);
    }
    Ok(())
}

/// The slot a state event occupies, or `None` for a non-state event.
pub open spec fn spec_slot_of(e: Event) -> Option<Slot> {
    match e.state_key {
        Some(k) => Some(Slot { etype: e.event_type, key: k }),
        None => None,
    }
}

/// A `(event_type, state_key)` slot of a state snapshot.
#[derive(Clone, Copy, PartialEq, Eq, Structural, Debug)]
pub struct Slot {
    pub etype: EventType,
    pub key: u64,
}

/// The slot of a state event; call only on events with a state key.
pub fn slot_of(e: &Event) -> (s: Option<Slot>)
    ensures
        s == spec_slot_of(*e),
{
    match e.state_key {
        Some(k) => Some(Slot { etype: e.event_type, key: k }),
        None => None,
    }
}

} // verus!
