//! The authorization checker: a pure, side-effect-free judgment of
//! whether a candidate event is permitted by a given state snapshot.
//! Given the same `(event, snapshot, store)` the result is always the
//! same: the rules read nothing but their arguments.

use vstd::prelude::*;

use crate::event::{Content, Event, EventType, Membership, Slot, UserId, UserLevel};
use crate::snapshot::StateSnapshot;
use crate::store::EventStore;

verus! {

/// Level granted to the room creator while no power-levels event exists.
pub const CREATOR_LEVEL: u64 = 100;

/// Level of any other user while no power-levels event exists.
pub const FALLBACK_USER_LEVEL: u64 = 0;

/// Send threshold while no power-levels event exists.
pub const FALLBACK_EVENTS_LEVEL: u64 = 0;

/// State threshold while no power-levels event exists.
pub const FALLBACK_STATE_LEVEL: u64 = 50;

/// Ban threshold while no power-levels event exists.
pub const FALLBACK_BAN_LEVEL: u64 = 50;

/// Kick threshold while no power-levels event exists.
pub const FALLBACK_KICK_LEVEL: u64 = 50;

/// Invite threshold while no power-levels event exists.
pub const FALLBACK_INVITE_LEVEL: u64 = 50;

/// Why an event was authorized or rejected; `Authorized` is acceptance,
/// every other variant the diagnostic reason for a rejection.
#[derive(Clone, Copy, PartialEq, Eq, Structural, Debug)]
pub enum AuthReason {
    Authorized,
    /// A create event that is not the room's sole root.
    NotSoleRoot,
    /// A non-create event in a room with no create event in its state.
    NoCreate,
    /// The sender holds no joined membership in the snapshot.
    SenderNotJoined,
    /// The acted-on user is banned.
    TargetBanned,
    /// Inviting a user who is already joined.
    AlreadyJoined,
    /// A membership change nobody may make (for example joining another
    /// user, or inviting oneself).
    ForcedMembership,
    /// The sender's power level is below the required threshold.
    InsufficientPower,
}

pub open spec fn spec_create_slot() -> Slot {
    Slot { etype: EventType::Create, key: 0u64 }
}

pub open spec fn spec_power_slot() -> Slot {
    Slot { etype: EventType::PowerLevels, key: 0u64 }
}

pub open spec fn spec_member_slot(u: UserId) -> Slot {
    Slot { etype: EventType::Member, key: u }
}

/// The per-user level recorded in a power-levels entry list, or the
/// default when the user has no entry.
pub open spec fn spec_user_level(us: Seq<UserLevel>, u: UserId, dflt: u64) -> u64
    decreases us.len(),
{
    if us.len() == 0 {
        dflt
    } else if us.last().user == u {
        us.last().level
    } else {
        spec_user_level(us.drop_last(), u, dflt)
    }
}

/// The power-levels content governing a snapshot, if its slot is filled
/// with a stored power-levels event.
pub open spec fn spec_power_content(
    snap: Map<Slot, u64>,
    store: Map<u64, Event>,
) -> Option<crate::event::PowerLevels> {
    if snap.dom().contains(spec_power_slot()) && store.dom().contains(snap[spec_power_slot()]) {
        match store[snap[spec_power_slot()]].content {
            Content::Power(p) => Some(p),
            _ => None,
        }
    } else {
        None
    }
}

/// The room's creator, read from the create slot.
pub open spec fn spec_creator(snap: Map<Slot, u64>, store: Map<u64, Event>) -> Option<UserId> {
    if snap.dom().contains(spec_create_slot()) && store.dom().contains(snap[spec_create_slot()]) {
        match store[snap[spec_create_slot()]].content {
            Content::Create { creator } => Some(creator),
            _ => None,
        }
    } else {
        None
    }
}

/// A user's power level under a snapshot: the power-levels event decides;
/// absent one, the creator holds `CREATOR_LEVEL` and others
/// `FALLBACK_USER_LEVEL`.
pub open spec fn spec_power_of(snap: Map<Slot, u64>, store: Map<u64, Event>, u: UserId) -> u64 {
    match spec_power_content(snap, store) {
        Some(p) => spec_user_level(p.users@, u, p.users_default),
        None => if spec_creator(snap, store) == Some(u) {
            CREATOR_LEVEL
        } else {
            FALLBACK_USER_LEVEL
        },
    }
}

pub open spec fn spec_events_level(snap: Map<Slot, u64>, store: Map<u64, Event>) -> u64 {
    match spec_power_content(snap, store) {
        Some(p) => p.events_default,
        None => FALLBACK_EVENTS_LEVEL,
    }
}

pub open spec fn spec_state_level(snap: Map<Slot, u64>, store: Map<u64, Event>) -> u64 {
    match spec_power_content(snap, store) {
        Some(p) => p.state_default,
        None => FALLBACK_STATE_LEVEL,
    }
}

pub open spec fn spec_ban_level(snap: Map<Slot, u64>, store: Map<u64, Event>) -> u64 {
    match spec_power_content(snap, store) {
        Some(p) => p.ban,
        None => FALLBACK_BAN_LEVEL,
    }
}

pub open spec fn spec_kick_level(snap: Map<Slot, u64>, store: Map<u64, Event>) -> u64 {
    match spec_power_content(snap, store) {
        Some(p) => p.kick,
        None => FALLBACK_KICK_LEVEL,
    }
}

pub open spec fn spec_invite_level(snap: Map<Slot, u64>, store: Map<u64, Event>) -> u64 {
    match spec_power_content(snap, store) {
        Some(p) => p.invite,
        None => FALLBACK_INVITE_LEVEL,
    }
}

/// A user's membership under a snapshot; no stored member event means
/// `Leave`.
pub open spec fn spec_membership(
    snap: Map<Slot, u64>,
    store: Map<u64, Event>,
    u: UserId,
) -> Membership {
    if snap.dom().contains(spec_member_slot(u)) && store.dom().contains(snap[spec_member_slot(u)]) {
        match store[snap[spec_member_slot(u)]].content {
            Content::Member { membership } => membership,
            _ => Membership::Leave,
        }
    } else {
        Membership::Leave
    }
}

/// Membership-change rules: joining and leaving are personal acts barred
/// only by a ban; invite, kick and ban act on another user and demand the
/// corresponding power threshold, kick and ban additionally strictly more
/// power than the target holds.
pub open spec fn spec_auth_member(
    e: Event,
    snap: Map<Slot, u64>,
    store: Map<u64, Event>,
) -> AuthReason {
    match (e.state_key, e.content) {
        (Some(t), Content::Member { membership }) => {
            let cur = spec_membership(snap, store, t);
            if e.sender == t {
                match membership {
                    Membership::Join => if cur == Membership::Ban {
                        AuthReason::TargetBanned
                    } else {
                        AuthReason::Authorized
                    },
                    Membership::Leave => if cur == Membership::Ban {
                        AuthReason::TargetBanned
                    } else {
                        AuthReason::Authorized
                    },
                    _ => AuthReason::ForcedMembership,
                }
            } else if spec_membership(snap, store, e.sender) != Membership::Join {
                AuthReason::SenderNotJoined
            } else {
                let sp = spec_power_of(snap, store, e.sender);
                let tp = spec_power_of(snap, store, t);
                match membership {
                    Membership::Join => AuthReason::ForcedMembership,
                    Membership::Invite => if cur == Membership::Ban {
                        AuthReason::TargetBanned
                    } else if cur == Membership::Join {
                        AuthReason::AlreadyJoined
                    } else if sp >= spec_invite_level(snap, store) {
                        AuthReason::Authorized
                    } else {
                        AuthReason::InsufficientPower
                    },
                    Membership::Leave => if sp >= spec_kick_level(snap, store) && sp > tp {
                        AuthReason::Authorized
                    } else {
                        AuthReason::InsufficientPower
                    },
                    Membership::Ban => if sp >= spec_ban_level(snap, store) && sp > tp {
                        AuthReason::Authorized
                    } else {
                        AuthReason::InsufficientPower
                    },
                }
            }
        },
        _ => AuthReason::ForcedMembership,
    }
}

/// The authorization judgment, rules in fixed order: a create event must
/// be the sole root; any other event needs a create event in the state;
/// membership events follow the membership rules; everything else needs a
/// joined sender with enough power for its kind.
pub open spec fn spec_auth(e: Event, snap: Map<Slot, u64>, store: Map<u64, Event>) -> AuthReason {
    if e.event_type == EventType::Create {
        if e.prev_events@.len() == 0 && snap == Map::<Slot, u64>::empty() {
            AuthReason::Authorized
        } else {
            AuthReason::NotSoleRoot
        }
    } else if !snap.dom().contains(spec_create_slot()) {
        AuthReason::NoCreate
    } else if e.event_type == EventType::Member {
        spec_auth_member(e, snap, store)
    } else if spec_membership(snap, store, e.sender) != Membership::Join {
        AuthReason::SenderNotJoined
    } else if e.event_type == EventType::PowerLevels {
        if spec_power_of(snap, store, e.sender) >= spec_state_level(snap, store) {
            AuthReason::Authorized
        } else {
            AuthReason::InsufficientPower
        }
    } else {
        if spec_power_of(snap, store, e.sender) >= spec_events_level(snap, store) {
            AuthReason::Authorized
        } else {
            AuthReason::InsufficientPower
        }
    }
}

pub open spec fn spec_authorized(e: Event, snap: Map<Slot, u64>, store: Map<u64, Event>) -> bool {
    spec_auth(e, snap, store) == AuthReason::Authorized
}

fn user_level(us: &Vec<UserLevel>, u: UserId, dflt: u64) -> (r: u64)
    ensures
        r == spec_user_level(us@, u, dflt),
{
    let mut i: usize = us.len();
    proof {
        assert(us@.take(us@.len() as int) =~= us@);
    }
    while i > 0
        invariant
            i <= us@.len(),
            spec_user_level(us@, u, dflt) == spec_user_level(us@.take(i as int), u, dflt),
        decreases i,
    {
        if us[i - 1].user == u {
            proof {
                assert(us@.take(i as int).last() == us@[i - 1]);
            }
            return us[i - 1].level;
        }
        proof {
            assert(us@.take(i as int).drop_last() =~= us@.take(i - 1));
        }
        i = i - 1;
    }
    proof {
        assert(us@.take(0) =~= Seq::<UserLevel>::empty());
    }
    dflt
}

fn creator_of(snap: &StateSnapshot, store: &EventStore) -> (r: Option<UserId>)
    requires
        snap.wf(),
        store.wf(),
    ensures
        r == spec_creator(snap@, store@),
{
    match snap.get(Slot { etype: EventType::Create, key: 0u64 }) {
        Some(id) => match store.get(id) {
            Some(e) => match &e.content {
                Content::Create { creator } => Some(*creator),
                _ => None,
            },
            None => None,
        },
        None => None,
    }
}

/// A user's power level under a snapshot.
pub fn power_of(snap: &StateSnapshot, store: &EventStore, u: UserId) -> (r: u64)
    requires
        snap.wf(),
        store.wf(),
    ensures
        r == spec_power_of(snap@, store@, u),
{
    match snap.get(Slot { etype: EventType::PowerLevels, key: 0u64 }) {
        Some(id) => match store.get(id) {
            Some(e) => match &e.content {
                Content::Power(p) => user_level(&p.users, u, p.users_default),
                _ => {
                    match creator_of(snap, store) {
                        Some(c) => if c == u {
                            CREATOR_LEVEL
                        } else {
                            FALLBACK_USER_LEVEL
                        },
                        None => FALLBACK_USER_LEVEL,
                    }
                },
            },
            None => {
                match creator_of(snap, store) {
                    Some(c) => if c == u {
                        CREATOR_LEVEL
                    } else {
                        FALLBACK_USER_LEVEL
                    },
                    None => FALLBACK_USER_LEVEL,
                }
            },
        },
        None => {
            match creator_of(snap, store) {
                Some(c) => if c == u {
                    CREATOR_LEVEL
                } else {
                    FALLBACK_USER_LEVEL
                },
                None => FALLBACK_USER_LEVEL,
            }
        },
    }
}

/// The five thresholds governing a snapshot, in the order events, state,
/// ban, kick, invite.
fn thresholds(snap: &StateSnapshot, store: &EventStore) -> (r: (u64, u64, u64, u64, u64))
    requires
        snap.wf(),
        store.wf(),
    ensures
        r.0 == spec_events_level(snap@, store@),
        r.1 == spec_state_level(snap@, store@),
        r.2 == spec_ban_level(snap@, store@),
        r.3 == spec_kick_level(snap@, store@),
        r.4 == spec_invite_level(snap@, store@),
{
    match snap.get(Slot { etype: EventType::PowerLevels, key: 0u64 }) {
        Some(id) => match store.get(id) {
            Some(e) => match &e.content {
                Content::Power(p) => (p.events_default, p.state_default, p.ban, p.kick, p.invite),
                _ => (
                    FALLBACK_EVENTS_LEVEL,
                    FALLBACK_STATE_LEVEL,
                    FALLBACK_BAN_LEVEL,
                    FALLBACK_KICK_LEVEL,
                    FALLBACK_INVITE_LEVEL,
                ),
            },
            None => (
                FALLBACK_EVENTS_LEVEL,
                FALLBACK_STATE_LEVEL,
                FALLBACK_BAN_LEVEL,
                FALLBACK_KICK_LEVEL,
                FALLBACK_INVITE_LEVEL,
            ),
        },
        None => (
            FALLBACK_EVENTS_LEVEL,
            FALLBACK_STATE_LEVEL,
            FALLBACK_BAN_LEVEL,
            FALLBACK_KICK_LEVEL,
            FALLBACK_INVITE_LEVEL,
        ),
    }
}

/// A user's membership under a snapshot.
pub fn membership_of(snap: &StateSnapshot, store: &EventStore, u: UserId) -> (r: Membership)
    requires
        snap.wf(),
        store.wf(),
    ensures
        r == spec_membership(snap@, store@, u),
{
    match snap.get(Slot { etype: EventType::Member, key: u }) {
        Some(id) => match store.get(id) {
            Some(e) => match &e.content {
                Content::Member { membership } => *membership,
                _ => Membership::Leave,
            },
            None => Membership::Leave,
        },
        None => Membership::Leave,
    }
}

fn authorize_member(e: &Event, snap: &StateSnapshot, store: &EventStore) -> (r: AuthReason)
    requires
        snap.wf(),
        store.wf(),
    ensures
        r == spec_auth_member(*e, snap@, store@),
{
    match (e.state_key, &e.content) {
        (Some(t), Content::Member { membership }) => {
            let cur = membership_of(snap, store, t);
            if e.sender == t {
                match membership {
                    Membership::Join => if cur == Membership::Ban {
                        AuthReason::TargetBanned
                    } else {
                        AuthReason::Authorized
                    },
                    Membership::Leave => if cur == Membership::Ban {
                        AuthReason::TargetBanned
                    } else {
                        AuthReason::Authorized
                    },
                    _ => AuthReason::ForcedMembership,
                }
            } else if membership_of(snap, store, e.sender) != Membership::Join {
                AuthReason::SenderNotJoined
            } else {
                let sp = power_of(snap, store, e.sender);
                let tp = power_of(snap, store, t);
                let (_ev, _st, ban, kick, invite) = thresholds(snap, store);
                match membership {
                    Membership::Join => AuthReason::ForcedMembership,
                    Membership::Invite => if cur == Membership::Ban {
                        AuthReason::TargetBanned
                    } else if cur == Membership::Join {
                        AuthReason::AlreadyJoined
                    } else if sp >= invite {
                        AuthReason::Authorized
                    } else {
                        AuthReason::InsufficientPower
                    },
                    Membership::Leave => if sp >= kick && sp > tp {
                        AuthReason::Authorized
                    } else {
                        AuthReason::InsufficientPower
                    },
                    Membership::Ban => if sp >= ban && sp > tp {
                        AuthReason::Authorized
                    } else {
                        AuthReason::InsufficientPower
                    },
                }
            }
        },
        _ => AuthReason::ForcedMembership,
    }
}

/// Evaluates the authorization rules for `e` against `snap`, returning
/// acceptance or the diagnostic rejection reason.
pub fn authorize(e: &Event, snap: &StateSnapshot, store: &EventStore) -> (r: AuthReason)
    requires
        snap.wf(),
        store.wf(),
    ensures
        r == spec_auth(*e, snap@, store@),
{
    if matches!(e.event_type, EventType::Create) {
        if e.prev_events.len() == 0 && snap.is_empty() {
            AuthReason::Authorized
        } else {
            AuthReason::NotSoleRoot
        }
    } else if snap.get(Slot { etype: EventType::Create, key: 0u64 }).is_none() {
        AuthReason::NoCreate
    } else if matches!(e.event_type, EventType::Member) {
        authorize_member(e, snap, store)
    } else if membership_of(snap, store, e.sender) != Membership::Join {
        AuthReason::SenderNotJoined
    } else if matches!(e.event_type, EventType::PowerLevels) {
        let (_ev, st, _ban, _kick, _inv) = thresholds(snap, store);
        if power_of(snap, store, e.sender) >= st {
            AuthReason::Authorized
        } else {
            AuthReason::InsufficientPower
        }
    } else {
        let (ev, _st, _ban, _kick, _inv) = thresholds(snap, store);
        if power_of(snap, store, e.sender) >= ev {
            AuthReason::Authorized
        } else {
            AuthReason::InsufficientPower
        }
    }
}

/// Whether `e` is permitted by `snap`: the boolean face of `authorize`.
pub fn is_authorized(e: &Event, snap: &StateSnapshot, store: &EventStore) -> (r: bool)
    requires
        snap.wf(),
        store.wf(),
    ensures
        r == spec_authorized(*e, snap@, store@),
{
    matches!(authorize(e, snap, store), AuthReason::Authorized)
}

} // verus!
