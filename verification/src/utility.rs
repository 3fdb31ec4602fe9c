//! Mission-side policy predicates: expansion reach from creep lifetimes,
//! the contested-claim abort rule and the remote-room safety gate.
use vstd::prelude::*;
use crate::roomdata::{RoomDynamicVisibilityData, sat_sub, spec_militarily_active};

verus! {

/// Normal creep lifetime (ticks).
pub const CREEP_LIFE_TIME: u32 = 1500;

/// CLAIM-creep lifetime (ticks).
pub const CREEP_CLAIM_LIFE_TIME: u32 = 600;

/// Minimum on-site working life for a remote builder to be worth spawning.
pub const MIN_USEFUL_BUILD_TICKS: u32 = 300;

/// Slack for a claimer to actually claim on arrival.
pub const CLAIM_ARRIVAL_MARGIN: u32 = 50;

/// Rough ticks per room-hop.
pub const TICKS_PER_HOP: u32 = 50;

/// On-site working life a normal-lifetime builder has after a trip of
/// `travel_ticks` (`None` = the target is unreachable).
pub fn build_effective_life(travel_ticks: Option<u32>) -> (r: Option<u32>)
    ensures
        r == match travel_ticks {
            Some(t) => Some(sat_sub(CREEP_LIFE_TIME, t) as u32),
            None => None,
        },
{
    match travel_ticks {
        Some(travel) => Some(CREEP_LIFE_TIME.saturating_sub(travel)),
        None => None,
    }
}

/// A remote builder can do meaningful work after a trip of `travel_ticks`.
pub fn is_build_feasible(travel_ticks: Option<u32>) -> (r: bool)
    ensures
        r == match travel_ticks {
            Some(t) => sat_sub(CREEP_LIFE_TIME, t) >= MIN_USEFUL_BUILD_TICKS,
            None => false,
        },
{
    match build_effective_life(travel_ticks) {
        Some(life) => life >= MIN_USEFUL_BUILD_TICKS,
        None => false,
    }
}

/// A CLAIM creep arrives alive with the claim margin to spare after a trip
/// of `travel_ticks`.
pub fn is_claim_feasible(travel_ticks: Option<u32>) -> (r: bool)
    ensures
        r == match travel_ticks {
            Some(t) => t + CLAIM_ARRIVAL_MARGIN <= CREEP_CLAIM_LIFE_TIME,
            None => false,
        },
{
    match travel_ticks {
        Some(travel) => travel.saturating_add(CLAIM_ARRIVAL_MARGIN) <= CREEP_CLAIM_LIFE_TIME,
        None => false,
    }
}

/// Widest claim search radius (room-hops) worth exploring.
pub fn max_claim_radius_hops() -> (r: u32)
    ensures
        r == (CREEP_CLAIM_LIFE_TIME - CLAIM_ARRIVAL_MARGIN) / TICKS_PER_HOP as int,
        r == 11,
{
    CREEP_CLAIM_LIFE_TIME.saturating_sub(CLAIM_ARRIVAL_MARGIN) / TICKS_PER_HOP
}

/// A claim is feasible at hop-count travel exactly within the claim radius.
pub proof fn lemma_claim_feasible_iff_within_radius(hops: u32)
    requires
        hops <= 11,
    ensures
        hops * TICKS_PER_HOP + CLAIM_ARRIVAL_MARGIN <= CREEP_CLAIM_LIFE_TIME,
{
}

/// Whether to abandon a nascent colony losing a contested claim: only a
/// spawnless room that is not our only colony, when its controller is being
/// attacked or a hostile has held past the anti-flap window.
pub fn should_abandon_claim(
    spawnless: bool,
    is_only_colony: bool,
    contested_persist_ticks: u32,
    upgrade_blocked: bool,
    abort_persistence_ticks: u32,
) -> (r: bool)
    ensures
        r == (spawnless && !is_only_colony && (upgrade_blocked || contested_persist_ticks
            >= abort_persistence_ticks)),
{
    if !spawnless || is_only_colony {
        return false;
    }
    upgrade_blocked || contested_persist_ticks >= abort_persistence_ticks
}

/// A remote mining room is unsafe only while it is visible now and we see
/// an actual military threat in it; absent intel reads safe.
pub fn is_remote_room_safe(dynamic: Option<&RoomDynamicVisibilityData>, now: u32) -> (r: bool)
    ensures
        r == match dynamic {
            Some(d) => !(sat_sub(now, d.update_tick) == 0 && spec_militarily_active(*d)),
            None => true,
        },
{
    match dynamic {
        Some(d) => !(d.visible(now) && d.militarily_active()),
        None => true,
    }
}

/// A room can serve as home when it is visible now and either owned by us
/// or holds one of our spawns.
pub fn is_valid_home_room(dynamic: Option<&RoomDynamicVisibilityData>, now: u32, has_my_spawn: bool) -> (r: bool)
    ensures
        r == match dynamic {
            Some(d) => sat_sub(now, d.update_tick) == 0 && (d.owner is Mine || has_my_spawn),
            None => false,
        },
{
    match dynamic {
        Some(d) => {
            if d.visible(now) {
                if d.owner().mine() {
                    return true;
                }
                if has_my_spawn {
                    return true;
                }
            }
            false
        },
        None => false,
    }
}


/// A home room for an operation that needs controller level `min_rcl`: a
/// valid home (see [`is_valid_home_room`]) whose highest controller level
/// (none counts as 0) reaches it.
pub fn home_room_qualifies(
    dynamic: Option<&RoomDynamicVisibilityData>,
    now: u32,
    has_my_spawn: bool,
    max_controller_level: Option<u8>,
    min_rcl: u8,
) -> (r: bool)
    ensures
        r == ((match dynamic {
            Some(d) => sat_sub(now, d.update_tick) == 0 && (d.owner is Mine || has_my_spawn),
            None => false,
        }) && match max_controller_level {
            Some(l) => l >= min_rcl,
            None => min_rcl == 0,
        }),
{
    if !is_valid_home_room(dynamic, now, has_my_spawn) {
        return false;
    }
    let rcl = match max_controller_level {
        Some(l) => l,
        None => 0,
    };
    rcl >= min_rcl
}

/// The claim-relevant threat signals of a room's threat record.
#[derive(Clone, Copy, Debug, PartialEq, Eq, Structural)]
pub struct ClaimThreat {
    /// The threat level is a player raid or worse.
    pub raid_or_worse: bool,
    /// Hostile attack damage was estimated above zero.
    pub attack_dps_positive: bool,
    /// Hostile towers were seen.
    pub towers: bool,
    /// Nukes are inbound.
    pub nukes: bool,
}

/// A room is safe to claim: fresh intel within `intel_freshness_ticks`, no
/// foreign owner or reservation, no military presence or hostile tower,
/// and (where a threat record exists) no raid, damage, towers or nukes.
pub fn is_claim_target_safe(threat: Option<ClaimThreat>, d: &RoomDynamicVisibilityData, now: u32, intel_freshness_ticks: u32) -> (r: bool)
    ensures
        r == (sat_sub(now, d.update_tick) <= intel_freshness_ticks && !(d.owner is Hostile) && !(d.owner is Friendly)
            && !(d.reservation is Hostile) && !(d.reservation is Friendly) && !spec_militarily_active(*d)
            && !d.hostile_tower_present && match threat {
            Some(t) => !t.raid_or_worse && !t.attack_dps_positive && !t.towers && !t.nukes,
            None => true,
        }),
{
    if !d.updated_within(now, intel_freshness_ticks) {
        return false;
    }
    if d.owner().hostile() || d.owner().friendly() {
        return false;
    }
    if d.reservation().hostile() || d.reservation().friendly() {
        return false;
    }
    if d.militarily_active() || d.hostile_tower_present() {
        return false;
    }
    match threat {
        Some(t) => !t.raid_or_worse && !t.attack_dps_positive && !t.towers && !t.nukes,
        None => true,
    }
}

} // verus!
