//! Shared inter-room route-pricing rules: which rooms an economy creep may
//! traverse, and how much a passable room costs. Mirrors the mover's
//! hostile-room derivation so the reach oracle never approves a corridor the
//! mover refuses to walk.
//!
//! Room costs are in tenths of a room-cost unit (friendly 10 = 1.0, neutral
//! 20 = 2.0, derelict and unscouted 25 = 2.5).
use vstd::prelude::*;
use crate::roomdata::{RoomDynamicVisibilityData, spec_derelict};

verus! {

/// Route-callback cost (tenths) for an unscouted room: passable, but above
/// known-neutral so routes prefer scouted corridors.
pub const UNSCOUTED_ROUTE_COST: u32 = 25;

/// Cost (tenths) of a room owned or reserved by us or a friend.
pub const FRIENDLY_ROUTE_COST: u32 = 10;

/// Cost (tenths) of a known neutral room.
pub const NEUTRAL_ROUTE_COST: u32 = 20;

/// Cost (tenths) of a derelict room while derelict pathing is on.
pub const DERELICT_ROUTE_COST: u32 = 25;

/// Cached room intel needed to price a room for economy routing.
#[derive(Debug, Clone, Copy)]
pub struct RouteRoomIntel {
    /// Source-keeper room.
    pub source_keeper: bool,
    /// Reserved by a hostile player.
    pub reservation_hostile: bool,
    /// Hostile creeps sighted.
    pub hostile_creeps: bool,
    /// Armed hostile towers sighted.
    pub hostile_towers: bool,
    /// Owned by a hostile player.
    pub owner_hostile: bool,
    /// Owner or reservation is mine/friendly.
    pub friendly: bool,
    /// Raw derelict classification (hostile-owned but militarily dead at the
    /// last sighting).
    pub derelict: bool,
}

impl RouteRoomIntel {
    /// Adapter from cached dynamic visibility.
    pub fn from_dynamic(d: &RoomDynamicVisibilityData) -> (i: RouteRoomIntel)
        ensures
            i.source_keeper == d.source_keeper,
            i.reservation_hostile == (d.reservation is Hostile),
            i.hostile_creeps == d.hostile_creeps,
            i.hostile_towers == d.hostile_towers,
            i.owner_hostile == (d.owner is Hostile),
            i.friendly == (d.owner is Mine || d.owner is Friendly || d.reservation is Mine
                || d.reservation is Friendly),
            i.derelict == spec_derelict(*d),
    {
        RouteRoomIntel {
            source_keeper: d.source_keeper(),
            reservation_hostile: d.reservation().hostile(),
            hostile_creeps: d.hostile_creeps(),
            hostile_towers: d.hostile_towers(),
            owner_hostile: d.owner().hostile(),
            friendly: d.owner().mine() || d.owner().friendly() || d.reservation().mine()
                || d.reservation().friendly(),
            derelict: d.derelict(),
        }
    }
}

/// The mover's hostile-room predicate.
pub open spec fn spec_hostile_for_movement(i: RouteRoomIntel, derelict_pathing_on: bool) -> bool {
    let derelict = derelict_pathing_on && i.derelict;
    i.source_keeper || i.reservation_hostile || i.hostile_creeps || i.hostile_towers || (i.owner_hostile
        && !derelict)
}

/// The mover's hostile-room predicate: SK rooms, hostile reservations,
/// hostile creeps, armed towers, or a hostile OWNER unless the room is
/// derelict-passable (`derelict_pathing_on`).
pub fn is_hostile_for_movement(i: &RouteRoomIntel, derelict_pathing_on: bool) -> (r: bool)
    ensures
        r == spec_hostile_for_movement(*i, derelict_pathing_on),
{
    let derelict = derelict_pathing_on && i.derelict;
    i.source_keeper || i.reservation_hostile || i.hostile_creeps || i.hostile_towers || (i.owner_hostile
        && !derelict)
}

/// Economy-corridor route cost in tenths: `None` = deny.
pub open spec fn spec_economy_route_cost(intel: Option<RouteRoomIntel>, derelict_pathing_on: bool) -> Option<u32> {
    match intel {
        None => Some(UNSCOUTED_ROUTE_COST),
        Some(i) => if spec_hostile_for_movement(i, derelict_pathing_on) {
            None
        } else if i.friendly {
            Some(FRIENDLY_ROUTE_COST)
        } else if derelict_pathing_on && i.derelict {
            Some(DERELICT_ROUTE_COST)
        } else {
            Some(NEUTRAL_ROUTE_COST)
        },
    }
}

/// Economy-corridor route cost (tenths): `None` = DENY (hostile for the
/// mover), otherwise friendly 10, derelict 25, neutral 20; a room with NO
/// cached intel is passable at [`UNSCOUTED_ROUTE_COST`].
pub fn economy_route_cost(intel: Option<RouteRoomIntel>, derelict_pathing_on: bool) -> (r: Option<u32>)
    ensures
        r == spec_economy_route_cost(intel, derelict_pathing_on),
{
    match intel {
        None => Some(UNSCOUTED_ROUTE_COST),
        Some(i) => {
            if is_hostile_for_movement(&i, derelict_pathing_on) {
                None
            } else if i.friendly {
                Some(FRIENDLY_ROUTE_COST)
            } else if derelict_pathing_on && i.derelict {
                Some(DERELICT_ROUTE_COST)
            } else {
                Some(NEUTRAL_ROUTE_COST)
            }
        },
    }
}

/// The reach oracle agrees with the mover: a room is denied exactly when the
/// mover treats it as hostile, and an unscouted room is never denied but
/// costs more than a known neutral one.
pub proof fn lemma_route_cost_denies_exactly_hostile(intel: Option<RouteRoomIntel>, derelict_pathing_on: bool)
    ensures
        spec_economy_route_cost(intel, derelict_pathing_on) is None <==> (intel matches Some(i)
            && spec_hostile_for_movement(i, derelict_pathing_on)),
        intel is None ==> spec_economy_route_cost(intel, derelict_pathing_on) == Some(UNSCOUTED_ROUTE_COST),
        UNSCOUTED_ROUTE_COST > NEUTRAL_ROUTE_COST,
{
}

/// Anything armed stays hostile, whatever its derelict flag says.
pub proof fn lemma_armed_room_stays_hostile(i: RouteRoomIntel, derelict_pathing_on: bool)
    requires
        i.hostile_creeps || i.hostile_towers,
    ensures
        spec_hostile_for_movement(i, derelict_pathing_on),
{
}

} // verus!
