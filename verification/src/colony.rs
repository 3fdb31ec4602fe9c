//! Colony reclaim policy: which lost rooms to claim back, which home rooms
//! can send the claimer, and which of them are close enough.
use vstd::prelude::*;
use crate::geometry::RoomName;
use crate::roomdata::{RoomDynamicVisibilityData, sat_sub};

verus! {

/// Manhattan room distance within which a home room may reclaim a room.
pub const RECLAIM_HOME_RANGE: u32 = 10;

/// A room to reclaim: visible this tick, unclaimed, with a controller and
/// one of our old spawns standing, a manageable threat, and no claim
/// mission on it yet.
pub fn reclaim_target(
    d: &RoomDynamicVisibilityData,
    now: u32,
    has_controller: bool,
    has_spawns: bool,
    threat_manageable: bool,
    has_claim_mission: bool,
) -> (r: bool)
    ensures
        r == (sat_sub(now, d.update_tick) == 0 && d.owner is Neutral && has_controller && has_spawns
            && threat_manageable && !has_claim_mission),
{
    d.visible(now) && d.owner().neutral() && has_controller && has_spawns && threat_manageable && !has_claim_mission
}

/// A home room that can send a claimer: ours, with spawns, at controller
/// level 2 or more.
pub fn reclaim_home(is_mine: bool, has_spawns: bool, max_controller_level: Option<u8>) -> (r: bool)
    ensures
        r == (is_mine && has_spawns && match max_controller_level {
            Some(level) => level >= 2,
            None => false,
        }),
{
    is_mine && has_spawns && match max_controller_level {
        Some(level) => level >= 2,
        None => false,
    }
}

/// Manhattan distance between two rooms, in room hops.
pub open spec fn room_manhattan(a: RoomName, b: RoomName) -> int {
    let dx = a.room_x() - b.room_x();
    let dy = a.room_y() - b.room_y();
    (if dx < 0 { -dx } else { dx }) + (if dy < 0 { -dy } else { dy })
}

fn manhattan(a: RoomName, b: RoomName) -> (d: u32)
    ensures
        d == room_manhattan(a, b),
{
    let dx = a.x_coord() - b.x_coord();
    let dy = a.y_coord() - b.y_coord();
    let ax = if dx < 0 { -dx } else { dx };
    let ay = if dy < 0 { -dy } else { dy };
    (ax + ay) as u32
}

/// Positions (in order) of the home rooms within [`RECLAIM_HOME_RANGE`]
/// of `target`.
pub fn homes_in_reclaim_range(target: RoomName, homes: &[RoomName]) -> (r: Vec<usize>)
    ensures
        forall|k: int| 0 <= k < r@.len() ==> r@[k] < homes@.len(),
        forall|k: int, l: int| 0 <= k < l < r@.len() ==> r@[k] < r@[l],
        forall|i: int|
            0 <= i < homes@.len() ==> (r@.contains(i as usize) <==> room_manhattan(target, #[trigger] homes@[i])
                <= RECLAIM_HOME_RANGE),
{
    let mut r: Vec<usize> = Vec::new();
    let mut i: usize = 0;
    while i < homes.len()
        invariant
            0 <= i <= homes@.len(),
            forall|k: int| 0 <= k < r@.len() ==> r@[k] < i,
            forall|k: int, l: int| 0 <= k < l < r@.len() ==> r@[k] < r@[l],
            forall|a: int|
                0 <= a < i ==> (r@.contains(a as usize) <==> room_manhattan(target, #[trigger] homes@[a])
                    <= RECLAIM_HOME_RANGE),
            forall|a: usize| i <= a ==> !r@.contains(a),
        decreases homes@.len() - i,
    {
        let ghost before = r@;
        if manhattan(target, homes[i]) <= RECLAIM_HOME_RANGE {
            r.push(i);
            proof {
                assert(r@[r@.len() - 1] == i);
                assert forall|a: usize| #[trigger] r@.contains(a) implies before.contains(a) || a == i by {
                    let k = choose|k: int| 0 <= k < r@.len() && r@[k] == a;
                    if k < before.len() {
                        assert(before[k] == a);
                    }
                }
                assert forall|a: usize| before.contains(a) implies #[trigger] r@.contains(a) by {
                    let k = choose|k: int| 0 <= k < before.len() && before[k] == a;
                    assert(r@[k] == a);
                }
            }
        }
        i += 1;
    }
    r
}

} // verus!
