//! Wall-repair mission policy: how urgent each rampart or wall is, when an
//! emergency calls for topping up the towers, and when the mission's scan
//! runs and when it is done.
use vstd::prelude::*;
use crate::roomdata::sat_sub;
use crate::claim::sat_add;
use crate::repairqueue::{RemoteObjectId, RepairPriority, RepairQueue, RepairRequest, posted_to, room_seq};
use crate::geometry::RoomName;

verus! {

/// Below this many hits a rampart or wall is an emergency.
pub const EMERGENCY_WALL_HITS: u32 = 100_000;

/// Below this many hits a rampart or wall is a moderate concern.
pub const MODERATE_WALL_HITS: u32 = 1_000_000;

/// Hostile-free ticks after which the mission completes.
pub const IDLE_TICKS_BEFORE_COMPLETE: u32 = 100;

/// Ticks between scans.
pub const WALL_SCAN_INTERVAL: u32 = 20;

/// Repair priority of a rampart or wall by its hits: critical below the
/// emergency threshold, high below the moderate one, medium while damaged,
/// none at full hits.
pub open spec fn spec_wall_priority(hits: u32, hits_max: u32) -> Option<RepairPriority> {
    if hits < EMERGENCY_WALL_HITS {
        Some(RepairPriority::Critical)
    } else if hits < MODERATE_WALL_HITS {
        Some(RepairPriority::High)
    } else if hits < hits_max {
        Some(RepairPriority::Medium)
    } else {
        None
    }
}

/// Repair priority of a rampart or wall by its hits (see
/// [`spec_wall_priority`]).
pub fn wall_repair_priority(hits: u32, hits_max: u32) -> (r: Option<RepairPriority>)
    ensures
        r == spec_wall_priority(hits, hits_max),
{
    if hits < EMERGENCY_WALL_HITS {
        Some(RepairPriority::Critical)
    } else if hits < MODERATE_WALL_HITS {
        Some(RepairPriority::High)
    } else if hits < hits_max {
        Some(RepairPriority::Medium)
    } else {
        None
    }
}

/// A rampart or wall as the scan sees it.
#[derive(Clone, Copy, Debug, PartialEq, Eq, Structural)]
pub struct WallSighting {
    pub id: RemoteObjectId,
    /// Owned by us (walls have no owner and count as ours).
    pub mine: bool,
    pub hits: u32,
    pub hits_max: u32,
}

/// The repair request for one sighting, if it needs one.
pub open spec fn wall_request(w: WallSighting, room: RoomName) -> Option<RepairRequest> {
    match spec_wall_priority(w.hits, w.hits_max) {
        Some(p) => if w.mine {
            Some(RepairRequest {
                structure_id: w.id,
                priority: p,
                current_hits: w.hits,
                max_hits: w.hits_max,
                room,
            })
        } else {
            None
        },
        None => None,
    }
}

/// The repair requests for a run of sightings, in order.
pub open spec fn wall_requests(s: Seq<WallSighting>, room: RoomName) -> Seq<RepairRequest>
    decreases s.len(),
{
    if s.len() == 0 {
        Seq::empty()
    } else {
        let rest = wall_requests(s.drop_last(), room);
        match wall_request(s.last(), room) {
            Some(r) => rest.push(r),
            None => rest,
        }
    }
}

/// Post a repair request, at its [`spec_wall_priority`], for each owned
/// sighting (ramparts, then walls) that is below its hits maximum. Returns
/// how many were posted.
pub fn post_wall_repairs(queue: &mut RepairQueue, room: RoomName, sightings: &[WallSighting]) -> (posted: usize)
    ensures
        posted_to(old(queue)@, room, wall_requests(sightings@, room), final(queue)@),
        posted == wall_requests(sightings@, room).len(),
{
    let ghost start = queue@;
    let mut posted: usize = 0;
    let mut k: usize = 0;
    proof {
        assert forall|r: RoomName| #[trigger] room_seq(queue@, r) == if r == room {
            room_seq(start, room) + wall_requests(sightings@.take(0), room)
        } else {
            room_seq(start, r)
        } by {
            assert(room_seq(start, room) + Seq::<RepairRequest>::empty() =~= room_seq(start, room));
        }
    }
    while k < sightings.len()
        invariant
            0 <= k <= sightings@.len(),
            posted_to(start, room, wall_requests(sightings@.take(k as int), room), queue@),
            posted == wall_requests(sightings@.take(k as int), room).len(),
            posted <= k,
        decreases sightings@.len() - k,
    {
        let w = sightings[k];
        assert(sightings@.take(k as int + 1).drop_last() == sightings@.take(k as int));
        if w.mine {
            match wall_repair_priority(w.hits, w.hits_max) {
                Some(p) => {
                    let req = RepairRequest {
                        structure_id: w.id,
                        priority: p,
                        current_hits: w.hits,
                        max_hits: w.hits_max,
                        room,
                    };
                    let ghost before = queue@;
                    let ghost prior = wall_requests(sightings@.take(k as int), room);
                    assert(wall_requests(sightings@.take(k as int + 1), room) == prior.push(req));
                    queue.request_repair(req);
                    proof {
                        assert forall|r: RoomName| #[trigger] room_seq(queue@, r) == if r == room {
                            room_seq(start, room) + prior.push(req)
                        } else {
                            room_seq(start, r)
                        } by {
                            assert(room_seq(queue@, r) == if r == room {
                                room_seq(before, room) + seq![req]
                            } else {
                                room_seq(before, r)
                            });
                            assert(room_seq(before, r) == if r == room {
                                room_seq(start, room) + prior
                            } else {
                                room_seq(start, r)
                            });
                            if r == room {
                                assert(room_seq(start, room) + prior + seq![req] =~= room_seq(start, room)
                                    + prior.push(req));
                            }
                        }
                    }
                    posted += 1;
                },
                None => {},
            }
        }
        k += 1;
    }
    assert(sightings@.take(sightings@.len() as int) == sightings@);
    posted
}

/// Some owned rampart (`(mine, hits)`) or wall (`hits`) is below the
/// emergency threshold.
pub fn wall_emergency(ramparts: &[(bool, u32)], walls: &[u32]) -> (r: bool)
    ensures
        r == ((exists|i: int|
            0 <= i < ramparts@.len() && (#[trigger] ramparts@[i]).0 && ramparts@[i].1 < EMERGENCY_WALL_HITS) || (
        exists|j: int| 0 <= j < walls@.len() && #[trigger] walls@[j] < EMERGENCY_WALL_HITS)),
{
    let mut i: usize = 0;
    while i < ramparts.len()
        invariant
            0 <= i <= ramparts@.len(),
            forall|a: int| 0 <= a < i ==> !((#[trigger] ramparts@[a]).0 && ramparts@[a].1 < EMERGENCY_WALL_HITS),
        decreases ramparts@.len() - i,
    {
        if ramparts[i].0 && ramparts[i].1 < EMERGENCY_WALL_HITS {
            return true;
        }
        i += 1;
    }
    let mut j: usize = 0;
    while j < walls.len()
        invariant
            0 <= j <= walls@.len(),
            forall|a: int| 0 <= a < ramparts@.len() ==> !((#[trigger] ramparts@[a]).0 && ramparts@[a].1 < EMERGENCY_WALL_HITS),
            forall|a: int| 0 <= a < j ==> !(#[trigger] walls@[a] < EMERGENCY_WALL_HITS),
        decreases walls@.len() - j,
    {
        if walls[j] < EMERGENCY_WALL_HITS {
            return true;
        }
        j += 1;
    }
    false
}

/// What the mission does this tick.
#[derive(Clone, Copy, Debug, PartialEq, Eq, Structural)]
pub enum WallRepairStep {
    /// Not yet time to scan.
    Wait,
    /// No structure data: the scan is skipped.
    Skip,
    /// Hostile-free long enough: the mission is complete.
    Done,
    /// Scan the ramparts and walls.
    Scan,
}

/// Mission clock: when it last scanned and how long the room has been
/// hostile-free.
#[derive(Clone, Copy, Debug, PartialEq, Eq, Structural)]
pub struct WallRepairClock {
    pub last_scan_tick: u32,
    pub ticks_since_hostiles: u32,
}

impl WallRepairClock {
    pub fn new() -> (c: WallRepairClock)
        ensures
            c.last_scan_tick == 0,
            c.ticks_since_hostiles == 0,
    {
        WallRepairClock { last_scan_tick: 0, ticks_since_hostiles: 0 }
    }

    /// Advance the clock to `now`. Scans run every [`WALL_SCAN_INTERVAL`]
    /// ticks; a scan with hostiles present restarts the idle count, one
    /// without adds the ticks since the last scan, and the mission is done
    /// once [`IDLE_TICKS_BEFORE_COMPLETE`] hostile-free ticks have passed.
    pub fn step(&mut self, now: u32, structures_known: bool, has_hostiles: bool) -> (s: WallRepairStep)
        ensures
            ({
                let elapsed = sat_sub(now, old(self).last_scan_tick);
                if elapsed < WALL_SCAN_INTERVAL {
                    s == WallRepairStep::Wait && *final(self) == *old(self)
                } else if !structures_known {
                    s == WallRepairStep::Skip && final(self).last_scan_tick == now
                        && final(self).ticks_since_hostiles == old(self).ticks_since_hostiles
                } else if has_hostiles {
                    s == WallRepairStep::Scan && final(self).last_scan_tick == now
                        && final(self).ticks_since_hostiles == 0
                } else {
                    let idle = sat_add(old(self).ticks_since_hostiles, elapsed as u32);
                    &&& final(self).last_scan_tick == now
                    &&& final(self).ticks_since_hostiles == idle
                    &&& s == if idle >= IDLE_TICKS_BEFORE_COMPLETE {
                        WallRepairStep::Done
                    } else {
                        WallRepairStep::Scan
                    }
                }
            }),
    {
        let elapsed = now.saturating_sub(self.last_scan_tick);
        if elapsed < WALL_SCAN_INTERVAL {
            return WallRepairStep::Wait;
        }
        self.last_scan_tick = now;
        if !structures_known {
            return WallRepairStep::Skip;
        }
        if has_hostiles {
            self.ticks_since_hostiles = 0;
        } else {
            self.ticks_since_hostiles = self.ticks_since_hostiles.saturating_add(elapsed);
            if self.ticks_since_hostiles >= IDLE_TICKS_BEFORE_COMPLETE {
                return WallRepairStep::Done;
            }
        }
        WallRepairStep::Scan
    }
}

} // verus!
