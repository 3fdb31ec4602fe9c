//! Claim-pipeline gates: the commit-time plan gate, the claim-corridor reach
//! check, the escort producer's viability guard and the room-cap clamp.
use vstd::prelude::*;
use crate::pathfinderservice::CachedRoute;
use crate::utility::{max_claim_radius_hops, TICKS_PER_HOP};
use crate::roomdata::sat_sub;
use crate::war::sat_mul;
use crate::geometry::RoomName;
use crate::scoutassignment::{room_before, room_name_lt};

verus! {

/// Commit-time plan-gate decision.
#[derive(Debug, Clone, Copy, PartialEq, Eq, Structural)]
pub enum PlanCommitGate {
    /// No plan data at all — request one and defer the candidate.
    RequestPlan,
    /// Plan data present but the plan FAILED — a hard skip.
    SkipInvalid,
    /// A valid plan exists — the candidate may be committed.
    Proceed,
}

/// Missing plan data requests a plan; a failed plan is skipped; a valid one
/// proceeds.
pub fn plan_commit_gate(plan_valid: Option<bool>) -> (g: PlanCommitGate)
    ensures
        g == match plan_valid {
            None => PlanCommitGate::RequestPlan,
            Some(false) => PlanCommitGate::SkipInvalid,
            Some(true) => PlanCommitGate::Proceed,
        },
{
    match plan_valid {
        None => PlanCommitGate::RequestPlan,
        Some(false) => PlanCommitGate::SkipInvalid,
        Some(true) => PlanCommitGate::Proceed,
    }
}

/// Claim-corridor reach: the route exists and fits the claim radius.
pub fn claim_route_feasible(route: CachedRoute) -> (r: bool)
    ensures
        r == (route.reachable && route.hops <= 11),
{
    route.reachable && route.hops <= max_claim_radius_hops()
}

/// The escort producer's guards: the room is not expansion-avoided and its
/// plan has not failed (a missing plan is no rejection).
pub fn escort_candidate_viable(avoided: bool, plan_gate: PlanCommitGate) -> (r: bool)
    ensures
        r == (!avoided && plan_gate != PlanCommitGate::SkipInvalid),
{
    !avoided && plan_gate != PlanCommitGate::SkipInvalid
}

/// The expansion room cap from the CPU-derived estimate: a CPU-healthy
/// empire probes one room beyond what it owns; the safety caps bound the
/// result and GCL is the hard ceiling.
pub open spec fn spec_room_cap(
    estimate_cap: u32,
    bucket_healthy: bool,
    currently_owned_rooms: u32,
    min_room_cap: u32,
    max_room_cap: u32,
    current_gcl: u32,
) -> int {
    let probe: int = currently_owned_rooms + 1;
    let structural: int = if bucket_healthy && probe > estimate_cap { probe } else { estimate_cap as int };
    let lower: int = if structural >= min_room_cap { structural } else { min_room_cap as int };
    let upper: int = if lower <= max_room_cap { lower } else { max_room_cap as int };
    if upper <= current_gcl { upper } else { current_gcl as int }
}

/// Clamp the CPU-derived room estimate into the expansion room cap.
pub fn room_cap(
    estimate_cap: u32,
    bucket_healthy: bool,
    currently_owned_rooms: u32,
    min_room_cap: u32,
    max_room_cap: u32,
    current_gcl: u32,
) -> (cap: u32)
    ensures
        cap == spec_room_cap(
            estimate_cap,
            bucket_healthy,
            currently_owned_rooms,
            min_room_cap,
            max_room_cap,
            current_gcl,
        ),
        cap <= current_gcl,
        cap <= max_room_cap,
{
    let structural = if bucket_healthy && currently_owned_rooms < u32::MAX && currently_owned_rooms + 1
        > estimate_cap {
        currently_owned_rooms + 1
    } else if bucket_healthy && currently_owned_rooms == u32::MAX {
        u32::MAX
    } else {
        estimate_cap
    };
    let lower = if structural >= min_room_cap { structural } else { min_room_cap };
    let upper = if lower <= max_room_cap { lower } else { max_room_cap };
    if upper <= current_gcl {
        upper
    } else {
        current_gcl
    }
}


/// `x + y`, saturating at `u32::MAX`.
pub open spec fn sat_add(x: u32, y: u32) -> u32 {
    if x + y <= u32::MAX { (x + y) as u32 } else { u32::MAX }
}

/// `x * y`, saturating at `u32::MAX`.
fn saturating_mul(x: u32, y: u32) -> (r: u32)
    ensures
        r == sat_mul(x, y),
{
    if y == 0 {
        assert(x * y == 0) by (nonlinear_arith)
            requires
                y == 0,
        ;
        0
    } else if x > u32::MAX / y {
        assert(x * y > u32::MAX) by (nonlinear_arith)
            requires
                y > 0,
                x > u32::MAX / y,
        ;
        u32::MAX
    } else {
        assert(x * y <= u32::MAX) by (nonlinear_arith)
            requires
                y > 0,
                x <= u32::MAX / y,
        ;
        x * y
    }
}

/// Re-discovery cadence scaled by the tracked search area: each tracked
/// room (candidate or unknown) adds `rediscover_ticks_per_room`, bounded by
/// `max_discover_interval` (never below the base interval).
pub fn discover_interval_eff(
    discover_interval: u32,
    rediscover_ticks_per_room: u32,
    max_discover_interval: u32,
    tracked_rooms: u32,
) -> (r: u32)
    ensures
        ({
            let grown = sat_add(discover_interval, sat_mul(rediscover_ticks_per_room, tracked_rooms));
            let ceiling = if max_discover_interval >= discover_interval {
                max_discover_interval
            } else {
                discover_interval
            };
            r == if grown <= ceiling { grown } else { ceiling }
        }),
{
    discover_interval.saturating_add(saturating_mul(rediscover_ticks_per_room, tracked_rooms)).min(
        max_discover_interval.max(discover_interval),
    )
}

/// Scouting window scaled so scouts can reach the frontier ring
/// (`TICKS_PER_HOP` per claim-radius hop) plus `scout_ticks_per_room` per
/// unknown room, bounded by `max_scouting_window` (never below the window
/// plus the ring travel).
pub fn scouting_window_eff(
    scouting_window: u32,
    scout_ticks_per_room: u32,
    max_scouting_window: u32,
    unknown_rooms: u32,
) -> (r: u32)
    ensures
        ({
            let travel = TICKS_PER_HOP * 11;
            let base = sat_add(scouting_window, travel as u32);
            let grown = sat_add(base, sat_mul(scout_ticks_per_room, unknown_rooms));
            let ceiling = if max_scouting_window >= base { max_scouting_window } else { base };
            r == if grown <= ceiling { grown } else { ceiling }
        }),
{
    let radius = max_claim_radius_hops();
    let travel = saturating_mul(TICKS_PER_HOP, radius);
    let base = scouting_window.saturating_add(travel);
    base.saturating_add(saturating_mul(scout_ticks_per_room, unknown_rooms)).min(max_scouting_window.max(base))
}

/// Intel younger than this counts as seen for scouting coverage.
pub const VISIBILITY_TIMEOUT: u32 = 20000;

/// Scouting has covered the search area: every candidate has been scored,
/// and every unknown room is either unreachable now or was seen within
/// [`VISIBILITY_TIMEOUT`]. Each unknown room is `(unreachable_now,
/// last_seen_tick)`.
pub fn scouting_coverage_complete(
    candidates_scored: &[bool],
    unknown_rooms: &[(bool, Option<u32>)],
    now: u32,
) -> (r: bool)
    ensures
        r == ((forall|i: int| 0 <= i < candidates_scored@.len() ==> #[trigger] candidates_scored@[i])
            && (forall|j: int|
            0 <= j < unknown_rooms@.len() ==> (#[trigger] unknown_rooms@[j]).0 || match unknown_rooms@[j].1 {
                Some(t) => sat_sub(now, t) <= VISIBILITY_TIMEOUT,
                None => false,
            })),
{
    let mut i: usize = 0;
    while i < candidates_scored.len()
        invariant
            0 <= i <= candidates_scored@.len(),
            forall|a: int| 0 <= a < i ==> #[trigger] candidates_scored@[a],
        decreases candidates_scored@.len() - i,
    {
        if !candidates_scored[i] {
            return false;
        }
        i += 1;
    }
    let mut j: usize = 0;
    while j < unknown_rooms.len()
        invariant
            0 <= j <= unknown_rooms@.len(),
            forall|a: int| 0 <= a < candidates_scored@.len() ==> #[trigger] candidates_scored@[a],
            forall|a: int|
                0 <= a < j ==> (#[trigger] unknown_rooms@[a]).0 || match unknown_rooms@[a].1 {
                    Some(t) => sat_sub(now, t) <= VISIBILITY_TIMEOUT,
                    None => false,
                },
        decreases unknown_rooms@.len() - j,
    {
        let (unreachable, last_seen) = unknown_rooms[j];
        if !unreachable {
            let seen = match last_seen {
                Some(t) => now.saturating_sub(t) <= VISIBILITY_TIMEOUT,
                None => false,
            };
            if !seen {
                return false;
            }
        }
        j += 1;
    }
    true
}


/// What the claim-escort screen decision reads about a candidate room.
#[derive(Clone, Copy, Debug, PartialEq, Eq, Structural)]
pub struct EscortScreenInputs {
    /// Fresh intel: a stale read is no basis for a screen.
    pub intel_fresh: bool,
    /// Owned by a foreign player: not a claim target.
    pub owner_hostile: bool,
    /// Owned by an ally: not claimable.
    pub owner_friendly: bool,
    /// A foreign reservation blocks the claim.
    pub reservation_blocked: bool,
    /// A hostile tower reaches the room edge: a full assault, not a screen.
    pub tower_present: bool,
    /// Nukes are inbound.
    pub nukes_incoming: bool,
    /// A siege-level force holds the room.
    pub siege: bool,
    /// The threat data warrants attention at all.
    pub warrants_attention: bool,
    /// The claim safety gate rejects the room on threat.
    pub threat_present: bool,
    /// The observed attack DPS is within the light-screen ceiling.
    pub within_dps_ceiling: bool,
}

/// A marginal threatened claim target gets a light screen: fresh intel, a
/// claimable room, a threat the safety gate rejects on, no towers, nukes
/// or siege, and damage within the screen ceiling.
pub fn escort_screen_decision(inputs: EscortScreenInputs) -> (r: bool)
    ensures
        r == (inputs.intel_fresh && !inputs.owner_hostile && !inputs.owner_friendly && !inputs.reservation_blocked
            && inputs.warrants_attention && inputs.threat_present && !inputs.tower_present && !inputs.nukes_incoming
            && !inputs.siege && inputs.within_dps_ceiling),
{
    if !inputs.intel_fresh {
        return false;
    }
    if inputs.owner_hostile || inputs.owner_friendly || inputs.reservation_blocked {
        return false;
    }
    if !inputs.warrants_attention {
        return false;
    }
    if !inputs.threat_present {
        return false;
    }
    if inputs.tower_present || inputs.nukes_incoming || inputs.siege {
        return false;
    }
    inputs.within_dps_ceiling
}

/// The escort producer's whole filter for one candidate: the viability
/// guard, then the screen decision.
pub fn escort_emitted(avoided: bool, plan_gate: PlanCommitGate, inputs: EscortScreenInputs) -> (r: bool)
    ensures
        r == (!avoided && plan_gate != PlanCommitGate::SkipInvalid && inputs.intel_fresh && !inputs.owner_hostile
            && !inputs.owner_friendly && !inputs.reservation_blocked && inputs.warrants_attention
            && inputs.threat_present && !inputs.tower_present && !inputs.nukes_incoming && !inputs.siege
            && inputs.within_dps_ceiling),
{
    escort_candidate_viable(avoided, plan_gate) && escort_screen_decision(inputs)
}


/// Rooms counted against the room cap: owned rooms plus active claim
/// missions, in 32-bit arithmetic (wrapping past `u32::MAX`).
pub open spec fn active_rooms(owned: u32, active_missions: u32) -> int {
    let sum = owned + active_missions;
    if sum > u32::MAX { sum - 0x1_0000_0000 } else { sum }
}

/// New claim missions the select pass may start: none at the room cap, with
/// claiming off, or with CPU not healthy; otherwise the free rooms under
/// the cap, limited by the concurrency cap on missions (0 = unlimited).
pub fn claim_mission_budget(
    maximum_rooms: u32,
    owned_rooms: u32,
    active_missions: u32,
    claiming_on: bool,
    cpu_healthy: bool,
    max_concurrent_missions: u32,
) -> (r: u32)
    ensures
        ({
            let active = active_rooms(owned_rooms, active_missions);
            let available = if active <= maximum_rooms { maximum_rooms - active } else { 0 };
            let headroom = if max_concurrent_missions == 0 {
                u32::MAX as int
            } else if active_missions <= max_concurrent_missions {
                max_concurrent_missions - active_missions
            } else {
                0
            };
            r == if active >= maximum_rooms || !claiming_on || !cpu_healthy {
                0
            } else if available <= headroom {
                available
            } else {
                headroom
            }
        }),
{
    let sum: u64 = owned_rooms as u64 + active_missions as u64;
    let active: u32 = if sum > u32::MAX as u64 {
        (sum - 0x1_0000_0000u64) as u32
    } else {
        sum as u32
    };
    let available = maximum_rooms.saturating_sub(active);
    let at_capacity = active >= maximum_rooms || !claiming_on || !cpu_healthy;
    let headroom = if max_concurrent_missions == 0 {
        u32::MAX
    } else {
        max_concurrent_missions.saturating_sub(active_missions)
    };
    if at_capacity {
        0
    } else if available <= headroom {
        available
    } else {
        headroom
    }
}

/// Energy a claimer body ([Claim, Move]) costs.
pub const CLAIMER_COST: u32 = 650;

/// Homes one claim may take.
pub const HOME_CONSUMPTION_CAP: usize = 2;

/// A home may send a claimer before its route is checked: not committed to
/// another claim, among the search's homes for the candidate when the pass
/// is restricted to them, and able to afford a claimer.
pub fn claim_home_prefilter(used: bool, restrict_to_search_homes: bool, search_home: bool, energy_capacity: u32) -> (r: bool)
    ensures
        r == (!used && (!restrict_to_search_homes || search_home) && energy_capacity >= CLAIMER_COST),
{
    !used && (!restrict_to_search_homes || search_home) && energy_capacity >= CLAIMER_COST
}

/// Position `a` sorts before position `b`: by room order, then position.
pub open spec fn home_key_before(homes: Seq<RoomName>, a: int, b: int) -> bool {
    room_before(homes[a], homes[b]) || (homes[a] == homes[b] && a < b)
}

/// Of the claim-feasible homes, the first [`HOME_CONSUMPTION_CAP`] in room
/// order (positions, in that order).
pub fn pick_claim_homes(homes: &[RoomName]) -> (r: Vec<usize>)
    ensures
        r@.len() == if homes@.len() < HOME_CONSUMPTION_CAP { homes@.len() as int } else { HOME_CONSUMPTION_CAP as int },
        forall|k: int| 0 <= k < r@.len() ==> r@[k] < homes@.len(),
        forall|k: int, l: int| 0 <= k < l < r@.len() ==> home_key_before(homes@, r@[k] as int, r@[l] as int),
        forall|j: int, k: int|
            0 <= j < homes@.len() && 0 <= k < r@.len() && !r@.contains(j as usize) ==> home_key_before(
                homes@,
                r@[k] as int,
                j,
            ),
{
    let mut r: Vec<usize> = Vec::new();
    while r.len() < HOME_CONSUMPTION_CAP && r.len() < homes.len()
        invariant
            r@.len() <= HOME_CONSUMPTION_CAP,
            r@.len() <= homes@.len(),
            forall|k: int| 0 <= k < r@.len() ==> r@[k] < homes@.len(),
            forall|k: int, l: int| 0 <= k < l < r@.len() ==> home_key_before(homes@, r@[k] as int, r@[l] as int),
            forall|j: int, k: int|
                0 <= j < homes@.len() && 0 <= k < r@.len() && !r@.contains(j as usize) ==> home_key_before(
                    homes@,
                    r@[k] as int,
                    j,
                ),
        decreases HOME_CONSUMPTION_CAP - r@.len(),
    {
        // The smallest home not yet picked.
        let mut best: Option<usize> = None;
        let mut j: usize = 0;
        while j < homes.len()
            invariant
                0 <= j <= homes@.len(),
                r@.len() < homes@.len(),
                forall|k: int| 0 <= k < r@.len() ==> r@[k] < homes@.len(),
                match best {
                    None => forall|a: int| 0 <= a < j ==> #[trigger] r@.contains(a as usize),
                    Some(b) => {
                        &&& b < j
                        &&& !r@.contains(b)
                        &&& forall|a: int|
                            0 <= a < j && !r@.contains(a as usize) && a != b ==> home_key_before(homes@, b as int, a)
                    },
                },
            decreases homes@.len() - j,
        {
            if !contains_index(&r, j) {
                let better = match best {
                    None => true,
                    Some(b) => room_name_lt(homes[j], homes[b]),
                };
                if better {
                    proof {
                        if let Some(b) = best {
                            assert forall|a: int|
                                0 <= a < j + 1 && !r@.contains(a as usize) && a != j implies home_key_before(
                                    homes@,
                                    j as int,
                                    a,
                                ) by {
                                if a != b {
                                    assert(home_key_before(homes@, b as int, a));
                                }
                            }
                        }
                    }
                    best = Some(j);
                }
            }
            j += 1;
        }
        proof {
            if best is None {
                // Fewer homes picked than there are: some position is free.
                assert(forall|a: int| 0 <= a < homes@.len() ==> #[trigger] r@.contains(a as usize));
                assert forall|k: int, l: int| 0 <= k < l < r@.len() implies r@[k] != r@[l] by {
                    assert(home_key_before(homes@, r@[k] as int, r@[l] as int));
                }
                lemma_distinct_positions_fill(r@, homes@.len() as int);
                assert(false);
            }
        }
        let b = best.unwrap();
        let ghost before = r@;
        r.push(b);
        proof {
            assert forall|k: int, l: int| 0 <= k < l < r@.len() implies home_key_before(homes@, r@[k] as int, r@[l] as int) by {
                if l < before.len() {
                    assert(r@[k] == before[k] && r@[l] == before[l]);
                } else {
                    assert(r@[l] == b);
                    assert(!before.contains(b));
                    assert(r@[k] == before[k]);
                }
            }
            assert forall|j: int, k: int|
                0 <= j < homes@.len() && 0 <= k < r@.len() && !r@.contains(j as usize) implies home_key_before(
                    homes@,
                    r@[k] as int,
                    j,
                ) by {
                assert(!before.contains(j as usize)) by {
                    if before.contains(j as usize) {
                        let i = choose|i: int| 0 <= i < before.len() && before[i] == j as usize;
                        assert(r@[i] == j as usize);
                    }
                }
                if k < before.len() {
                    assert(r@[k] == before[k]);
                } else {
                    assert(r@[k] == b);
                    assert(j != b);
                }
            }
        }
    }
    r
}

/// `r` holds `i`.
fn contains_index(r: &Vec<usize>, i: usize) -> (found: bool)
    ensures
        found == r@.contains(i),
{
    let mut k: usize = 0;
    while k < r.len()
        invariant
            0 <= k <= r@.len(),
            forall|a: int| 0 <= a < k ==> r@[a] != i,
        decreases r@.len() - k,
    {
        if r[k] == i {
            assert(r@[k as int] == i);
            return true;
        }
        k += 1;
    }
    false
}

/// A strictly ordered sequence of positions that covers `0..n` has at least
/// `n` entries.
proof fn lemma_distinct_positions_fill(s: Seq<usize>, n: int)
    requires
        0 <= n <= usize::MAX,
        forall|a: int| 0 <= a < n ==> #[trigger] s.contains(a as usize),
        forall|k: int, l: int| 0 <= k < l < s.len() ==> s[k] != s[l],
    ensures
        s.len() >= n,
    decreases n,
{
    if n > 0 {
        // Drop the entry holding n - 1 and recurse.
        assert(s.contains((n - 1) as usize));
        let i = choose|i: int| 0 <= i < s.len() && s[i] == (n - 1) as usize;
        let t = s.remove(i);
        assert forall|a: int| 0 <= a < n - 1 implies #[trigger] t.contains(a as usize) by {
            assert(s.contains(a as usize));
            let m = choose|m: int| 0 <= m < s.len() && s[m] == a as usize;
            assert(m != i);
            if m < i {
                assert(t[m] == a as usize);
            } else {
                assert(t[m - 1] == a as usize);
            }
        }
        assert forall|k: int, l: int| 0 <= k < l < t.len() implies t[k] != t[l] by {
            let k2 = if k < i { k } else { k + 1 };
            let l2 = if l < i { l } else { l + 1 };
            assert(t[k] == s[k2] && t[l] == s[l2]);
        }
        lemma_distinct_positions_fill(t, n - 1);
    }
}

} // verus!
