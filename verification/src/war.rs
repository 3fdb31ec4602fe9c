//! Military coordinator policy: governor-stretched cadences, which hostile
//! bodies warrant a defender, and invader-core target scoring.
use vstd::prelude::*;
use crate::tier::Tier;
use crate::pathfinderservice::CachedRoute;
use crate::geometry::RoomName;
use crate::scoutassignment::{room_before, room_name_lt, lemma_room_order_total};

verus! {

/// Defense scan cadence (ticks); never shed.
pub const DEFENSE_CADENCE: u32 = 2;

/// Offense evaluation cadence (ticks).
pub const OFFENSE_CADENCE: u32 = 10;

/// Heavy recompute cadence (ticks).
pub const RECOMPUTE_CADENCE: u32 = 50;

/// `x * k`, saturating at `u32::MAX`.
pub open spec fn sat_mul(x: u32, k: u32) -> u32 {
    if x * k <= u32::MAX { (x * k) as u32 } else { u32::MAX }
}

/// Governor-coordinated cadence stretch: defense keeps its base cadence at
/// every tier; other tiers stretch ×2 under Conserve and ×4 under Critical.
pub fn effective_cadence(base: u32, tier: Tier, is_defense: bool) -> (r: u32)
    ensures
        r == if is_defense {
            base
        } else {
            match tier {
                Tier::Normal => base,
                Tier::Conserve => sat_mul(base, 2),
                Tier::Critical => sat_mul(base, 4),
            }
        },
{
    if is_defense {
        return base;
    }
    match tier {
        Tier::Normal => base,
        Tier::Conserve => if base <= u32::MAX / 2 {
            base * 2
        } else {
            u32::MAX
        },
        Tier::Critical => if base <= u32::MAX / 4 {
            base * 4
        } else {
            u32::MAX
        },
    }
}

/// `cadence` ticks have elapsed since `last_tick`, or it never ran. A
/// `last_tick` ahead of `now` reads as not elapsed.
pub fn cadence_elapsed(now: u32, last_tick: Option<u32>, cadence: u32) -> (r: bool)
    ensures
        r == match last_tick {
            Some(t) => (if now >= t { now - t } else { 0 }) >= cadence,
            None => true,
        },
{
    match last_tick {
        Some(t) => now.saturating_sub(t) >= cadence,
        None => true,
    }
}

/// A stretched cadence is never shorter than the base one.
pub proof fn lemma_stretch_never_shortens(base: u32, tier: Tier, is_defense: bool)
    ensures
        base <= (if is_defense {
            base
        } else {
            match tier {
                Tier::Normal => base,
                Tier::Conserve => sat_mul(base, 2),
                Tier::Critical => sat_mul(base, 4),
            }
        }),
{
}

/// A creep body part.
#[derive(Clone, Copy, Debug, PartialEq, Eq, Structural)]
pub enum Part {
    Move,
    Work,
    Carry,
    Attack,
    RangedAttack,
    Tough,
    Heal,
    Claim,
}

/// Parts that can hurt an owned room: armed, dismantling, controller
/// attacking, or healing those that are.
pub open spec fn threatening_part(p: Part) -> bool {
    p is Attack || p is RangedAttack || p is Work || p is Claim || p is Heal
}

/// A hostile creep in an owned room warrants a defender when any of its
/// parts can hurt the room; pure scouts and haulers do not.
pub fn hostile_warrants_defender(parts: &[Part]) -> (r: bool)
    ensures
        r == exists|i: int| 0 <= i < parts@.len() && threatening_part(#[trigger] parts@[i]),
{
    let mut i: usize = 0;
    while i < parts.len()
        invariant
            0 <= i <= parts@.len(),
            forall|j: int| 0 <= j < i ==> !threatening_part(#[trigger] parts@[j]),
        decreases parts@.len() - i,
    {
        match parts[i] {
            Part::Attack | Part::RangedAttack | Part::Work | Part::Claim | Part::Heal => {
                assert(threatening_part(parts@[i as int]));
                return true;
            },
            _ => {},
        }
        i += 1;
    }
    false
}

/// Highest invader-core level the war chest can afford.
pub open spec fn max_affordable_core_level(total_stored_energy: u32) -> int {
    if total_stored_energy > 200_000 {
        5
    } else if total_stored_energy > 100_000 {
        3
    } else if total_stored_energy > 30_000 {
        1
    } else {
        0
    }
}

/// Remote-mining range (route hops from home) of outpost candidates.
pub const REMOTE_MINE_RANGE: u32 = 1;

/// The attack score of an invader core, or `None` = don't attack.
pub open spec fn spec_invader_core_attack_score(
    core_level: u8,
    min_distance: u32,
    total_stored_energy: u32,
    is_our_remote: bool,
    has_sources: bool,
) -> Option<u32> {
    let wanted_remote = is_our_remote || (has_sources && min_distance <= REMOTE_MINE_RANGE);
    let base: int = if wanted_remote { 60 } else { 30 };
    let score = base - core_level * 5 - min_distance * 3;
    if core_level > max_affordable_core_level(total_stored_energy) {
        None
    } else if core_level == 0 && !wanted_remote {
        None
    } else if score > 0 {
        Some(score as u32)
    } else {
        None
    }
}

/// Score an invader core as an attack candidate; `None` = don't attack.
/// Strongholds (level 1+) gate on the war chest; a reserver core (level 0)
/// is only worth killing where it blocks a room we reserve or could mine.
/// Higher for easier, closer, wanted rooms: `base - 5·level - 3·distance`
/// with base 60 for wanted remotes and 30 otherwise, kept only when positive.
pub fn invader_core_attack_score(
    core_level: u8,
    min_distance: u32,
    total_stored_energy: u32,
    is_our_remote: bool,
    has_sources: bool,
) -> (r: Option<u32>)
    ensures
        r == spec_invader_core_attack_score(
            core_level,
            min_distance,
            total_stored_energy,
            is_our_remote,
            has_sources,
        ),
{
    let max_affordable_level: u8 = if total_stored_energy > 200_000 {
        5
    } else if total_stored_energy > 100_000 {
        3
    } else if total_stored_energy > 30_000 {
        1
    } else {
        0
    };
    if core_level > max_affordable_level {
        return None;
    }
    let wanted_remote = is_our_remote || (has_sources && min_distance <= REMOTE_MINE_RANGE);
    if core_level == 0 && !wanted_remote {
        return None;
    }
    let base: i64 = if wanted_remote { 60 } else { 30 };
    let score: i64 = base - core_level as i64 * 5 - min_distance as i64 * 3;
    if score > 0 {
        Some(score as u32)
    } else {
        None
    }
}

/// Among targetable cores, the score strictly falls with distance: closer
/// always sorts first.
pub proof fn lemma_core_score_falls_with_distance(
    core_level: u8,
    min_distance: u32,
    total_stored_energy: u32,
    is_our_remote: bool,
    has_sources: bool,
)
    requires
        min_distance < u32::MAX,
        is_our_remote,
    ensures
        spec_invader_core_attack_score(core_level, (min_distance + 1) as u32, total_stored_energy, is_our_remote, has_sources)
            matches Some(far) ==> spec_invader_core_attack_score(
            core_level,
            min_distance,
            total_stored_energy,
            is_our_remote,
            has_sources,
        ) matches Some(near) && near > far,
{
}

/// Among targetable cores, the score strictly falls with level: easier
/// always sorts first.
pub proof fn lemma_core_score_falls_with_level(
    core_level: u8,
    min_distance: u32,
    total_stored_energy: u32,
    is_our_remote: bool,
    has_sources: bool,
)
    requires
        core_level < 255,
        is_our_remote,
    ensures
        spec_invader_core_attack_score((core_level + 1) as u8, min_distance, total_stored_energy, is_our_remote, has_sources)
            matches Some(hard) ==> spec_invader_core_attack_score(
            core_level,
            min_distance,
            total_stored_energy,
            is_our_remote,
            has_sources,
        ) matches Some(easy) && easy > hard,
{
}

/// A targeted core is always one the war chest can afford.
pub proof fn lemma_core_score_only_affordable(
    core_level: u8,
    min_distance: u32,
    total_stored_energy: u32,
    is_our_remote: bool,
    has_sources: bool,
)
    ensures
        spec_invader_core_attack_score(core_level, min_distance, total_stored_energy, is_our_remote, has_sources)
            is Some ==> core_level <= max_affordable_core_level(total_stored_energy),
{
}


/// Route distance a home's route contributes: its hops if reachable, else
/// `u32::MAX`.
pub open spec fn route_hops_or_max(route: CachedRoute) -> u32 {
    if route.reachable { route.hops } else { u32::MAX }
}

/// Minimum route distance from any home room to a target, given the route
/// found from each home (`u32::MAX` when none is reachable or there are no
/// homes).
pub fn min_distance_to_homes(routes: &[CachedRoute]) -> (r: u32)
    ensures
        forall|i: int| 0 <= i < routes@.len() ==> r <= route_hops_or_max(#[trigger] routes@[i]),
        r == u32::MAX || exists|i: int| 0 <= i < routes@.len() && r == route_hops_or_max(#[trigger] routes@[i]),
{
    let mut best: u32 = u32::MAX;
    let mut i: usize = 0;
    while i < routes.len()
        invariant
            0 <= i <= routes@.len(),
            forall|a: int| 0 <= a < i ==> best <= route_hops_or_max(#[trigger] routes@[a]),
            best == u32::MAX || exists|a: int| 0 <= a < i && best == route_hops_or_max(#[trigger] routes@[a]),
        decreases routes@.len() - i,
    {
        let route = routes[i];
        let d = if route.reachable { route.hops } else { u32::MAX };
        if d < best {
            best = d;
        }
        i += 1;
    }
    best
}

/// The home that yields the most on-site ticks for a force (`None` where a
/// home cannot field it); the earliest such home on ties. `None` when no
/// home can.
pub fn best_force_home(onsite: &[Option<u32>]) -> (r: Option<usize>)
    ensures
        r is None <==> forall|i: int| 0 <= i < onsite@.len() ==> (#[trigger] onsite@[i]) is None,
        r matches Some(k) ==> {
            &&& k < onsite@.len()
            &&& onsite@[k as int] is Some
            &&& forall|i: int|
                0 <= i < onsite@.len() && (#[trigger] onsite@[i]) is Some ==> onsite@[i]->0 <= onsite@[k as int]->0
            &&& forall|i: int|
                0 <= i < k && (#[trigger] onsite@[i]) is Some ==> onsite@[i]->0 < onsite@[k as int]->0
        },
{
    let mut best: Option<usize> = None;
    let mut i: usize = 0;
    while i < onsite.len()
        invariant
            0 <= i <= onsite@.len(),
            best is None <==> forall|a: int| 0 <= a < i ==> (#[trigger] onsite@[a]) is None,
            best matches Some(k) ==> {
                &&& k < i
                &&& onsite@[k as int] is Some
                &&& forall|a: int|
                    0 <= a < i && (#[trigger] onsite@[a]) is Some ==> onsite@[a]->0 <= onsite@[k as int]->0
                &&& forall|a: int|
                    0 <= a < k && (#[trigger] onsite@[a]) is Some ==> onsite@[a]->0 < onsite@[k as int]->0
            },
        decreases onsite@.len() - i,
    {
        if let Some(v) = onsite[i] {
            let better = match best {
                Some(k) => match onsite[k] {
                    Some(b) => v > b,
                    None => true,
                },
                None => true,
            };
            if better {
                best = Some(i);
            }
        }
        i += 1;
    }
    best
}


/// Route hops beyond which a room is never an attack candidate.
pub const OFFENSE_MAX_DISTANCE: u32 = 10;

/// Threat intel older than this is re-scouted before a room is judged.
pub const THREAT_INTEL_MAX_AGE: u32 = 200;

/// What the offense scan does with a room's threat record.
#[derive(Clone, Copy, Debug, PartialEq, Eq, Structural)]
pub enum OffenseGate {
    /// Our own room: never a target.
    SkipOwned,
    /// Too far from every home room.
    SkipFar,
    /// Intel too old: request a re-scout, judge it later.
    Rescout,
    /// Judge it as a candidate.
    Evaluate,
}

/// Gate a room before judging it as an attack candidate.
pub fn offense_room_gate(is_owned: bool, min_distance: u32, now: u32, last_seen: u32) -> (g: OffenseGate)
    ensures
        g == if is_owned {
            OffenseGate::SkipOwned
        } else if min_distance > OFFENSE_MAX_DISTANCE {
            OffenseGate::SkipFar
        } else if crate::roomdata::sat_sub(now, last_seen) > THREAT_INTEL_MAX_AGE {
            OffenseGate::Rescout
        } else {
            OffenseGate::Evaluate
        },
{
    if is_owned {
        OffenseGate::SkipOwned
    } else if min_distance > OFFENSE_MAX_DISTANCE {
        OffenseGate::SkipFar
    } else if now.saturating_sub(last_seen) > THREAT_INTEL_MAX_AGE {
        OffenseGate::Rescout
    } else {
        OffenseGate::Evaluate
    }
}

/// Score of a resource-denial (harassment) target: a hostile player's room
/// with player creeps about, when attacking players is enabled, the war
/// chest is over 150k and the room is within 6 hops; 40 less 4 per hop,
/// 5 per tower and 20 for safe mode, kept only when positive.
pub open spec fn spec_resource_denial_score(
    hostile_owner: bool,
    attack_players: bool,
    all_npc: bool,
    player_threat: bool,
    total_stored_energy: u32,
    min_distance: u32,
    tower_count: u32,
    has_safe_mode: bool,
) -> Option<u32> {
    let score: int = 40 - 4 * min_distance - 5 * tower_count - if has_safe_mode { 20int } else { 0int };
    if hostile_owner && attack_players && !all_npc && player_threat && total_stored_energy > 150_000
        && min_distance <= 6 && score > 0 {
        Some(score as u32)
    } else {
        None
    }
}

/// Score a hostile player's room as a resource-denial target.
pub fn resource_denial_score(
    hostile_owner: bool,
    attack_players: bool,
    all_npc: bool,
    player_threat: bool,
    total_stored_energy: u32,
    min_distance: u32,
    tower_count: u32,
    has_safe_mode: bool,
) -> (r: Option<u32>)
    ensures
        r == spec_resource_denial_score(
            hostile_owner,
            attack_players,
            all_npc,
            player_threat,
            total_stored_energy,
            min_distance,
            tower_count,
            has_safe_mode,
        ),
{
    if !(hostile_owner && attack_players && !all_npc && player_threat) {
        return None;
    }
    if !(total_stored_energy > 150_000 && min_distance <= 6) {
        return None;
    }
    let score: i64 = 40 - 4 * (min_distance as i64) - 5 * (tower_count as i64) - if has_safe_mode {
        20i64
    } else {
        0i64
    };
    if score > 0 {
        Some(score as u32)
    } else {
        None
    }
}

/// Candidate `a` ranks ahead of `b`: higher score, then reading order.
pub open spec fn ranks_ahead(a: (RoomName, u32), b: (RoomName, u32)) -> bool {
    a.1 > b.1 || (a.1 == b.1 && room_before(a.0, b.0))
}

/// Entry `i` is its room's best: no entry for the room scores higher, and
/// no earlier one scores as high.
pub open spec fn room_champion(c: Seq<(RoomName, u32)>, i: int) -> bool {
    &&& 0 <= i < c.len()
    &&& forall|j: int| 0 <= j < c.len() && (#[trigger] c[j]).0 == c[i].0 ==> c[j].1 <= c[i].1
    &&& forall|j: int| 0 <= j < i && (#[trigger] c[j]).0 == c[i].0 ==> c[j].1 < c[i].1
}

fn is_room_champion(c: &[(RoomName, u32)], i: usize) -> (r: bool)
    requires
        i < c@.len(),
    ensures
        r == room_champion(c@, i as int),
{
    let (room, score) = c[i];
    let mut j: usize = 0;
    while j < c.len()
        invariant
            0 <= j <= c@.len(),
            i < c@.len(),
            (room, score) == c@[i as int],
            forall|a: int| 0 <= a < j && (#[trigger] c@[a]).0 == room ==> c@[a].1 <= score,
            forall|a: int| 0 <= a < j && a < i && (#[trigger] c@[a]).0 == room ==> c@[a].1 < score,
        decreases c@.len() - j,
    {
        let (r2, s2) = c[j];
        if r2 == room {
            if s2 > score || (j < i && s2 == score) {
                assert(c@[j as int] == (r2, s2));
                return false;
            }
        }
        j += 1;
    }
    true
}

fn ahead_of(a: (RoomName, u32), b: (RoomName, u32)) -> (r: bool)
    ensures
        r == ranks_ahead(a, b),
{
    a.1 > b.1 || (a.1 == b.1 && room_name_lt(a.0, b.0))
}

/// Rank attack candidates `(room, score)`: one entry per room (its best,
/// the first on ties), ordered by score then reading order. Returns
/// positions into `c`.
pub fn rank_attack_candidates(c: &[(RoomName, u32)]) -> (r: Vec<usize>)
    ensures
        forall|k: int| 0 <= k < r@.len() ==> r@[k] < c@.len() && room_champion(c@, r@[k] as int),
        forall|k: int, l: int| 0 <= k < l < r@.len() ==> ranks_ahead(c@[r@[k] as int], c@[r@[l] as int]),
        forall|i: int| #[trigger] room_champion(c@, i) ==> r@.contains(i as usize),
{
    let mut r: Vec<usize> = Vec::new();
    let mut i: usize = 0;
    while i < c.len()
        invariant
            0 <= i <= c@.len(),
            forall|k: int| 0 <= k < r@.len() ==> r@[k] < i && room_champion(c@, r@[k] as int),
            forall|k: int, l: int| 0 <= k < l < r@.len() ==> ranks_ahead(c@[r@[k] as int], c@[r@[l] as int]),
            forall|a: int| 0 <= a < i && #[trigger] room_champion(c@, a) ==> r@.contains(a as usize),
        decreases c@.len() - i,
    {
        if is_room_champion(c, i) {
            let item = c[i];
            let ghost before = r@;
            // Champions hold distinct rooms, so ranking is strict among them.
            proof {
                assert forall|k: int| 0 <= k < before.len() implies c@[before[k] as int].0 != item.0 by {
                    let b = before[k] as int;
                    if c@[b].0 == item.0 {
                        assert(c@[b].1 <= item.1);
                        assert(c@[b].1 < item.1);
                    }
                }
            }
            let mut p: usize = 0;
            while p < r.len() && ahead_of(c[r[p]], item)
                invariant
                    0 <= p <= r@.len(),
                    r@ == before,
                    item == c@[i as int],
                    forall|k: int| 0 <= k < r@.len() ==> r@[k] < c@.len(),
                    forall|k: int| 0 <= k < p ==> ranks_ahead(c@[r@[k] as int], item),
                decreases r@.len() - p,
            {
                p += 1;
            }
            proof {
                assert forall|k: int| p <= k < before.len() implies ranks_ahead(item, c@[before[k] as int]) by {
                    let q = c@[before[p as int] as int];
                    assert(!ranks_ahead(q, item));
                    assert(q.0 != item.0);
                    lemma_room_order_total(q.0, item.0);
                    if k > p {
                        assert(ranks_ahead(q, c@[before[k] as int]));
                    }
                }
            }
            r.insert(p, i);
            proof {
                assert forall|k: int, l: int| 0 <= k < l < r@.len() implies ranks_ahead(
                    c@[r@[k] as int],
                    c@[r@[l] as int],
                ) by {
                    if k < p && l < p {
                        assert(r@[k] == before[k] && r@[l] == before[l]);
                    } else if k < p && l == p {
                        assert(r@[k] == before[k]);
                    } else if k < p {
                        assert(r@[k] == before[k] && r@[l] == before[l - 1]);
                    } else if k == p {
                        assert(r@[l] == before[l - 1]);
                    } else {
                        assert(r@[k] == before[k - 1] && r@[l] == before[l - 1]);
                    }
                }
                assert forall|a: int| 0 <= a < i + 1 && #[trigger] room_champion(c@, a) implies r@.contains(
                    a as usize,
                ) by {
                    if a < i {
                        let k = choose|k: int| 0 <= k < before.len() && before[k] == a as usize;
                        if k < p {
                            assert(r@[k] == a as usize);
                        } else {
                            assert(r@[k + 1] == a as usize);
                        }
                    } else {
                        assert(r@[p as int] == i);
                    }
                }
                assert forall|k: int| 0 <= k < r@.len() implies r@[k] < i + 1 && room_champion(c@, r@[k] as int) by {
                    if k < p {
                        assert(r@[k] == before[k]);
                    } else if k > p {
                        assert(r@[k] == before[k - 1]);
                    }
                }
            }
        }
        i += 1;
    }
    r
}

/// Which offense objectives to request, in candidate order: an objective
/// already in the queue is always re-asserted; a new one only while the
/// running count of offense objectives is under the cap.
pub open spec fn offense_admitted(is_new: Seq<bool>, count: u32, max: u32, i: int) -> bool {
    !(is_new[i] && count + new_admitted_before(is_new, count, max, i) >= max)
}

/// New objectives admitted among the first `i` candidates.
pub open spec fn new_admitted_before(is_new: Seq<bool>, count: u32, max: u32, i: int) -> int
    decreases i,
{
    if i <= 0 {
        0
    } else {
        let prev = new_admitted_before(is_new, count, max, i - 1);
        prev + if is_new[i - 1] && count + prev < max {
            1int
        } else {
            0int
        }
    }
}

/// Admit offense objectives under the concurrency cap.
pub fn admit_offense_objectives(is_new: &[bool], offense_count: u32, max_concurrent: u32) -> (r: Vec<bool>)
    ensures
        r@.len() == is_new@.len(),
        forall|i: int| 0 <= i < is_new@.len() ==> r@[i] == offense_admitted(is_new@, offense_count, max_concurrent, i),
{
    let mut r: Vec<bool> = Vec::new();
    let mut count: u32 = offense_count;
    let mut i: usize = 0;
    while i < is_new.len()
        invariant
            0 <= i <= is_new@.len(),
            r@.len() == i,
            count == offense_count + new_admitted_before(is_new@, offense_count, max_concurrent, i as int),
            count <= if offense_count >= max_concurrent { offense_count } else { max_concurrent },
            forall|a: int| 0 <= a < i ==> r@[a] == offense_admitted(is_new@, offense_count, max_concurrent, a),
        decreases is_new@.len() - i,
    {
        let admitted = !(is_new[i] && count >= max_concurrent);
        r.push(admitted);
        if is_new[i] && admitted {
            count = count + 1;
        }
        i += 1;
    }
    r
}

/// The offense-objective cap: one fewer than the owned rooms (at least
/// one), plus one above 100k stored energy or two above 300k.
pub open spec fn spec_max_concurrent_attacks(room_count: u32, total_stored_energy: u32) -> int {
    let base: int = if room_count >= 1 { room_count as int } else { 1 };
    let rooms: int = if base - 1 >= 1 { base - 1 } else { 1 };
    let economy: int = if total_stored_energy > 300_000 {
        2
    } else if total_stored_energy > 100_000 {
        1
    } else {
        0
    };
    rooms + economy
}

/// The offense-objective cap (see [`spec_max_concurrent_attacks`]).
pub fn max_concurrent_attacks(room_count: u32, total_stored_energy: u32) -> (r: u32)
    requires
        spec_max_concurrent_attacks(room_count, total_stored_energy) <= u32::MAX,
    ensures
        r == spec_max_concurrent_attacks(room_count, total_stored_energy),
{
    let base = if room_count >= 1 { room_count } else { 1 };
    let rooms = if base - 1 >= 1 { base - 1 } else { 1 };
    let economy: u32 = if total_stored_energy > 300_000 {
        2
    } else if total_stored_energy > 100_000 {
        1
    } else {
        0
    };
    rooms + economy
}

/// Neighbor intel older than this (ticks) is refreshed by the war
/// coordinator.
pub const NEIGHBOR_INTEL_MAX_AGE: u32 = 100;

/// Whether a neighbor of a home room needs fresh intel: no intel, or intel
/// older than [`NEIGHBOR_INTEL_MAX_AGE`].
pub fn neighbor_intel_stale(intel_age: Option<u32>) -> (r: bool)
    ensures
        r == match intel_age {
            Some(age) => age > NEIGHBOR_INTEL_MAX_AGE,
            None => true,
        },
{
    match intel_age {
        Some(age) => age > NEIGHBOR_INTEL_MAX_AGE,
        None => true,
    }
}

/// Invader-core scores on the numbers: a core above the level the war
/// chest affords (level 5 above 200k stored energy, 3 above 100k, 1 above
/// 30k, else 0) is never attacked; a reserver core (level 0) only where it
/// blocks a room we reserve or a room with sources within one hop; any
/// other core scores 60 (wanted remote) or 30, less 5 per level and 3 per
/// hop, and is attacked exactly when that is positive.
pub proof fn lemma_invader_core_score_rules(
    core_level: u8,
    min_distance: u32,
    total_stored_energy: u32,
    is_our_remote: bool,
    has_sources: bool,
)
    ensures
        ({
            let affordable: int = if total_stored_energy > 200_000 {
                5
            } else if total_stored_energy > 100_000 {
                3
            } else if total_stored_energy > 30_000 {
                1
            } else {
                0
            };
            let wanted = is_our_remote || (has_sources && min_distance <= 1);
            let score: int = (if wanted { 60int } else { 30int }) - 5 * core_level - 3 * min_distance;
            spec_invader_core_attack_score(core_level, min_distance, total_stored_energy, is_our_remote, has_sources)
                == if core_level > affordable || (core_level == 0 && !wanted) || score <= 0 {
                None
            } else {
                Some(score as u32)
            }
        }),
{
}

/// Resource-denial scores on the numbers: only a hostile player's room
/// with player creeps (not only NPCs) at player-scout threat or above, with
/// attacking players enabled, over 150k stored energy and within 6 hops,
/// scores 40 less 4 per hop, 5 per tower and 20 for safe mode; it is a
/// target exactly when that is positive.
pub proof fn lemma_resource_denial_score_rules(
    hostile_owner: bool,
    attack_players: bool,
    all_npc: bool,
    player_threat: bool,
    total_stored_energy: u32,
    min_distance: u32,
    tower_count: u32,
    has_safe_mode: bool,
)
    ensures
        ({
            let score: int = 40 - 4 * min_distance - 5 * tower_count - (if has_safe_mode { 20int } else { 0int });
            spec_resource_denial_score(
                hostile_owner,
                attack_players,
                all_npc,
                player_threat,
                total_stored_energy,
                min_distance,
                tower_count,
                has_safe_mode,
            ) == if hostile_owner && attack_players && !all_npc && player_threat && total_stored_energy > 150_000
                && min_distance <= 6 && score > 0 {
                Some(score as u32)
            } else {
                None
            }
        }),
{
}

/// The offense cap on the numbers: with two or more owned rooms one fewer
/// than their count, else one; plus two above 300k stored energy, one
/// above 100k. It is always at least one.
pub proof fn lemma_max_concurrent_attacks_rules(room_count: u32, total_stored_energy: u32)
    ensures
        spec_max_concurrent_attacks(room_count, total_stored_energy) == (if room_count >= 2 {
            room_count - 1
        } else {
            1int
        }) + (if total_stored_energy > 300_000 {
            2int
        } else if total_stored_energy > 100_000 {
            1int
        } else {
            0int
        }),
        spec_max_concurrent_attacks(room_count, total_stored_energy) >= 1,
{
}

/// The parts that warrant a defender are exactly attack, ranged attack,
/// work, claim and heal; move, carry and tough never do.
pub proof fn lemma_threatening_parts(p: Part)
    ensures
        threatening_part(p) == (p == Part::Attack || p == Part::RangedAttack || p == Part::Work || p == Part::Claim
            || p == Part::Heal),
        p == Part::Move || p == Part::Carry || p == Part::Tough ==> !threatening_part(p),
{
}

} // verus!
