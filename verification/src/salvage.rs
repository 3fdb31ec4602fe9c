//! Salvage operation policy: when the scan runs, which rooms are salvage
//! candidates, the integer cost model behind the energy gate, and the
//! cooldown ledger of rejected and admitted rooms.
use vstd::prelude::*;
use crate::geometry::RoomName;
use crate::roomdata::{RoomDynamicVisibilityData, spec_confirmed_derelict_at, spec_militarily_active, sat_sub};
use crate::utility::CREEP_LIFE_TIME;

verus! {

/// Period of the salvage scan, in ticks.
pub const SALVAGE_SCAN_PERIOD: u32 = 50;

/// Tick within the period on which the scan runs.
pub const SALVAGE_SCAN_PHASE: u32 = 10;

/// Route hops within which a salvage room with sources is strategic.
pub const STRATEGIC_OUTPOST_HOPS: u32 = 1;

/// Raider: ~10×[Carry, Move], 500 capacity for ~1000 energy.
pub const ASSUMED_RAIDER_CAPACITY: u32 = 500;

pub const ASSUMED_RAIDER_BODY_COST: u32 = 1_000;

/// Dismantler: ~10 Work with support, ~310 energy per Work part all-in.
pub const ASSUMED_DISMANTLER_WORK_PARTS: u32 = 10;

pub const ASSUMED_DISMANTLER_BODY_COST: u32 = 3_100;

/// Spawn lead on top of travel when judging decaying value.
pub const ASSUMED_SPAWN_LEAD_TICKS: u32 = 150;

/// Structure hits one WORK part dismantles per tick.
pub const DISMANTLE_POWER: u32 = 50;

/// The salvage scan runs once per period, on its phase tick.
pub fn salvage_scan_due(now: u32) -> (r: bool)
    ensures
        r == (now % SALVAGE_SCAN_PERIOD == SALVAGE_SCAN_PHASE),
{
    now % SALVAGE_SCAN_PERIOD == SALVAGE_SCAN_PHASE
}

/// A room is a salvage candidate: no source keepers, no active safe mode,
/// within `max_range` of a home room (`min_range` is the nearest home's
/// linear distance), and either a confirmed-derelict hostile room or a
/// militarily quiet, unreserved neutral room with foreign structures seen
/// within `action_max_age`.
pub fn salvage_candidate(
    d: &RoomDynamicVisibilityData,
    now: u32,
    confirm_ticks: u32,
    action_max_age: u32,
    min_range: u32,
    max_range: u32,
) -> (r: bool)
    ensures
        r == (!d.source_keeper && !(match d.safe_mode_end {
            Some(end) => now < end,
            None => false,
        }) && min_range <= max_range && if d.owner is Hostile {
            spec_confirmed_derelict_at(*d, now, confirm_ticks, action_max_age)
        } else if d.owner is Neutral {
            !(d.reservation is Hostile) && !(d.reservation is Friendly) && !spec_militarily_active(*d) && sat_sub(
                now,
                d.update_tick,
            ) <= action_max_age && d.hostile_structures
        } else {
            false
        }),
{
    if d.source_keeper() || d.safe_mode_active(now) {
        return false;
    }
    if min_range > max_range {
        return false;
    }
    if d.owner().hostile() {
        d.confirmed_derelict(now, confirm_ticks, action_max_age)
    } else if d.owner().neutral() {
        !d.reservation().hostile() && !d.reservation().friendly() && !d.militarily_active() && d.updated_within(
            now,
            action_max_age,
        ) && d.hostile_structures()
    } else {
        false
    }
}

/// A salvage room with sources within outpost reach is strategic.
pub fn salvage_strategic(has_sources: bool, travel_ticks: u32) -> (r: bool)
    ensures
        r == (has_sources && travel_ticks <= 50 * STRATEGIC_OUTPOST_HOPS),
{
    has_sources && travel_ticks <= 50 * STRATEGIC_OUTPOST_HOPS
}

/// Work a salvage room offers.
#[derive(Clone, Copy, Debug, PartialEq, Eq, Structural)]
pub struct SalvageWork {
    /// Energy lying in stores, tombstones, ruins and drops.
    pub loot_energy: u32,
    /// Other resources lying there.
    pub loot_other: u32,
    /// Structure hits to dismantle.
    pub dismantle_hits: u32,
}

impl SalvageWork {
    pub open spec fn spec_loot_total(&self) -> int {
        self.loot_energy + self.loot_other
    }

    /// All loot, minerals weighed as energy.
    pub fn loot_total(&self) -> (r: u32)
        requires
            self.spec_loot_total() <= u32::MAX,
        ensures
            r == self.spec_loot_total(),
    {
        self.loot_energy + self.loot_other
    }
}

/// `a / b`, rounded up.
pub open spec fn ceil_div(a: int, b: int) -> int {
    if a % b == 0 { a / b } else { a / b + 1 }
}

fn ceil_div_u32(a: u32, b: u32) -> (r: u32)
    requires
        b > 0,
    ensures
        r == ceil_div(a as int, b as int),
{
    let q = a / b;
    if a % b == 0 {
        q
    } else {
        assert(q < a) by (nonlinear_arith)
            requires
                b > 0,
                q == a / b,
                a % b != 0,
        {
            if b == 1 {
                assert(a % b == 0);
            }
        }
        q + 1
    }
}

/// `max(n, 1)`.
pub open spec fn at_least_one(n: int) -> int {
    if n >= 1 { n } else { 1 }
}

/// Raider lifetimes to haul `loot` over `travel_ticks`: trips of
/// [`ASSUMED_RAIDER_CAPACITY`], each a round trip plus 50 ticks of loading,
/// at least one lifetime.
pub open spec fn raid_lifetimes(loot: int, travel_ticks: int) -> int {
    at_least_one(ceil_div(ceil_div(loot, ASSUMED_RAIDER_CAPACITY as int) * (2 * travel_ticks + 50), CREEP_LIFE_TIME as int))
}

/// Dismantler lifetimes for `hits`: the work ticks over what remains of a
/// lifetime after travel (never counted under 300), at least one lifetime.
pub open spec fn dismantle_lifetimes(hits: int, travel_ticks: int) -> int {
    let work_ticks = hits / (ASSUMED_DISMANTLER_WORK_PARTS * DISMANTLE_POWER) as int;
    let left = if CREEP_LIFE_TIME >= travel_ticks { CREEP_LIFE_TIME - travel_ticks } else { 0 };
    at_least_one(ceil_div(work_ticks, if left >= 300 { left } else { 300 }))
}

/// What the energy gate weighs.
#[derive(Clone, Copy, Debug, PartialEq, Eq, Structural)]
pub enum SalvageEstimate {
    /// Nothing actionable with the enabled missions.
    NoWork,
    /// Actionable and strategic: worth it whatever the margin.
    Strategic,
    /// Value and spawn cost to weigh: `loot` at face value plus
    /// `dismantle_hits` at the dismantle refund rate, against
    /// `raid_cost + dismantle_cost` energy of creeps.
    Priced { loot: u32, raid_cost: u32, dismantle_hits: u32, dismantle_cost: u32 },
}

/// The counters of the cost model fit in `u32`.
pub open spec fn salvage_costs_fit(work: SalvageWork, travel_ticks: u32) -> bool {
    &&& work.spec_loot_total() <= u32::MAX
    &&& 2 * travel_ticks + 50 <= u32::MAX
    &&& ceil_div(work.spec_loot_total(), ASSUMED_RAIDER_CAPACITY as int) * (2 * travel_ticks + 50) <= u32::MAX
    &&& raid_lifetimes(work.spec_loot_total(), travel_ticks as int) * ASSUMED_RAIDER_BODY_COST <= u32::MAX
    &&& dismantle_lifetimes(work.dismantle_hits as int, travel_ticks as int) * ASSUMED_DISMANTLER_BODY_COST
        <= u32::MAX
}

/// Whether the cost model's counters fit for this work and travel.
pub fn salvage_costs_fit_check(work: &SalvageWork, travel_ticks: u32) -> (r: bool)
    ensures
        r == salvage_costs_fit(*work, travel_ticks),
{
    let loot: u64 = work.loot_energy as u64 + work.loot_other as u64;
    if loot > u32::MAX as u64 {
        return false;
    }
    let round_trip: u64 = 2 * travel_ticks as u64 + 50;
    if round_trip > u32::MAX as u64 {
        return false;
    }
    let trips = ceil_div_u32(loot as u32, ASSUMED_RAIDER_CAPACITY) as u64;
    assert(trips <= 8_589_935) by {
        assert(loot <= u32::MAX);
    }
    assert(trips * round_trip <= 8_589_935 * 0xffff_ffff) by (nonlinear_arith)
        requires
            trips <= 8_589_935,
            round_trip <= 0xffff_ffff,
    ;
    let hauled: u64 = trips * round_trip;
    if hauled > u32::MAX as u64 {
        return false;
    }
    let raid_lifetimes: u64 = {
        let l = ceil_div_u32(hauled as u32, CREEP_LIFE_TIME) as u64;
        if l >= 1 { l } else { 1 }
    };
    assert(raid_lifetimes <= u32::MAX);
    if raid_lifetimes * 1_000u64 > u32::MAX as u64 {
        return false;
    }
    let work_ticks = work.dismantle_hits / (ASSUMED_DISMANTLER_WORK_PARTS * DISMANTLE_POWER);
    let left = CREEP_LIFE_TIME.saturating_sub(travel_ticks);
    let effective_lifetime = if left >= 300 { left } else { 300 };
    let dismantle_lifetimes: u64 = {
        let l = ceil_div_u32(work_ticks, effective_lifetime) as u64;
        if l >= 1 { l } else { 1 }
    };
    assert(dismantle_lifetimes <= u32::MAX);
    dismantle_lifetimes * 3_100u64 <= u32::MAX as u64
}

/// Integer side of the salvage energy gate: actionable work is loot with
/// raiding enabled or hits with dismantling enabled; strategic rooms need
/// nothing more; otherwise the value and the creep energy it costs.
pub fn salvage_estimate(
    work: &SalvageWork,
    travel_ticks: u32,
    strategic: bool,
    raid_enabled: bool,
    dismantle_enabled: bool,
) -> (e: SalvageEstimate)
    requires
        salvage_costs_fit(*work, travel_ticks),
    ensures
        ({
            let loot = work.spec_loot_total();
            let lootable = raid_enabled && loot > 0;
            let dismantlable = dismantle_enabled && work.dismantle_hits > 0;
            if !lootable && !dismantlable {
                e == SalvageEstimate::NoWork
            } else if strategic {
                e == SalvageEstimate::Strategic
            } else {
                e == SalvageEstimate::Priced {
                    loot: if lootable { loot as u32 } else { 0 },
                    raid_cost: if lootable {
                        (raid_lifetimes(loot, travel_ticks as int) * ASSUMED_RAIDER_BODY_COST) as u32
                    } else {
                        0
                    },
                    dismantle_hits: if dismantlable { work.dismantle_hits } else { 0 },
                    dismantle_cost: if dismantlable {
                        (dismantle_lifetimes(work.dismantle_hits as int, travel_ticks as int)
                            * ASSUMED_DISMANTLER_BODY_COST) as u32
                    } else {
                        0
                    },
                }
            }
        }),
{
    let loot_total = work.loot_total();
    let lootable = raid_enabled && loot_total > 0;
    let dismantlable = dismantle_enabled && work.dismantle_hits > 0;
    if !lootable && !dismantlable {
        return SalvageEstimate::NoWork;
    }
    if strategic {
        return SalvageEstimate::Strategic;
    }
    let mut loot: u32 = 0;
    let mut raid_cost: u32 = 0;
    if lootable {
        loot = loot_total;
        let round_trip_ticks = 2 * travel_ticks + 50;
        let trips = ceil_div_u32(loot_total, ASSUMED_RAIDER_CAPACITY);
        let lifetimes = ceil_div_u32(trips * round_trip_ticks, CREEP_LIFE_TIME);
        let lifetimes = if lifetimes >= 1 { lifetimes } else { 1 };
        raid_cost = lifetimes * ASSUMED_RAIDER_BODY_COST;
    }
    let mut dismantle_hits: u32 = 0;
    let mut dismantle_cost: u32 = 0;
    if dismantlable {
        dismantle_hits = work.dismantle_hits;
        let work_ticks = work.dismantle_hits / (ASSUMED_DISMANTLER_WORK_PARTS * DISMANTLE_POWER);
        let left = CREEP_LIFE_TIME.saturating_sub(travel_ticks);
        let effective_lifetime = if left >= 300 { left } else { 300 };
        let lifetimes = ceil_div_u32(work_ticks, effective_lifetime);
        let lifetimes = if lifetimes >= 1 { lifetimes } else { 1 };
        dismantle_cost = lifetimes * ASSUMED_DISMANTLER_BODY_COST;
    }
    SalvageEstimate::Priced { loot, raid_cost, dismantle_hits, dismantle_cost }
}

/// A room on cooldown until `until_tick`.
#[derive(Clone, Copy, Debug, PartialEq, Eq, Structural)]
pub struct SalvageRejection {
    pub room_name: RoomName,
    pub until_tick: u32,
}

/// Rooms on salvage cooldown, and rooms with a salvage mission admitted.
#[derive(Clone, Debug)]
pub struct SalvageLedger {
    pub rejected: Vec<SalvageRejection>,
    pub admitted: Vec<RoomName>,
}

/// The rejection is still in force at `now`.
pub open spec fn rejection_live(r: SalvageRejection, now: u32) -> bool {
    r.until_tick > now
}

impl SalvageLedger {
    pub fn new() -> (l: SalvageLedger)
        ensures
            l.rejected@.len() == 0,
            l.admitted@.len() == 0,
    {
        SalvageLedger { rejected: Vec::new(), admitted: Vec::new() }
    }

    /// Drop the rejections whose cooldown has run out.
    pub fn expire_rejections(&mut self, now: u32)
        ensures
            final(self).rejected@ == old(self).rejected@.filter(|r: SalvageRejection| rejection_live(r, now)),
            final(self).admitted@ == old(self).admitted@,
    {
        let mut kept: Vec<SalvageRejection> = Vec::new();
        let mut i: usize = 0;
        while i < self.rejected.len()
            invariant
                0 <= i <= old(self).rejected@.len(),
                self.rejected@ == old(self).rejected@,
                self.admitted@ == old(self).admitted@,
                kept@ == old(self).rejected@.take(i as int).filter(|r: SalvageRejection| rejection_live(r, now)),
            decreases old(self).rejected@.len() - i,
        {
            proof {
                reveal(Seq::filter);
                assert(old(self).rejected@.take(i as int + 1).drop_last() =~= old(self).rejected@.take(i as int));
            }
            let r = self.rejected[i];
            if r.until_tick > now {
                kept.push(r);
            }
            i += 1;
        }
        proof {
            assert(old(self).rejected@.take(old(self).rejected@.len() as int) =~= old(self).rejected@);
        }
        self.rejected = kept;
    }

    /// `room` is on cooldown.
    pub fn is_rejected(&self, room: RoomName) -> (r: bool)
        ensures
            r == exists|i: int| 0 <= i < self.rejected@.len() && (#[trigger] self.rejected@[i]).room_name == room,
    {
        let mut i: usize = 0;
        while i < self.rejected.len()
            invariant
                0 <= i <= self.rejected@.len(),
                forall|a: int| 0 <= a < i ==> (#[trigger] self.rejected@[a]).room_name != room,
            decreases self.rejected@.len() - i,
        {
            if self.rejected[i].room_name == room {
                return true;
            }
            i += 1;
        }
        false
    }

    /// Put `room` on cooldown for `cooldown` ticks from `now`.
    pub fn reject(&mut self, room: RoomName, now: u32, cooldown: u32)
        requires
            now + cooldown <= u32::MAX,
        ensures
            final(self).rejected@ == old(self).rejected@.push(
                SalvageRejection { room_name: room, until_tick: (now + cooldown) as u32 },
            ),
            final(self).admitted@ == old(self).admitted@,
    {
        self.rejected.push(SalvageRejection { room_name: room, until_tick: now + cooldown });
    }

    /// A salvage mission was started for `room`.
    pub fn record_admission(&mut self, room: RoomName)
        ensures
            final(self).admitted@ == old(self).admitted@.push(room),
            final(self).rejected@ == old(self).rejected@,
    {
        self.admitted.push(room);
    }

    /// Admitted rooms whose mission has ended (no longer among
    /// `active_rooms`) go on cooldown for `cooldown` ticks, in order.
    pub fn close_ended(&mut self, active_rooms: &[RoomName], now: u32, cooldown: u32)
        requires
            now + cooldown <= u32::MAX,
        ensures
            final(self).admitted@ == old(self).admitted@.filter(|r: RoomName| active_rooms@.contains(r)),
            final(self).rejected@ == old(self).rejected@ + old(self).admitted@.filter(
                |r: RoomName| !active_rooms@.contains(r),
            ).map_values(|r: RoomName| SalvageRejection { room_name: r, until_tick: (now + cooldown) as u32 }),
    {
        let ghost old_admitted = self.admitted@;
        let ghost old_rejected = self.rejected@;
        let mut kept: Vec<RoomName> = Vec::new();
        let mut i: usize = 0;
        while i < self.admitted.len()
            invariant
                0 <= i <= old_admitted.len(),
                self.admitted@ == old_admitted,
                old_admitted == old(self).admitted@,
                old_rejected == old(self).rejected@,
                now + cooldown <= u32::MAX,
                kept@ == old_admitted.take(i as int).filter(|r: RoomName| active_rooms@.contains(r)),
                self.rejected@ == old_rejected + old_admitted.take(i as int).filter(
                    |r: RoomName| !active_rooms@.contains(r),
                ).map_values(|r: RoomName| SalvageRejection { room_name: r, until_tick: (now + cooldown) as u32 }),
            decreases old_admitted.len() - i,
        {
            proof {
                reveal(Seq::filter);
                assert(old_admitted.take(i as int + 1).drop_last() =~= old_admitted.take(i as int));
            }
            let room = self.admitted[i];
            if contains_room(active_rooms, room) {
                kept.push(room);
            } else {
                self.rejected.push(SalvageRejection { room_name: room, until_tick: now + cooldown });
            }
            proof {
                let f = |r: RoomName| SalvageRejection { room_name: r, until_tick: (now + cooldown) as u32 };
                let ended_before = old_admitted.take(i as int).filter(|r: RoomName| !active_rooms@.contains(r));
                let ended_after = old_admitted.take(i as int + 1).filter(|r: RoomName| !active_rooms@.contains(r));
                if !active_rooms@.contains(room) {
                    assert(ended_after == ended_before.push(room));
                    assert(ended_after.map_values(f) =~= ended_before.map_values(f).push(f(room)));
                } else {
                    assert(ended_after == ended_before);
                }
            }
            i += 1;
        }
        proof {
            assert(old_admitted.take(old_admitted.len() as int) =~= old_admitted);
        }
        self.admitted = kept;
    }
}

/// A rejection holds for exactly its cooldown: expiring the ledger at any
/// tick before `now + cooldown` keeps it, and at that tick or later drops
/// it.
pub proof fn lemma_rejection_lasts_its_cooldown(
    rejected: Seq<SalvageRejection>,
    room: RoomName,
    now: u32,
    cooldown: u32,
    t: u32,
)
    requires
        now + cooldown <= u32::MAX,
    ensures
        ({
            let r = SalvageRejection { room_name: room, until_tick: (now + cooldown) as u32 };
            rejected.push(r).filter(|x: SalvageRejection| rejection_live(x, t)).contains(r) <==> t < now + cooldown
        }),
{
    let r = SalvageRejection { room_name: room, until_tick: (now + cooldown) as u32 };
    let pred = |x: SalvageRejection| rejection_live(x, t);
    reveal_with_fuel(Seq::<_>::filter, 1);
    assert(rejected.push(r).drop_last() =~= rejected);
    if t < now + cooldown {
        let f = rejected.push(r).filter(pred);
        assert(f[f.len() - 1] == r);
    } else {
        rejected.filter_lemma(pred);
        let f = rejected.push(r).filter(pred);
        if f.contains(r) {
            let i = choose|i: int| 0 <= i < f.len() && f[i] == r;
            assert(pred(f[i]));
        }
    }
}

/// Free mission slots: the cap less the missions running, floored at 0.
pub fn salvage_slots(max_missions: u32, running: usize) -> (r: usize)
    ensures
        r == if running <= max_missions { max_missions - running } else { 0 },
{
    let cap = max_missions as usize;
    if running <= cap {
        cap - running
    } else {
        0
    }
}

fn contains_room(rooms: &[RoomName], room: RoomName) -> (r: bool)
    ensures
        r == rooms@.contains(room),
{
    let mut i: usize = 0;
    while i < rooms.len()
        invariant
            0 <= i <= rooms@.len(),
            forall|a: int| 0 <= a < i ==> rooms@[a] != room,
        decreases rooms@.len() - i,
    {
        if rooms[i] == room {
            assert(rooms@[i as int] == room);
            return true;
        }
        i += 1;
    }
    false
}

} // verus!
