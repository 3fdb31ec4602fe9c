//! Cached per-room intel and the derelict-room classification built on it.
//!
//! The intel is a snapshot taken when the room was last visible; every
//! question that depends on the current tick takes it as `now`.
use vstd::prelude::*;
use crate::war::Part;

verus! {

/// Who holds a room's controller or reservation.
#[derive(Clone, Debug, PartialEq, Eq)]
pub enum RoomDisposition {
    Neutral,
    Mine,
    Friendly(String),
    Hostile(String),
}

/// The same holder (same kind, same player name).
pub open spec fn same_disposition(a: RoomDisposition, b: RoomDisposition) -> bool {
    match (a, b) {
        (RoomDisposition::Neutral, RoomDisposition::Neutral) => true,
        (RoomDisposition::Mine, RoomDisposition::Mine) => true,
        (RoomDisposition::Friendly(x), RoomDisposition::Friendly(y)) => x@ == y@,
        (RoomDisposition::Hostile(x), RoomDisposition::Hostile(y)) => x@ == y@,
        _ => false,
    }
}

impl RoomDisposition {
    pub fn neutral(&self) -> (r: bool)
        ensures
            r == (*self is Neutral),
    {
        match self {
            RoomDisposition::Neutral => true,
            _ => false,
        }
    }

    pub fn mine(&self) -> (r: bool)
        ensures
            r == (*self is Mine),
    {
        match self {
            RoomDisposition::Mine => true,
            _ => false,
        }
    }

    pub fn hostile(&self) -> (r: bool)
        ensures
            r == (*self is Hostile),
    {
        match self {
            RoomDisposition::Hostile(_) => true,
            _ => false,
        }
    }

    pub fn friendly(&self) -> (r: bool)
        ensures
            r == (*self is Friendly),
    {
        match self {
            RoomDisposition::Friendly(_) => true,
            _ => false,
        }
    }

    /// Display text: `Neutral`, `Mine`, `Friendly: <name>` or
    /// `Hostile: <name>`.
    pub fn describe(&self) -> (r: String)
        ensures
            r@ == match *self {
                RoomDisposition::Neutral => "Neutral"@,
                RoomDisposition::Mine => "Mine"@,
                RoomDisposition::Friendly(name) => "Friendly: "@ + name@,
                RoomDisposition::Hostile(name) => "Hostile: "@ + name@,
            },
    {
        match self {
            RoomDisposition::Neutral => String::from_str("Neutral"),
            RoomDisposition::Mine => String::from_str("Mine"),
            RoomDisposition::Friendly(name) => String::from_str("Friendly: ").concat(name.as_str()),
            RoomDisposition::Hostile(name) => String::from_str("Hostile: ").concat(name.as_str()),
        }
    }

    /// The same holder as `other`.
    pub fn same_as(&self, other: &RoomDisposition) -> (r: bool)
        ensures
            r == same_disposition(*self, *other),
    {
        match (self, other) {
            (RoomDisposition::Neutral, RoomDisposition::Neutral) => true,
            (RoomDisposition::Mine, RoomDisposition::Mine) => true,
            (RoomDisposition::Friendly(x), RoomDisposition::Friendly(y)) => *x == *y,
            (RoomDisposition::Hostile(x), RoomDisposition::Hostile(y)) => *x == *y,
            _ => false,
        }
    }
}

/// A controller sign: who signed it, and what it says.
#[derive(Clone, Debug)]
pub struct RoomSign {
    pub user: RoomDisposition,
    pub message: String,
}

impl RoomSign {
    pub fn user(&self) -> (r: &RoomDisposition)
        ensures
            *r == self.user,
    {
        &self.user
    }

    pub fn message(&self) -> (r: &String)
        ensures
            *r == self.message,
    {
        &self.message
    }
}

/// What was seen in a room the last time it was visible.
#[derive(Clone, Debug)]
pub struct RoomDynamicVisibilityData {
    /// Tick of the last sighting.
    pub update_tick: u32,
    pub owner: RoomDisposition,
    pub reservation: RoomDisposition,
    pub source_keeper: bool,
    pub sign: Option<RoomSign>,
    /// Hostile creeps with combat parts (attack / ranged attack / work).
    pub hostile_creeps: bool,
    pub hostile_structures: bool,
    /// Non-mine ACTIVE spawns present.
    pub hostile_spawns: bool,
    /// Non-mine ACTIVE towers with enough energy to fire.
    pub hostile_towers: bool,
    /// Hostile creeps with ANY part beyond Move/Tough.
    pub hostile_threat_creeps: bool,
    /// A tower not ours stands in the room (active or not, fueled or not):
    /// its fire reaches the room edge.
    pub hostile_tower_present: bool,
    /// Absolute tick at which the controller's safe mode ends, if it was
    /// active when last observed.
    pub safe_mode_end: Option<u32>,
    /// Controller level when last observed (0 = unowned).
    pub controller_level: Option<u8>,
    /// Controller downgrade timer when last observed.
    pub controller_ticks_to_downgrade: Option<u32>,
    /// Tick at which the room was first observed derelict, carried forward
    /// while the classification holds. `None` = not currently derelict.
    pub derelict_since: Option<u32>,
}

/// `a - b`, floored at 0.
pub open spec fn sat_sub(a: u32, b: u32) -> int {
    if a >= b { a - b } else { 0 }
}

/// Any observed military capability.
pub open spec fn spec_militarily_active(d: RoomDynamicVisibilityData) -> bool {
    d.hostile_creeps || d.hostile_spawns || d.hostile_towers
}

/// Hostile-owned but militarily dead, and nobody servicing it.
pub open spec fn spec_derelict(d: RoomDynamicVisibilityData) -> bool {
    d.owner is Hostile && !spec_militarily_active(d) && !d.hostile_threat_creeps
}

/// Derelict over an observed span of at least `confirm_ticks`, with intel no
/// older than `max_age`.
pub open spec fn spec_confirmed_derelict_at(
    d: RoomDynamicVisibilityData,
    now: u32,
    confirm_ticks: u32,
    max_age: u32,
) -> bool {
    &&& spec_derelict(d)
    &&& sat_sub(now, d.update_tick) <= max_age
    &&& match d.derelict_since {
        Some(since) => sat_sub(d.update_tick, since) >= confirm_ticks,
        None => false,
    }
}

/// A sighting now would confirm a derelict room that is not confirmed yet.
pub open spec fn spec_derelict_sighting_due_at(
    d: RoomDynamicVisibilityData,
    now: u32,
    confirm_ticks: u32,
    max_age: u32,
) -> bool {
    &&& spec_derelict(d)
    &&& match d.derelict_since {
        Some(since) => sat_sub(now, since) >= confirm_ticks,
        None => false,
    }
    &&& !spec_confirmed_derelict_at(d, now, confirm_ticks, max_age)
}

/// The same intel, as a fresh sighting at `now` that changed nothing else.
pub open spec fn sighted_at(d: RoomDynamicVisibilityData, now: u32) -> RoomDynamicVisibilityData {
    RoomDynamicVisibilityData { update_tick: now, ..d }
}

impl RoomDynamicVisibilityData {
    pub fn last_updated(&self) -> (r: u32)
        ensures
            r == self.update_tick,
    {
        self.update_tick
    }

    /// Ticks since the last sighting.
    pub fn age(&self, now: u32) -> (r: u32)
        ensures
            r == sat_sub(now, self.update_tick),
    {
        now.saturating_sub(self.update_tick)
    }

    /// Seen this tick.
    pub fn visible(&self, now: u32) -> (r: bool)
        ensures
            r == (sat_sub(now, self.update_tick) == 0),
    {
        self.age(now) == 0
    }

    /// Seen within the last `ticks` ticks.
    pub fn updated_within(&self, now: u32, ticks: u32) -> (r: bool)
        ensures
            r == (sat_sub(now, self.update_tick) <= ticks),
    {
        self.age(now) <= ticks
    }

    pub fn owner(&self) -> (r: &RoomDisposition)
        ensures
            *r == self.owner,
    {
        &self.owner
    }

    pub fn reservation(&self) -> (r: &RoomDisposition)
        ensures
            *r == self.reservation,
    {
        &self.reservation
    }

    pub fn source_keeper(&self) -> (r: bool)
        ensures
            r == self.source_keeper,
    {
        self.source_keeper
    }

    pub fn sign(&self) -> (r: &Option<RoomSign>)
        ensures
            *r == self.sign,
    {
        &self.sign
    }

    pub fn hostile_creeps(&self) -> (r: bool)
        ensures
            r == self.hostile_creeps,
    {
        self.hostile_creeps
    }

    pub fn hostile_structures(&self) -> (r: bool)
        ensures
            r == self.hostile_structures,
    {
        self.hostile_structures
    }

    pub fn hostile_spawns(&self) -> (r: bool)
        ensures
            r == self.hostile_spawns,
    {
        self.hostile_spawns
    }

    pub fn hostile_towers(&self) -> (r: bool)
        ensures
            r == self.hostile_towers,
    {
        self.hostile_towers
    }

    pub fn hostile_tower_present(&self) -> (r: bool)
        ensures
            r == self.hostile_tower_present,
    {
        self.hostile_tower_present
    }

    pub fn hostile_threat_creeps(&self) -> (r: bool)
        ensures
            r == self.hostile_threat_creeps,
    {
        self.hostile_threat_creeps
    }

    /// Safe mode active as of `now` (safe mode runs on a fixed timer, so the
    /// last observation extrapolates).
    pub fn safe_mode_active(&self, now: u32) -> (r: bool)
        ensures
            r == match self.safe_mode_end {
                Some(end) => now < end,
                None => false,
            },
    {
        match self.safe_mode_end {
            Some(end) => now < end,
            None => false,
        }
    }

    pub fn controller_level(&self) -> (r: Option<u8>)
        ensures
            r == self.controller_level,
    {
        self.controller_level
    }

    pub fn controller_ticks_to_downgrade(&self) -> (r: Option<u32>)
        ensures
            r == self.controller_ticks_to_downgrade,
    {
        self.controller_ticks_to_downgrade
    }

    /// Earliest tick at which the controller could drop a level.
    pub fn predicted_downgrade_tick(&self) -> (r: Option<u32>)
        ensures
            r == match self.controller_ticks_to_downgrade {
                Some(ttd) => Some(
                    if self.update_tick + ttd <= u32::MAX {
                        (self.update_tick + ttd) as u32
                    } else {
                        u32::MAX
                    },
                ),
                None => None,
            },
    {
        match self.controller_ticks_to_downgrade {
            Some(ttd) => Some(self.update_tick.saturating_add(ttd)),
            None => None,
        }
    }

    /// Combat-capable creeps, active spawns or armed active towers.
    pub fn militarily_active(&self) -> (r: bool)
        ensures
            r == spec_militarily_active(*self),
    {
        self.hostile_creeps || self.hostile_spawns || self.hostile_towers
    }

    /// Claimed by another player but dead: no military capability and no
    /// threat-capable creeps.
    pub fn derelict(&self) -> (r: bool)
        ensures
            r == spec_derelict(*self),
    {
        self.owner.hostile() && !self.militarily_active() && !self.hostile_threat_creeps
    }

    /// Observed span the derelict classification has held.
    pub fn derelict_for(&self) -> (r: Option<u32>)
        ensures
            r == match self.derelict_since {
                Some(since) => Some(sat_sub(self.update_tick, since) as u32),
                None => None,
            },
    {
        match self.derelict_since {
            Some(since) => Some(self.update_tick.saturating_sub(since)),
            None => None,
        }
    }

    /// Derelict, observed so over a span of at least `confirm_ticks`, with
    /// intel no older than `max_age` as of `now`.
    pub fn confirmed_derelict(&self, now: u32, confirm_ticks: u32, max_age: u32) -> (r: bool)
        ensures
            r == spec_confirmed_derelict_at(*self, now, confirm_ticks, max_age),
    {
        self.confirmed_derelict_at(now, confirm_ticks, max_age)
    }

    /// Derelict, observed so over a span of at least `confirm_ticks`, with
    /// intel no older than `max_age` as of `now`.
    pub fn confirmed_derelict_at(&self, now: u32, confirm_ticks: u32, max_age: u32) -> (r: bool)
        ensures
            r == spec_confirmed_derelict_at(*self, now, confirm_ticks, max_age),
    {
        self.derelict() && now.saturating_sub(self.update_tick) <= max_age && match self.derelict_for() {
            Some(held) => held >= confirm_ticks,
            None => false,
        }
    }

    /// A sighting NOW would tip the derelict pipeline over its confirm
    /// threshold, and the classification is not already confirmed with
    /// actionable-age intel.
    pub fn derelict_sighting_due_at(&self, now: u32, confirm_ticks: u32, max_age: u32) -> (r: bool)
        ensures
            r == spec_derelict_sighting_due_at(*self, now, confirm_ticks, max_age),
    {
        self.derelict() && match self.derelict_since {
            Some(since) => now.saturating_sub(since) >= confirm_ticks,
            None => false,
        } && !self.confirmed_derelict_at(now, confirm_ticks, max_age)
    }
}

/// The derelict-since mark after a sighting at `now`: kept only while the
/// room stays derelict under the same hostile owner; an ownership change
/// restarts the clock; a non-derelict sighting clears it.
pub open spec fn spec_next_derelict_since(
    derelict_now: bool,
    owner_now: RoomDisposition,
    previous_owner: Option<RoomDisposition>,
    previous_since: Option<u32>,
    now: u32,
) -> Option<u32> {
    if !derelict_now {
        None
    } else if previous_owner matches Some(p) && same_disposition(p, owner_now) {
        match previous_since {
            Some(s) => Some(s),
            None => Some(now),
        }
    } else {
        Some(now)
    }
}

/// The derelict-since mark after a sighting at `now`.
pub fn next_derelict_since(
    derelict_now: bool,
    owner_now: &RoomDisposition,
    previous_owner: Option<&RoomDisposition>,
    previous_since: Option<u32>,
    now: u32,
) -> (r: Option<u32>)
    ensures
        r == spec_next_derelict_since(
            derelict_now,
            *owner_now,
            match previous_owner {
                Some(p) => Some(*p),
                None => None,
            },
            previous_since,
            now,
        ),
{
    if !derelict_now {
        return None;
    }
    let same_owner = match previous_owner {
        Some(previous) => previous.same_as(owner_now),
        None => false,
    };
    if same_owner {
        match previous_since {
            Some(s) => Some(s),
            None => Some(now),
        }
    } else {
        Some(now)
    }
}

/// Due and confirmed never hold together: confirmed intel never asks for
/// more eyes.
pub proof fn lemma_due_excludes_confirmed(
    d: RoomDynamicVisibilityData,
    now: u32,
    confirm_ticks: u32,
    max_age: u32,
)
    ensures
        !(spec_derelict_sighting_due_at(d, now, confirm_ticks, max_age) && spec_confirmed_derelict_at(
            d,
            now,
            confirm_ticks,
            max_age,
        )),
{
}

/// Whenever a sighting is due, a sighting at `now` that finds the room
/// unchanged (same derelict owner, mark carried forward) confirms it: the
/// request is never wasted.
pub proof fn lemma_due_sighting_confirms(
    d: RoomDynamicVisibilityData,
    now: u32,
    confirm_ticks: u32,
    max_age: u32,
)
    requires
        spec_derelict_sighting_due_at(d, now, confirm_ticks, max_age),
    ensures
        spec_confirmed_derelict_at(sighted_at(d, now), now, confirm_ticks, max_age),
{
}

/// Confirmation needs an observed span, not elapsed wall-clock time: a room
/// whose only derelict sighting is its latest one is never confirmed,
/// however long ago that was.
pub proof fn lemma_single_sighting_never_confirms(
    d: RoomDynamicVisibilityData,
    now: u32,
    confirm_ticks: u32,
    max_age: u32,
)
    requires
        d.derelict_since == Some(d.update_tick),
        confirm_ticks > 0,
    ensures
        !spec_confirmed_derelict_at(d, now, confirm_ticks, max_age),
{
}

/// A carried derelict mark never postdates the sighting that carries it
/// forward, when the previous mark did not.
pub proof fn lemma_next_derelict_since_not_after_now(
    derelict_now: bool,
    owner_now: RoomDisposition,
    previous_owner: Option<RoomDisposition>,
    previous_since: Option<u32>,
    now: u32,
)
    requires
        previous_since matches Some(s) ==> s <= now,
    ensures
        spec_next_derelict_since(derelict_now, owner_now, previous_owner, previous_since, now) matches Some(
            s,
        ) ==> s <= now,
{
}

/// Terrain mask bit of a wall tile.
pub const TERRAIN_MASK_WALL: u8 = 1;

/// Terrain mask bit of a swamp tile.
pub const TERRAIN_MASK_SWAMP: u8 = 2;

pub open spec fn is_wall_mask(m: u8) -> bool {
    m % 2 == 1
}

pub open spec fn is_swamp_mask(m: u8) -> bool {
    (m / 2) % 2 == 1
}

/// Number of masks in `s` matching `p`.
pub open spec fn count_masks(s: Seq<u8>, p: spec_fn(u8) -> bool) -> nat
    decreases s.len(),
{
    if s.len() == 0 {
        0
    } else {
        count_masks(s.drop_last(), p) + if p(s.last()) {
            1nat
        } else {
            0nat
        }
    }
}

/// Tile counts of a room's terrain.
#[derive(Clone, Copy, Debug)]
pub struct RoomTerrainStatistics {
    walkable_tiles: u32,
    swamp_tiles: u32,
    plain_tiles: u32,
    wall_tiles: u32,
}

impl RoomTerrainStatistics {
    pub closed spec fn spec_walkable(self) -> nat {
        self.walkable_tiles as nat
    }

    pub closed spec fn spec_swamp(self) -> nat {
        self.swamp_tiles as nat
    }

    pub closed spec fn spec_plain(self) -> nat {
        self.plain_tiles as nat
    }

    pub closed spec fn spec_wall(self) -> nat {
        self.wall_tiles as nat
    }

    /// Count a room's tiles from its terrain masks (one per tile, bit 0 =
    /// wall, bit 1 = swamp): walls; everything else is walkable, split into
    /// swamps and plains.
    pub fn from_terrain(terrain: &Vec<u8>) -> (r: RoomTerrainStatistics)
        requires
            terrain@.len() == 2500,
        ensures
            r.spec_wall() == count_masks(terrain@, |m: u8| is_wall_mask(m)),
            r.spec_swamp() == count_masks(terrain@, |m: u8| !is_wall_mask(m) && is_swamp_mask(m)),
            r.spec_plain() == count_masks(terrain@, |m: u8| !is_wall_mask(m) && !is_swamp_mask(m)),
            r.spec_walkable() == count_masks(terrain@, |m: u8| !is_wall_mask(m)),
            r.spec_walkable() == r.spec_swamp() + r.spec_plain(),
            r.spec_walkable() + r.spec_wall() == 2500,
    {
        let ghost wall = |m: u8| is_wall_mask(m);
        let ghost swamp = |m: u8| !is_wall_mask(m) && is_swamp_mask(m);
        let ghost plain = |m: u8| !is_wall_mask(m) && !is_swamp_mask(m);
        let ghost walk = |m: u8| !is_wall_mask(m);
        let mut walkable_tiles: u32 = 0;
        let mut swamp_tiles: u32 = 0;
        let mut plain_tiles: u32 = 0;
        let mut wall_tiles: u32 = 0;
        let mut i: usize = 0;
        while i < terrain.len()
            invariant
                0 <= i <= terrain@.len(),
                terrain@.len() == 2500,
                wall == (|m: u8| is_wall_mask(m)),
                swamp == (|m: u8| !is_wall_mask(m) && is_swamp_mask(m)),
                plain == (|m: u8| !is_wall_mask(m) && !is_swamp_mask(m)),
                walk == (|m: u8| !is_wall_mask(m)),
                wall_tiles == count_masks(terrain@.take(i as int), wall),
                swamp_tiles == count_masks(terrain@.take(i as int), swamp),
                plain_tiles == count_masks(terrain@.take(i as int), plain),
                walkable_tiles == count_masks(terrain@.take(i as int), walk),
                walkable_tiles == swamp_tiles + plain_tiles,
                walkable_tiles + wall_tiles == i,
            decreases terrain@.len() - i,
        {
            let m = terrain[i];
            proof {
                assert(terrain@.take(i as int + 1).drop_last() =~= terrain@.take(i as int));
                assert(terrain@.take(i as int + 1).last() == m);
                assert(m & 1 == m % 2) by (bit_vector);
                assert(m & 2 == 2 * ((m / 2) % 2)) by (bit_vector);
            }
            if m & TERRAIN_MASK_WALL != 0 {
                wall_tiles += 1;
            } else {
                walkable_tiles += 1;
                if m & TERRAIN_MASK_SWAMP != 0 {
                    swamp_tiles += 1;
                } else {
                    plain_tiles += 1;
                }
            }
            i += 1;
        }
        proof {
            assert(terrain@.take(2500) =~= terrain@);
        }
        RoomTerrainStatistics { walkable_tiles, swamp_tiles, plain_tiles, wall_tiles }
    }

    pub fn walkable_tiles(&self) -> (r: u32)
        ensures
            r == self.spec_walkable(),
    {
        self.walkable_tiles
    }

    pub fn swamp_tiles(&self) -> (r: u32)
        ensures
            r == self.spec_swamp(),
    {
        self.swamp_tiles
    }

    pub fn plain_tiles(&self) -> (r: u32)
        ensures
            r == self.spec_plain(),
    {
        self.plain_tiles
    }

    pub fn wall_tiles(&self) -> (r: u32)
        ensures
            r == self.spec_wall(),
    {
        self.wall_tiles
    }
}


/// What a pile of loot on the floor holds: its energy and all its resources
/// together (a dropped resource of another kind holds no energy).
#[derive(Clone, Copy, Debug, PartialEq, Eq, Structural)]
pub struct LootPile {
    pub energy: u32,
    pub total: u32,
}

/// What a pile counts: its energy, or everything it holds.
pub open spec fn pile_amount(p: LootPile, energy_only: bool) -> u32 {
    if energy_only { p.energy } else { p.total }
}

/// Sum over the piles of what each counts.
pub open spec fn pile_sum(piles: Seq<LootPile>, energy_only: bool) -> nat
    decreases piles.len(),
{
    if piles.len() == 0 {
        0
    } else {
        pile_sum(piles.drop_last(), energy_only) + pile_amount(piles.last(), energy_only) as nat
    }
}

proof fn lemma_pile_sum_prefix(piles: Seq<LootPile>, energy_only: bool, i: int)
    requires
        0 <= i <= piles.len(),
    ensures
        pile_sum(piles.take(i), energy_only) <= pile_sum(piles, energy_only),
    decreases piles.len() - i,
{
    if i < piles.len() {
        lemma_pile_sum_prefix(piles, energy_only, i + 1);
        assert(piles.take(i + 1).drop_last() =~= piles.take(i));
    } else {
        assert(piles.take(i) =~= piles);
    }
}

fn sum_piles(piles: &Vec<LootPile>, energy_only: bool) -> (r: u32)
    requires
        pile_sum(piles@, energy_only) <= u32::MAX,
    ensures
        r == pile_sum(piles@, energy_only),
{
    let mut total: u32 = 0;
    let mut i: usize = 0;
    while i < piles.len()
        invariant
            0 <= i <= piles@.len(),
            pile_sum(piles@, energy_only) <= u32::MAX,
            total == pile_sum(piles@.take(i as int), energy_only),
        decreases piles@.len() - i,
    {
        proof {
            assert(piles@.take(i as int + 1).drop_last() =~= piles@.take(i as int));
            lemma_pile_sum_prefix(piles@, energy_only, i as int + 1);
        }
        let p = piles[i];
        let v = if energy_only { p.energy } else { p.total };
        total = total + v;
        i += 1;
    }
    proof {
        assert(piles@.take(piles@.len() as int) =~= piles@);
    }
    total
}

/// Dropped resources, tombstones and ruins last seen in a room, each by
/// what it holds.
#[derive(Clone, Debug)]
pub struct DroppedResourceData {
    pub last_updated: u32,
    pub resources: Vec<LootPile>,
    pub tombstones: Vec<LootPile>,
    pub ruins: Vec<LootPile>,
}

impl DroppedResourceData {
    /// What all three kinds of pile count together.
    pub open spec fn spec_total(&self, energy_only: bool) -> nat {
        pile_sum(self.resources@, energy_only) + pile_sum(self.tombstones@, energy_only) + pile_sum(
            self.ruins@,
            energy_only,
        )
    }

    /// Total energy available from all dropped resources, tombstones, and
    /// ruins.
    pub fn total_energy(&self) -> (r: u32)
        requires
            self.spec_total(true) <= u32::MAX,
        ensures
            r == self.spec_total(true),
    {
        let a = sum_piles(&self.resources, true);
        let b = sum_piles(&self.tombstones, true);
        let c = sum_piles(&self.ruins, true);
        a + b + c
    }

    /// Total of all lootable resources (all types).
    pub fn total_loot_value(&self) -> (r: u32)
        requires
            self.spec_total(false) <= u32::MAX,
        ensures
            r == self.spec_total(false),
    {
        let a = sum_piles(&self.resources, false);
        let b = sum_piles(&self.tombstones, false);
        let c = sum_piles(&self.ruins, false);
        a + b + c
    }
}


/// How a player name relates to us: our own name is us; any other name is
/// a hostile player.
pub open spec fn spec_disposition(name: String, username: String) -> RoomDisposition {
    if name@ == username@ {
        RoomDisposition::Mine
    } else {
        RoomDisposition::Hostile(name)
    }
}

/// Classify a player name against our own `username`.
pub fn name_to_disposition(name: String, username: &String) -> (r: RoomDisposition)
    ensures
        r == spec_disposition(name, *username),
{
    if name == *username {
        RoomDisposition::Mine
    } else {
        RoomDisposition::Hostile(name)
    }
}

/// Classify an optional holder: nobody is neutral.
pub fn name_option_to_disposition(name: Option<String>, username: &String) -> (r: RoomDisposition)
    ensures
        r == match name {
            Some(n) => spec_disposition(n, *username),
            None => RoomDisposition::Neutral,
        },
{
    match name {
        Some(n) => name_to_disposition(n, username),
        None => RoomDisposition::Neutral,
    }
}

/// Energy a tower spends per action.
pub const TOWER_ENERGY_COST: u32 = 10;

/// What a visible room shows this tick, as plain values.
pub struct RoomObservation {
    /// Controller owner's name, if owned.
    pub owner_name: Option<String>,
    /// Controller reservation holder's name, if reserved.
    pub reservation_name: Option<String>,
    /// Controller sign: signer's name and text.
    pub sign: Option<(String, String)>,
    /// The room has source-keeper lairs.
    pub has_keeper_lairs: bool,
    /// Body part types of each hostile creep.
    pub hostile_bodies: Vec<Vec<Part>>,
    /// Each ownable structure other than a keeper lair: `(has_owner, mine)`.
    pub owned_structures: Vec<(bool, bool)>,
    /// Each spawn: `(mine, active)`.
    pub spawns: Vec<(bool, bool)>,
    /// Each tower: `(mine, active, energy)`.
    pub towers: Vec<(bool, bool, u32)>,
    /// Ticks of safe mode left, if active.
    pub safe_mode_remaining: Option<u32>,
    pub controller_level: Option<u8>,
    pub controller_ticks_to_downgrade: Option<u32>,
}

/// A hostile body part that makes a creep combat-capable.
pub open spec fn combat_part(p: Part) -> bool {
    p == Part::Attack || p == Part::RangedAttack || p == Part::Work
}

/// A hostile body part beyond MOVE and TOUGH.
pub open spec fn threat_part(p: Part) -> bool {
    p != Part::Move && p != Part::Tough
}

/// Some hostile creep has a part satisfying `combat` (combat parts) or,
/// without it, any threat part.
pub open spec fn any_hostile_part(bodies: Seq<Vec<Part>>, combat: bool) -> bool {
    exists|i: int, j: int|
        0 <= i < bodies.len() && 0 <= j < bodies[i]@.len() && if combat {
            combat_part(#[trigger] bodies[i]@[j])
        } else {
            threat_part(bodies[i]@[j])
        }
}

fn scan_hostile_parts(bodies: &Vec<Vec<Part>>, combat: bool) -> (r: bool)
    ensures
        r == any_hostile_part(bodies@, combat),
{
    let mut i: usize = 0;
    while i < bodies.len()
        invariant
            0 <= i <= bodies@.len(),
            forall|a: int, j: int|
                0 <= a < i && 0 <= j < bodies@[a]@.len() ==> !(if combat {
                    combat_part(#[trigger] bodies@[a]@[j])
                } else {
                    threat_part(bodies@[a]@[j])
                }),
        decreases bodies@.len() - i,
    {
        let body = &bodies[i];
        let mut j: usize = 0;
        while j < body.len()
            invariant
                0 <= j <= body@.len(),
                0 <= i < bodies@.len(),
                body@ == bodies@[i as int]@,
                forall|b: int| 0 <= b < j ==> !(if combat {
                    combat_part(#[trigger] body@[b])
                } else {
                    threat_part(body@[b])
                }),
            decreases body@.len() - j,
        {
            let p = body[j];
            let hit = if combat {
                match p {
                    Part::Attack | Part::RangedAttack | Part::Work => true,
                    _ => false,
                }
            } else {
                match p {
                    Part::Move | Part::Tough => false,
                    _ => true,
                }
            };
            if hit {
                assert(bodies@[i as int]@[j as int] == p);
                assert(if combat {
                    combat_part(bodies@[i as int]@[j as int])
                } else {
                    threat_part(bodies@[i as int]@[j as int])
                });
                return true;
            }
            j += 1;
        }
        i += 1;
    }
    false
}

/// The intel a sighting at `now` records, given the previous intel (which
/// carries the derelict clock forward).
pub fn observe_room(
    previous: Option<&RoomDynamicVisibilityData>,
    obs: RoomObservation,
    username: &String,
    now: u32,
) -> (d: RoomDynamicVisibilityData)
    ensures
        d.update_tick == now,
        d.owner == match obs.owner_name {
            Some(n) => spec_disposition(n, *username),
            None => RoomDisposition::Neutral,
        },
        d.reservation == match obs.reservation_name {
            Some(n) => spec_disposition(n, *username),
            None => RoomDisposition::Neutral,
        },
        match obs.sign {
            Some((user, text)) => d.sign matches Some(s) && s.user == spec_disposition(user, *username)
                && s.message == text,
            None => d.sign is None,
        },
        d.source_keeper == obs.has_keeper_lairs,
        d.hostile_creeps == any_hostile_part(obs.hostile_bodies@, true),
        d.hostile_threat_creeps == any_hostile_part(obs.hostile_bodies@, false),
        d.hostile_structures == exists|i: int|
            0 <= i < obs.owned_structures@.len() && (#[trigger] obs.owned_structures@[i]).0
                && !obs.owned_structures@[i].1,
        d.hostile_spawns == exists|i: int|
            0 <= i < obs.spawns@.len() && !(#[trigger] obs.spawns@[i]).0 && obs.spawns@[i].1,
        d.hostile_tower_present == exists|i: int| 0 <= i < obs.towers@.len() && !(#[trigger] obs.towers@[i]).0,
        d.hostile_towers == exists|i: int|
            0 <= i < obs.towers@.len() && !(#[trigger] obs.towers@[i]).0 && obs.towers@[i].1 && obs.towers@[i].2
                >= TOWER_ENERGY_COST,
        d.safe_mode_end == match obs.safe_mode_remaining {
            Some(left) => Some(if now + left <= u32::MAX { (now + left) as u32 } else { u32::MAX }),
            None => None,
        },
        d.controller_level == obs.controller_level,
        d.controller_ticks_to_downgrade == obs.controller_ticks_to_downgrade,
        d.derelict_since == spec_next_derelict_since(
            spec_derelict(d),
            d.owner,
            match previous {
                Some(p) => Some(p.owner),
                None => None,
            },
            match previous {
                Some(p) => p.derelict_since,
                None => None,
            },
            now,
        ),
{
    let RoomObservation {
        owner_name,
        reservation_name,
        sign,
        has_keeper_lairs,
        hostile_bodies,
        owned_structures,
        spawns,
        towers,
        safe_mode_remaining,
        controller_level,
        controller_ticks_to_downgrade,
    } = obs;
    let owner = name_option_to_disposition(owner_name, username);
    let reservation = name_option_to_disposition(reservation_name, username);
    let sign = match sign {
        Some((user, text)) => Some(RoomSign { user: name_to_disposition(user, username), message: text }),
        None => None,
    };
    let hostile_creeps = scan_hostile_parts(&hostile_bodies, true);
    let hostile_threat_creeps = scan_hostile_parts(&hostile_bodies, false);
    let mut hostile_structures = false;
    let mut i: usize = 0;
    while i < owned_structures.len()
        invariant
            0 <= i <= owned_structures@.len(),
            hostile_structures == exists|a: int|
                0 <= a < i && (#[trigger] owned_structures@[a]).0 && !owned_structures@[a].1,
        decreases owned_structures@.len() - i,
    {
        if owned_structures[i].0 && !owned_structures[i].1 {
            hostile_structures = true;
        }
        i += 1;
    }
    let mut hostile_spawns = false;
    let mut i: usize = 0;
    while i < spawns.len()
        invariant
            0 <= i <= spawns@.len(),
            hostile_spawns == exists|a: int| 0 <= a < i && !(#[trigger] spawns@[a]).0 && spawns@[a].1,
        decreases spawns@.len() - i,
    {
        if !spawns[i].0 && spawns[i].1 {
            hostile_spawns = true;
        }
        i += 1;
    }
    let mut hostile_towers = false;
    let mut hostile_tower_present = false;
    let mut i: usize = 0;
    while i < towers.len()
        invariant
            0 <= i <= towers@.len(),
            hostile_towers == exists|a: int|
                0 <= a < i && !(#[trigger] towers@[a]).0 && towers@[a].1 && towers@[a].2 >= TOWER_ENERGY_COST,
            hostile_tower_present == exists|a: int| 0 <= a < i && !(#[trigger] towers@[a]).0,
        decreases towers@.len() - i,
    {
        if !towers[i].0 && towers[i].1 && towers[i].2 >= TOWER_ENERGY_COST {
            hostile_towers = true;
        }
        if !towers[i].0 {
            hostile_tower_present = true;
        }
        i += 1;
    }
    let safe_mode_end = match safe_mode_remaining {
        Some(left) => Some(now.saturating_add(left)),
        None => None,
    };
    let derelict = owner.hostile() && !(hostile_creeps || hostile_spawns || hostile_towers || hostile_threat_creeps);
    let derelict_since = match previous {
        Some(p) => next_derelict_since(derelict, &owner, Some(&p.owner), p.derelict_since, now),
        None => next_derelict_since(derelict, &owner, None, None, now),
    };
    RoomDynamicVisibilityData {
        update_tick: now,
        owner,
        reservation,
        source_keeper: has_keeper_lairs,
        sign,
        hostile_creeps,
        hostile_structures,
        hostile_spawns,
        hostile_towers,
        hostile_threat_creeps,
        hostile_tower_present,
        safe_mode_end,
        controller_level,
        controller_ticks_to_downgrade,
        derelict_since,
    }
}

} // verus!
