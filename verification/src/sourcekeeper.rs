//! Source-keeper farming policy: when the scan runs, what a candidate's
//! haul distance is, whether a home can field the duo, and the hard gates
//! that veto a farm whatever it would yield.
use vstd::prelude::*;

verus! {

/// Body energy of the suppression duo.
pub const SK_DUO_BODY_COST: u32 = 5350;

/// Energy capacity a home needs to spawn the duo's largest body.
pub const SK_DUO_MAX_BODY_COST: u32 = 3100;

/// Controller level a home room needs to farm source keepers.
pub const SK_HOME_MIN_RCL: u32 = 6;

/// Tick within each 50-tick period on which the scan runs.
pub const SK_SCAN_OFFSET: u32 = 35;

/// Haul tiles counted per room of distance.
pub const TILES_PER_ROOM: u32 = 50;

/// The farm scan runs once per 50 ticks, on its offset tick.
pub fn sk_scan_due(now: u32) -> (r: bool)
    ensures
        r == (now % 50 == SK_SCAN_OFFSET),
{
    now % 50 == SK_SCAN_OFFSET
}

/// One-way haul length, in tiles, for a room `distance` rooms away.
pub fn sk_haul_tiles(distance: u32) -> (r: u32)
    requires
        distance * TILES_PER_ROOM <= u32::MAX,
    ensures
        r == distance * TILES_PER_ROOM,
{
    distance * TILES_PER_ROOM
}

/// A home with this energy capacity can spawn the duo's largest body.
pub fn sk_home_affordable(energy_capacity: u32) -> (r: bool)
    ensures
        r == (energy_capacity >= SK_DUO_MAX_BODY_COST),
{
    energy_capacity >= SK_DUO_MAX_BODY_COST
}

/// What a source-keeper room's farm is judged on.
#[derive(Clone, Copy, Debug, PartialEq, Eq, Structural)]
pub struct SkRoiInputs {
    /// Harvestable sources in the room.
    pub live_sources: u32,
    /// One-way path length (tiles) to the nearest capable home.
    pub haul_tiles: u32,
    /// Body energy of the suppression duo, renewed each lifetime.
    pub suppression_cost: u32,
    /// The nearest home can spawn the farm's creeps.
    pub affordable: bool,
    /// Another player contests the room.
    pub contested: bool,
    /// The CPU tier is not critical.
    pub cpu_ok: bool,
    /// Military capacity is not needed for defense or war.
    pub military_free: bool,
    /// Below the concurrent-farm cap (gates new farms only).
    pub under_farm_cap: bool,
    /// We already farm this room.
    pub already_committed: bool,
}

/// The hard gates: a contested room, critical CPU, busy military, an
/// unaffordable duo, or a new farm over the concurrency cap veto the farm
/// regardless of its yield.
pub fn sk_farm_vetoed(inp: &SkRoiInputs) -> (r: bool)
    ensures
        r == (inp.contested || !inp.cpu_ok || !inp.military_free || !inp.affordable || (!inp.already_committed
            && !inp.under_farm_cap)),
{
    inp.contested || !inp.cpu_ok || !inp.military_free || !inp.affordable || (!inp.already_committed
        && !inp.under_farm_cap)
}

} // verus!
