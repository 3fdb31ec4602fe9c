//! The hauler arm of the movement priority lane: civilian haul-leg moves bid
//! a quantized energy rate strictly inside the (`Low`, `Normal`) anchor band.
use vstd::prelude::*;
use crate::geometry::Position;

verus! {

/// Floor of the civilian w band (strictly above the `Low` anchor, 0).
pub const W_BID_MIN: i64 = 1;

/// Ceiling of the civilian w band (strictly below the `Normal` anchor,
/// 1_000_000).
pub const W_BID_MAX: i64 = 999_999;

/// `w = energy / (2 × max(range, 1))` in milli-energy per tick, truncated,
/// clamped to `[W_BID_MIN, W_BID_MAX]`.
pub open spec fn spec_quantized_haul_w(energy: u32, from: Position, to: Position) -> int {
    let d: int = if from.range_to(to) >= 1 { from.range_to(to) } else { 1 };
    let w: int = (energy * 1000) / (2 * d);
    if w < W_BID_MIN {
        W_BID_MIN as int
    } else if w > W_BID_MAX {
        W_BID_MAX as int
    } else {
        w
    }
}

/// The quantized hauler-arm bid for moving `energy` from `from` to `to`.
pub fn quantized_haul_w(energy: u32, from: Position, to: Position) -> (w: i64)
    ensures
        w == spec_quantized_haul_w(energy, from, to),
        W_BID_MIN <= w <= W_BID_MAX,
{
    let range = from.get_range_to(to);
    let d: i64 = if range >= 1 { range as i64 } else { 1 };
    let num: i64 = energy as i64 * 1000;
    let w = num / (2 * d);
    if w < W_BID_MIN {
        W_BID_MIN
    } else if w > W_BID_MAX {
        W_BID_MAX
    } else {
        w
    }
}

/// The bid for a live creep: carried energy when loaded, store capacity
/// when empty, from its position to its destination.
pub fn haul_move_bid(carried: u32, capacity: u32, pos: Position, destination: Position) -> (w: i64)
    ensures
        w == spec_quantized_haul_w(if carried > 0 { carried } else { capacity }, pos, destination),
{
    let energy = if carried > 0 { carried } else { capacity };
    quantized_haul_w(energy, pos, destination)
}

/// More cargo never bids lower over the same leg.
pub proof fn lemma_bid_monotone_in_energy(e1: u32, e2: u32, from: Position, to: Position)
    requires
        e1 <= e2,
    ensures
        spec_quantized_haul_w(e1, from, to) <= spec_quantized_haul_w(e2, from, to),
{
    let d: int = if from.range_to(to) >= 1 { from.range_to(to) } else { 1 };
    vstd::arithmetic::div_mod::lemma_div_is_ordered(e1 * 1000, e2 * 1000, 2 * d);
}

} // verus!
