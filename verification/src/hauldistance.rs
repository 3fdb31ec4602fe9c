//! The routed-distance memo of the haul market: (pickup, sink) distances are
//! structural facts, cached per pair and recomputed only when missing or
//! older than the TTL.
use vstd::prelude::*;
use std::collections::HashMap;
use crate::geometry::Position;

verus! {

/// TTL (ticks) for a cached routed distance.
pub const DIST_TTL: u32 = 1500;

/// Recompute a missing entry, or one older than the TTL.
pub fn should_recompute(missing: bool, age: u32) -> (r: bool)
    ensures
        r == (missing || age > DIST_TTL),
{
    missing || age > DIST_TTL
}

broadcast use vstd::std_specs::hash::group_hash_axioms;

/// A memoized routed distance: `None` when there is no path.
#[derive(Debug, Clone, Copy)]
pub struct CachedDist {
    pub dist: Option<u32>,
    pub cached_at: u32,
}

/// The memo key of a (from, to) pair of positions.
pub open spec fn pair_key(from: Position, to: Position) -> u128 {
    let fx = from.world_x as int + 0x8000_0000;
    let fy = from.world_y as int + 0x8000_0000;
    let tx = to.world_x as int + 0x8000_0000;
    let ty = to.world_y as int + 0x8000_0000;
    (((fx * 0x1_0000_0000 + fy) * 0x1_0000_0000 + tx) * 0x1_0000_0000 + ty) as u128
}

fn pair_key_exec(from: Position, to: Position) -> (k: u128)
    ensures
        k == pair_key(from, to),
{
    let fx = (from.world_x as i64 + 0x8000_0000) as u128;
    let fy = (from.world_y as i64 + 0x8000_0000) as u128;
    let tx = (to.world_x as i64 + 0x8000_0000) as u128;
    let ty = (to.world_y as i64 + 0x8000_0000) as u128;
    assert(fx < 0x1_0000_0000 && fy < 0x1_0000_0000 && tx < 0x1_0000_0000 && ty < 0x1_0000_0000);
    assert(((fx * 0x1_0000_0000 + fy) * 0x1_0000_0000 + tx) * 0x1_0000_0000 + ty <= u128::MAX) by (nonlinear_arith)
        requires
            fx < 0x1_0000_0000,
            fy < 0x1_0000_0000,
            tx < 0x1_0000_0000,
            ty < 0x1_0000_0000,
    ;
    ((fx * 0x1_0000_0000 + fy) * 0x1_0000_0000 + tx) * 0x1_0000_0000 + ty
}

/// What a distance lookup found.
#[derive(Debug, Clone, Copy)]
pub enum HaulLookup {
    /// Served without a search: the same tile (0), or a fresh cached entry.
    Known(Option<u32>),
    /// No fresh entry: search, then `record` the result.
    Search,
}

/// The `(pickup, sink)` routed-distance memo and its per-tick counters.
pub struct HaulDistanceService {
    cache: HashMap<u128, CachedDist>,
    computes_this_tick: u32,
    hits_this_tick: u32,
}

impl HaulDistanceService {
    pub closed spec fn spec_cache(self) -> Map<u128, CachedDist> {
        self.cache@
    }

    pub closed spec fn spec_computes(self) -> nat {
        self.computes_this_tick as nat
    }

    pub closed spec fn spec_hits(self) -> nat {
        self.hits_this_tick as nat
    }

    /// An empty memo.
    pub fn new() -> (s: HaulDistanceService)
        ensures
            s.spec_cache() == Map::<u128, CachedDist>::empty(),
            s.spec_computes() == 0,
            s.spec_hits() == 0,
    {
        HaulDistanceService { cache: HashMap::new(), computes_this_tick: 0, hits_this_tick: 0 }
    }

    /// Reset the per-tick counters.
    pub fn reset_tick_counters(&mut self)
        ensures
            final(self).spec_cache() == old(self).spec_cache(),
            final(self).spec_computes() == 0,
            final(self).spec_hits() == 0,
    {
        self.computes_this_tick = 0;
        self.hits_this_tick = 0;
    }

    /// (searches this tick, cache hits this tick, cached pairs).
    pub fn snapshot(&self) -> (r: (u32, u32, usize))
        ensures
            r.0 == self.spec_computes(),
            r.1 == self.spec_hits(),
            r.2 == self.spec_cache().len(),
    {
        (self.computes_this_tick, self.hits_this_tick, self.cache.len())
    }

    /// Look up the routed distance from `from` to `to` at `tick`: the same
    /// tile is 0 away; a cached entry no older than [`DIST_TTL`] is served
    /// (a cache hit, `None` = known unreachable); anything else needs a
    /// search.
    pub fn lookup(&mut self, from: Position, to: Position, tick: u32) -> (r: HaulLookup)
        ensures
            final(self).spec_cache() == old(self).spec_cache(),
            final(self).spec_computes() == old(self).spec_computes(),
            from == to ==> r == HaulLookup::Known(Some(0)) && final(self).spec_hits() == old(self).spec_hits(),
            from != to ==> {
                let key = pair_key(from, to);
                if old(self).spec_cache().contains_key(key) && (if tick >= old(self).spec_cache()[key].cached_at {
                    tick - old(self).spec_cache()[key].cached_at
                } else {
                    0
                }) <= DIST_TTL {
                    &&& r == HaulLookup::Known(old(self).spec_cache()[key].dist)
                    &&& final(self).spec_hits() == if old(self).spec_hits() < u32::MAX {
                        old(self).spec_hits() + 1
                    } else {
                        old(self).spec_hits()
                    }
                } else {
                    r is Search && final(self).spec_hits() == old(self).spec_hits()
                }
            },
    {
        proof {
            assert(vstd::std_specs::hash::obeys_key_model::<u128>());
        }
        if from == to {
            return HaulLookup::Known(Some(0));
        }
        let key = pair_key_exec(from, to);
        match self.cache.get(&key) {
            Some(c) => {
                if !should_recompute(false, tick.saturating_sub(c.cached_at)) {
                    if self.hits_this_tick < u32::MAX {
                        self.hits_this_tick = self.hits_this_tick + 1;
                    }
                    return HaulLookup::Known(c.dist);
                }
                HaulLookup::Search
            },
            None => HaulLookup::Search,
        }
    }

    /// Record a search result for (from, to) at `tick` (`None` = no path;
    /// caching it stops a doomed search re-running every tick).
    pub fn record(&mut self, from: Position, to: Position, tick: u32, dist: Option<u32>)
        ensures
            final(self).spec_cache() == old(self).spec_cache().insert(
                pair_key(from, to),
                CachedDist { dist, cached_at: tick },
            ),
            final(self).spec_hits() == old(self).spec_hits(),
            final(self).spec_computes() == if old(self).spec_computes() < u32::MAX {
                old(self).spec_computes() + 1
            } else {
                old(self).spec_computes()
            },
    {
        let key = pair_key_exec(from, to);
        if self.computes_this_tick < u32::MAX {
            self.computes_this_tick = self.computes_this_tick + 1;
        }
        self.cache.insert(key, CachedDist { dist, cached_at: tick });
    }
}

/// A recorded distance is served back until the TTL passes.
pub proof fn lemma_recorded_distance_served(
    cache: Map<u128, CachedDist>,
    from: Position,
    to: Position,
    dist: Option<u32>,
    recorded_at: u32,
    tick: u32,
)
    requires
        recorded_at <= tick,
        tick - recorded_at <= DIST_TTL,
    ensures
        ({
            let c2 = cache.insert(pair_key(from, to), CachedDist { dist, cached_at: recorded_at });
            &&& c2.contains_key(pair_key(from, to))
            &&& c2[pair_key(from, to)].dist == dist
            &&& tick - c2[pair_key(from, to)].cached_at <= DIST_TTL
        }),
{
}

} // verus!
