//! The single mission-side pathfinding service: the tier-scaled ops pool
//! and the inter-room route cache with `find_route` admission control.
//!
//! The room-graph search itself is the game's; the service decides when a
//! cached route is served, when a search is run (and charged to the pool),
//! and records what the search found.
use vstd::prelude::*;
use std::collections::HashMap;
use crate::tier::Tier;
use crate::geometry::RoomName;
use crate::pathbudget::{grant_for, tier_pool};

verus! {

broadcast use vstd::std_specs::hash::group_hash_axioms;

/// Per-tick mission-side ops at Normal tier.
pub const BASE_MISSION_OPS: u32 = 20_000;

/// Nominal charge for one `find_route` call.
pub const FIND_ROUTE_NOMINAL_OPS: u32 = 2_000;

/// Ops cap for one same-room search.
pub const SAME_ROOM_MAX_OPS: u32 = 500;

/// TTL for route-cache entries in ticks.
pub const ROUTE_TTL: u32 = 1_000;

/// Travel ticks per room hop.
pub const TICKS_PER_ROUTE_HOP: u32 = 50;

/// Pool size for a tier.
pub fn pool_for_tier(tier: Tier) -> (pool: u32)
    ensures
        pool == tier_pool(tier),
{
    match tier {
        Tier::Normal => BASE_MISSION_OPS,
        Tier::Conserve => BASE_MISSION_OPS / 2,
        Tier::Critical => BASE_MISSION_OPS / 4,
    }
}

/// Recompute decision for the route cache: missing entries always compute;
/// expired entries recompute except under Critical, where stale is served.
pub open spec fn spec_should_recompute_route(missing: bool, expired: bool, tier: Tier) -> bool {
    missing || (expired && tier != Tier::Critical)
}

pub fn should_recompute_route(missing: bool, expired: bool, tier: Tier) -> (r: bool)
    ensures
        r == spec_should_recompute_route(missing, expired, tier),
{
    missing || (expired && tier != Tier::Critical)
}

/// A cached inter-room route answer.
#[derive(Debug, Clone, Copy)]
pub struct CachedRoute {
    /// Number of room transitions (u32::MAX = unreachable).
    pub hops: u32,
    /// Estimated travel ticks (hops * 50).
    pub travel_ticks: u32,
    /// Tick the entry was computed.
    pub cached_at: u32,
    /// Whether the route was found (false = no path).
    pub reachable: bool,
}

/// The cache key of a (from, to) pair.
pub open spec fn route_key(from: RoomName, to: RoomName) -> u64 {
    (from.packed as int * 65536 + to.packed as int) as u64
}

/// What to do for a route lookup.
#[derive(Debug, Clone, Copy)]
pub enum RouteDecision {
    /// Serve this cached entry.
    Serve(CachedRoute),
    /// Search the room graph now (the search has been charged to the pool)
    /// and record what it finds.
    Compute,
}

/// The route a room-graph search yields: `hops` is the step count of the
/// route it found, `None` when it found none. A room is zero hops from
/// itself without a search.
pub open spec fn spec_route_from_search(from: RoomName, to: RoomName, tick: u32, hops: Option<u32>) -> CachedRoute {
    if from == to {
        CachedRoute { hops: 0, travel_ticks: 0, cached_at: tick, reachable: true }
    } else {
        match hops {
            Some(h) => CachedRoute {
                hops: h,
                travel_ticks: (h * TICKS_PER_ROUTE_HOP) as u32,
                cached_at: tick,
                reachable: true,
            },
            None => CachedRoute {
                hops: u32::MAX,
                travel_ticks: u32::MAX,
                cached_at: tick,
                reachable: false,
            },
        }
    }
}

/// The cache entry for a room-graph search result.
pub fn route_from_search(from: RoomName, to: RoomName, tick: u32, hops: Option<u32>) -> (r: CachedRoute)
    requires
        hops matches Some(h) ==> h * TICKS_PER_ROUTE_HOP <= u32::MAX,
    ensures
        r == spec_route_from_search(from, to, tick, hops),
{
    if from == to {
        return CachedRoute { hops: 0, travel_ticks: 0, cached_at: tick, reachable: true };
    }
    match hops {
        Some(h) => CachedRoute {
            hops: h,
            travel_ticks: h * TICKS_PER_ROUTE_HOP,
            cached_at: tick,
            reachable: true,
        },
        None => CachedRoute { hops: u32::MAX, travel_ticks: u32::MAX, cached_at: tick, reachable: false },
    }
}

/// Estimated travel ticks of a route, or `None` if unreachable.
pub fn travel_ticks_of(route: CachedRoute) -> (r: Option<u32>)
    ensures
        r == if route.reachable {
            Some(route.travel_ticks)
        } else {
            None
        },
{
    if route.reachable {
        Some(route.travel_ticks)
    } else {
        None
    }
}

/// An entry older than the TTL at `tick`.
pub open spec fn route_expired(entry: CachedRoute, tick: u32) -> bool {
    (if tick >= entry.cached_at { tick - entry.cached_at } else { 0 }) > ROUTE_TTL
}

/// The single mission-side pathfinding instance.
pub struct PathfinderService {
    tier: Tier,
    pool: u32,
    remaining: u32,
    denied: u32,
    routes: HashMap<u64, CachedRoute>,
}

impl PathfinderService {
    #[verifier::type_invariant]
    spec fn inv(self) -> bool {
        self.remaining <= self.pool
    }

    /// Governor tier cached at tick start.
    pub closed spec fn spec_tier(self) -> Tier {
        self.tier
    }

    /// Tick cap (tier-scaled).
    pub closed spec fn spec_pool(self) -> nat {
        self.pool as nat
    }

    /// What remains of the tick cap.
    pub closed spec fn spec_remaining(self) -> nat {
        self.remaining as nat
    }

    /// Grants refused on an exhausted pool this tick (saturating).
    pub closed spec fn spec_denied(self) -> nat {
        self.denied as nat
    }

    /// The route cache.
    pub closed spec fn spec_routes(self) -> Map<u64, CachedRoute> {
        self.routes@
    }

    /// Full Normal pool, empty route cache.
    pub fn new() -> (s: PathfinderService)
        ensures
            s.spec_tier() == Tier::Normal,
            s.spec_pool() == BASE_MISSION_OPS,
            s.spec_remaining() == BASE_MISSION_OPS,
            s.spec_denied() == 0,
            s.spec_routes() == Map::<u64, CachedRoute>::empty(),
    {
        PathfinderService {
            tier: Tier::Normal,
            pool: BASE_MISSION_OPS,
            remaining: BASE_MISSION_OPS,
            denied: 0,
            routes: HashMap::new(),
        }
    }

    /// The governor tier cached at tick start.
    pub fn tier(&self) -> (t: Tier)
        ensures
            t == self.spec_tier(),
    {
        self.tier
    }

    /// Tick-start reset: re-arm the pool at the tick's tier. The route cache
    /// persists across ticks.
    pub fn begin_tick(&mut self, tier: Tier)
        ensures
            final(self).spec_tier() == tier,
            final(self).spec_pool() == tier_pool(tier),
            final(self).spec_remaining() == tier_pool(tier),
            final(self).spec_denied() == 0,
            final(self).spec_routes() == old(self).spec_routes(),
    {
        proof {
            use_type_invariant(&*self);
        }
        let pool = pool_for_tier(tier);
        self.tier = tier;
        self.remaining = 0;
        self.pool = pool;
        self.remaining = pool;
        self.denied = 0;
    }

    /// Take up to `want` ops from the pool; returns the grant (0 when the
    /// pool is exhausted, which counts as a denial).
    pub fn take_ops(&mut self, want: u32) -> (grant: u32)
        ensures
            grant == grant_for(want as nat, old(self).spec_remaining()),
            final(self).spec_remaining() == old(self).spec_remaining() - grant,
            final(self).spec_pool() == old(self).spec_pool(),
            final(self).spec_tier() == old(self).spec_tier(),
            final(self).spec_routes() == old(self).spec_routes(),
            final(self).spec_denied() == if grant == 0 {
                if old(self).spec_denied() < u32::MAX {
                    old(self).spec_denied() + 1
                } else {
                    old(self).spec_denied()
                }
            } else {
                old(self).spec_denied()
            },
    {
        proof {
            use_type_invariant(&*self);
        }
        let remaining = self.remaining;
        let grant = if want < remaining { want } else { remaining };
        if grant == 0 {
            if self.denied < u32::MAX {
                self.denied = self.denied + 1;
            }
            return 0;
        }
        self.remaining = remaining - grant;
        grant
    }

    /// Telemetry: (pool, consumed) this tick.
    pub fn snapshot(&self) -> (r: (u32, u32))
        ensures
            r.0 == self.spec_pool(),
            r.1 == self.spec_pool() - self.spec_remaining(),
            self.spec_remaining() <= self.spec_pool(),
    {
        proof {
            use_type_invariant(self);
        }
        (self.pool, self.pool - self.remaining)
    }

    /// Decide a cached route lookup at `current_tick`. A missing entry is
    /// always computed; an expired one is recomputed except under Critical,
    /// where it is served stale; each recompute is charged
    /// [`FIND_ROUTE_NOMINAL_OPS`] to the pool, and only a TTL refresh yields
    /// to an exhausted pool (the stale entry is served instead).
    pub fn route_decision(&mut self, from: RoomName, to: RoomName, current_tick: u32) -> (d: RouteDecision)
        ensures
            final(self).spec_routes() == old(self).spec_routes(),
            final(self).spec_tier() == old(self).spec_tier(),
            final(self).spec_pool() == old(self).spec_pool(),
            ({
                let key = route_key(from, to);
                let missing = !old(self).spec_routes().contains_key(key);
                let expired = !missing && route_expired(old(self).spec_routes()[key], current_tick);
                if spec_should_recompute_route(missing, expired, old(self).spec_tier()) {
                    let grant = grant_for(FIND_ROUTE_NOMINAL_OPS as nat, old(self).spec_remaining());
                    &&& final(self).spec_remaining() == old(self).spec_remaining() - grant
                    &&& final(self).spec_denied() == if grant == 0 {
                        if old(self).spec_denied() < u32::MAX {
                            old(self).spec_denied() + 1
                        } else {
                            old(self).spec_denied()
                        }
                    } else {
                        old(self).spec_denied()
                    }
                    &&& if missing || grant > 0 {
                        d is Compute
                    } else {
                        d == RouteDecision::Serve(old(self).spec_routes()[key])
                    }
                } else {
                    &&& final(self).spec_remaining() == old(self).spec_remaining()
                    &&& final(self).spec_denied() == old(self).spec_denied()
                    &&& d == RouteDecision::Serve(old(self).spec_routes()[key])
                }
            }),
    {
        proof {
            assert(vstd::std_specs::hash::obeys_key_model::<u64>());
        }
        let key: u64 = from.packed as u64 * 65536 + to.packed as u64;
        let entry = match self.routes.get(&key) {
            Some(e) => Some(*e),
            None => None,
        };
        let missing = entry.is_none();
        let expired = match entry {
            Some(e) => current_tick.saturating_sub(e.cached_at) > ROUTE_TTL,
            None => false,
        };
        if should_recompute_route(missing, expired, self.tier) {
            let granted = self.take_ops(FIND_ROUTE_NOMINAL_OPS);
            if missing || granted > 0 {
                return RouteDecision::Compute;
            }
        }
        match entry {
            Some(e) => RouteDecision::Serve(e),
            None => RouteDecision::Compute,
        }
    }

    /// Record a computed route for (from, to).
    pub fn record_route(&mut self, from: RoomName, to: RoomName, route: CachedRoute)
        ensures
            final(self).spec_routes() == old(self).spec_routes().insert(route_key(from, to), route),
            final(self).spec_tier() == old(self).spec_tier(),
            final(self).spec_pool() == old(self).spec_pool(),
            final(self).spec_remaining() == old(self).spec_remaining(),
            final(self).spec_denied() == old(self).spec_denied(),
    {
        let key: u64 = from.packed as u64 * 65536 + to.packed as u64;
        proof {
            use_type_invariant(&*self);
        }
        let mut routes: HashMap<u64, CachedRoute> = HashMap::new();
        std::mem::swap(&mut routes, &mut self.routes);
        routes.insert(key, route);
        self.routes = routes;
    }
}

impl Default for PathfinderService {
    /// Full Normal pool, empty route cache (the first tick must not shed
    /// pathfinding spuriously).
    fn default() -> (s: PathfinderService)
        ensures
            s.spec_tier() == Tier::Normal,
            s.spec_pool() == BASE_MISSION_OPS,
            s.spec_remaining() == BASE_MISSION_OPS,
            s.spec_denied() == 0,
            s.spec_routes() == Map::<u64, CachedRoute>::empty(),
    {
        PathfinderService::new()
    }
}

/// A recorded route is served back unchanged until it expires (at any tier),
/// and under Critical for as long as it stays in the cache.
pub proof fn lemma_recorded_route_is_served(
    routes: Map<u64, CachedRoute>,
    from: RoomName,
    to: RoomName,
    route: CachedRoute,
    tick: u32,
    tier: Tier,
)
    requires
        !route_expired(route, tick) || tier == Tier::Critical,
    ensures
        ({
            let r2 = routes.insert(route_key(from, to), route);
            let key = route_key(from, to);
            &&& r2.contains_key(key)
            &&& r2[key] == route
            &&& !spec_should_recompute_route(!r2.contains_key(key), route_expired(r2[key], tick), tier)
        }),
{
}

} // verus!
