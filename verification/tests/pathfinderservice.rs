use ibex::geometry::RoomName;
use ibex::pathfinderservice::{
    pool_for_tier, route_from_search, should_recompute_route, travel_ticks_of, PathfinderService, RouteDecision,
    BASE_MISSION_OPS, FIND_ROUTE_NOMINAL_OPS,
};
use ibex::tier::Tier;

fn room(name: &str) -> RoomName {
    RoomName::from_packed(screeps::RoomName::new(name).unwrap().packed_repr())
}

#[test]
fn pathfinderservice_pool_scales_with_tier() {
    assert_eq!(pool_for_tier(Tier::Normal), 20_000);
    assert_eq!(pool_for_tier(Tier::Conserve), 10_000);
    assert_eq!(pool_for_tier(Tier::Critical), 5_000);
}

#[test]
fn pathfinderservice_take_drains_and_clamps() {
    let mut service = PathfinderService::default();
    service.begin_tick(Tier::Critical);
    assert_eq!(service.take_ops(2_000), 2_000);
    assert_eq!(service.take_ops(2_000), 2_000);
    assert_eq!(service.take_ops(2_000), 1_000);
    assert_eq!(service.take_ops(500), 0);
    let (pool, consumed) = service.snapshot();
    assert_eq!(pool, 5_000);
    assert_eq!(consumed, 5_000);
    service.begin_tick(Tier::Normal);
    assert_eq!(service.snapshot(), (20_000, 0));

    let other = PathfinderService::default();
    assert_eq!(other.snapshot(), (20_000, 0));
}

#[test]
fn default_is_full_normal_pool() {
    let service = PathfinderService::default();
    assert_eq!(service.tier(), Tier::Normal);
    assert_eq!(service.snapshot(), (BASE_MISSION_OPS, 0));
}

#[test]
fn stale_routes_are_served_under_critical_only() {
    for tier in [Tier::Normal, Tier::Conserve, Tier::Critical] {
        assert!(should_recompute_route(true, false, tier), "{tier:?}");
        assert!(!should_recompute_route(false, false, tier), "{tier:?}");
    }
    assert!(should_recompute_route(false, true, Tier::Normal));
    assert!(should_recompute_route(false, true, Tier::Conserve));
    assert!(!should_recompute_route(false, true, Tier::Critical));
}

#[test]
fn route_cache_computes_once_then_serves_until_expiry() {
    let mut service = PathfinderService::default();
    let (a, b) = (room("W1N1"), room("W3N2"));
    assert!(matches!(service.route_decision(a, b, 100), RouteDecision::Compute));
    assert_eq!(service.snapshot(), (20_000, FIND_ROUTE_NOMINAL_OPS));
    service.record_route(a, b, route_from_search(a, b, 100, Some(2)));
    match service.route_decision(a, b, 1_100) {
        RouteDecision::Serve(r) => {
            assert_eq!(r.hops, 2);
            assert_eq!(r.travel_ticks, 100);
            assert_eq!(travel_ticks_of(r), Some(100));
        }
        RouteDecision::Compute => panic!("fresh entry must be served"),
    }
    // Past the TTL a refresh is due (charged to the pool).
    assert!(matches!(service.route_decision(a, b, 1_101), RouteDecision::Compute));
    assert_eq!(service.snapshot(), (20_000, 2 * FIND_ROUTE_NOMINAL_OPS));
    // The reverse direction is a separate entry.
    assert!(matches!(service.route_decision(b, a, 1_101), RouteDecision::Compute));
}

#[test]
fn critical_tier_serves_stale_and_exhausted_pool_serves_stale() {
    let mut service = PathfinderService::default();
    let (a, b) = (room("E1S1"), room("E2S1"));
    service.record_route(a, b, route_from_search(a, b, 0, None));
    service.begin_tick(Tier::Critical);
    match service.route_decision(a, b, 5_000) {
        RouteDecision::Serve(r) => {
            assert!(!r.reachable);
            assert_eq!(travel_ticks_of(r), None);
        }
        RouteDecision::Compute => panic!("Critical serves stale"),
    }
    assert_eq!(service.snapshot(), (5_000, 0));

    service.begin_tick(Tier::Normal);
    assert_eq!(service.take_ops(20_000), 20_000);
    assert!(matches!(service.route_decision(a, b, 5_000), RouteDecision::Serve(_)));
    // A missing entry still computes on an empty pool.
    assert!(matches!(service.route_decision(b, a, 5_000), RouteDecision::Compute));
}

#[test]
fn same_room_route_is_zero_hops() {
    let a = room("W7N3");
    let r = route_from_search(a, a, 42, None);
    assert!(r.reachable);
    assert_eq!((r.hops, r.travel_ticks, r.cached_at), (0, 0, 42));
}
