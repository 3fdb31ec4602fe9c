use ibex::geometry::Position;
use ibex::hauldistance::{should_recompute, HaulDistanceService, HaulLookup, DIST_TTL};

#[test]
fn recompute_policy_missing_or_expired() {
    assert!(should_recompute(true, 0), "missing always recomputes");
    assert!(!should_recompute(false, DIST_TTL), "fresh within TTL is a hit");
    assert!(should_recompute(false, DIST_TTL + 1), "expired recomputes");
}

#[test]
fn memo_serves_hits_and_counts_searches() {
    let mut service = HaulDistanceService::new();
    let a = Position::from_world_coords(-260, 1_210);
    let b = Position::from_world_coords(-231, 1_240);
    assert!(matches!(service.lookup(a, a, 10), HaulLookup::Known(Some(0))));
    assert!(matches!(service.lookup(a, b, 10), HaulLookup::Search));
    service.record(a, b, 10, Some(37));
    assert!(matches!(service.lookup(a, b, 10 + DIST_TTL), HaulLookup::Known(Some(37))));
    assert!(matches!(service.lookup(a, b, 11 + DIST_TTL), HaulLookup::Search));
    service.record(b, a, 10, None);
    assert!(matches!(service.lookup(b, a, 20), HaulLookup::Known(None)));
    assert_eq!(service.snapshot(), (2, 2, 2));
    service.reset_tick_counters();
    assert_eq!(service.snapshot(), (0, 0, 2));
}
