use ibex::roomdata::{RoomDisposition, RoomDynamicVisibilityData};
use ibex::routepricing::{economy_route_cost, is_hostile_for_movement, RouteRoomIntel, UNSCOUTED_ROUTE_COST};

fn neutral() -> RouteRoomIntel {
    RouteRoomIntel {
        source_keeper: false,
        reservation_hostile: false,
        hostile_creeps: false,
        hostile_towers: false,
        owner_hostile: false,
        friendly: false,
        derelict: false,
    }
}

/// Room cost in room-cost units (the library prices in tenths).
fn cost(c: Option<u32>) -> Option<f64> {
    c.map(|t| t as f64 / 10.0)
}

#[test]
fn hostile_predicate_mirrors_the_mover() {
    type Mutator = fn(&mut RouteRoomIntel);
    let cases: &[(&str, Mutator, bool)] = &[
        ("neutral room", |_| {}, false),
        ("source keeper", |i| i.source_keeper = true, true),
        ("hostile reservation", |i| i.reservation_hostile = true, true),
        ("hostile creeps", |i| i.hostile_creeps = true, true),
        ("armed hostile towers", |i| i.hostile_towers = true, true),
        ("hostile owner", |i| i.owner_hostile = true, true),
    ];
    for (label, setup, expect) in cases {
        let mut i = neutral();
        setup(&mut i);
        assert_eq!(is_hostile_for_movement(&i, true), *expect, "{label}");
    }

    let mut derelict = neutral();
    derelict.owner_hostile = true;
    derelict.derelict = true;
    assert!(!is_hostile_for_movement(&derelict, true), "derelict room is passable");
    assert!(is_hostile_for_movement(&derelict, false), "derelict loosening is feature-gated");
    derelict.hostile_towers = true;
    assert!(is_hostile_for_movement(&derelict, true), "armed derelict stays hostile");
}

#[test]
fn economy_route_cost_denies_hostile_and_prices_like_the_mover() {
    let mut hostile = neutral();
    hostile.owner_hostile = true;
    assert_eq!(cost(economy_route_cost(Some(hostile), true)), None);

    let mut friendly = neutral();
    friendly.friendly = true;
    assert_eq!(cost(economy_route_cost(Some(friendly), true)), Some(1.0));

    assert_eq!(cost(economy_route_cost(Some(neutral()), true)), Some(2.0));

    let mut derelict = neutral();
    derelict.owner_hostile = true;
    derelict.derelict = true;
    assert_eq!(cost(economy_route_cost(Some(derelict), true)), Some(2.5));
}

#[test]
fn unscouted_rooms_are_passable_but_dispreferred() {
    let unscouted = cost(economy_route_cost(None, true)).expect("must never deny an unknown room");
    assert_eq!(unscouted, UNSCOUTED_ROUTE_COST as f64 / 10.0);
    let known_neutral = cost(economy_route_cost(Some(neutral()), true)).expect("neutral is passable");
    assert!(unscouted > known_neutral, "must price above known-neutral ({unscouted} vs {known_neutral})");
    assert!(unscouted.is_finite());
}

#[test]
fn derelict_pricing_needs_the_feature() {
    let mut derelict = neutral();
    derelict.derelict = true;
    assert_eq!(cost(economy_route_cost(Some(derelict), false)), Some(2.0));
    assert_eq!(cost(economy_route_cost(Some(derelict), true)), Some(2.5));
}

#[test]
fn intel_adapter_reads_dynamic_visibility() {
    let d = RoomDynamicVisibilityData {
        update_tick: 10,
        owner: RoomDisposition::Hostile("enemy".to_string()),
        reservation: RoomDisposition::Friendly("ally".to_string()),
        source_keeper: false,
        sign: None,
        hostile_creeps: false,
        hostile_structures: true,
        hostile_spawns: false,
        hostile_towers: false,
        hostile_threat_creeps: false,
        hostile_tower_present: false,
        safe_mode_end: None,
        controller_level: Some(2),
        controller_ticks_to_downgrade: None,
        derelict_since: Some(5),
    };
    let i = RouteRoomIntel::from_dynamic(&d);
    assert!(i.owner_hostile);
    assert!(i.friendly);
    assert!(i.derelict);
    assert!(!i.reservation_hostile);
    assert!(!is_hostile_for_movement(&i, true));
}
