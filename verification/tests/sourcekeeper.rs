use ibex::sourcekeeper::{
    sk_farm_vetoed, sk_haul_tiles, sk_home_affordable, sk_scan_due, SkRoiInputs, SK_DUO_BODY_COST,
    SK_DUO_MAX_BODY_COST,
};

fn nearby() -> SkRoiInputs {
    SkRoiInputs {
        live_sources: 3,
        haul_tiles: 40,
        suppression_cost: SK_DUO_BODY_COST,
        affordable: true,
        contested: false,
        cpu_ok: true,
        military_free: true,
        under_farm_cap: true,
        already_committed: false,
    }
}

#[test]
fn hard_gates_veto_regardless_of_yield() {
    assert!(!sk_farm_vetoed(&nearby()));
    for bad in [
        SkRoiInputs { contested: true, ..nearby() },
        SkRoiInputs { cpu_ok: false, ..nearby() },
        SkRoiInputs { military_free: false, ..nearby() },
        SkRoiInputs { affordable: false, ..nearby() },
        SkRoiInputs { under_farm_cap: false, ..nearby() },
    ] {
        assert!(sk_farm_vetoed(&bad));
    }
}

#[test]
fn an_existing_farm_is_not_vetoed_over_the_concurrency_cap() {
    let existing = SkRoiInputs { under_farm_cap: false, already_committed: true, ..nearby() };
    assert!(!sk_farm_vetoed(&existing));
}

#[test]
fn scan_distance_and_affordability() {
    assert!(sk_scan_due(35) && sk_scan_due(85) && !sk_scan_due(36));
    assert_eq!(sk_haul_tiles(3), 150);
    assert!(sk_home_affordable(SK_DUO_MAX_BODY_COST));
    assert!(!sk_home_affordable(SK_DUO_MAX_BODY_COST - 1));
}
