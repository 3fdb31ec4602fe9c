use ibex::roomdata::{RoomDisposition, RoomDynamicVisibilityData};
use ibex::utility::{
    build_effective_life, is_build_feasible, is_claim_feasible, is_claim_target_safe, ClaimThreat, is_remote_room_safe, is_valid_home_room, home_room_qualifies,
    max_claim_radius_hops, should_abandon_claim, CLAIM_ARRIVAL_MARGIN, CREEP_CLAIM_LIFE_TIME, TICKS_PER_HOP,
};

#[test]
fn max_claim_radius_is_derived_from_claim_creep_reach() {
    assert_eq!(max_claim_radius_hops(), (CREEP_CLAIM_LIFE_TIME - CLAIM_ARRIVAL_MARGIN) / TICKS_PER_HOP);
    assert_eq!(max_claim_radius_hops(), 11);
}

const PERSIST: u32 = 50;

#[test]
fn abort_never_for_spawned_or_only_colony() {
    assert!(!should_abandon_claim(false, false, 10_000, true, PERSIST));
    assert!(!should_abandon_claim(true, true, 10_000, true, PERSIST));
}

#[test]
fn abort_on_sustained_hostile_past_window() {
    assert!(should_abandon_claim(true, false, PERSIST, false, PERSIST));
    assert!(!should_abandon_claim(true, false, PERSIST - 1, false, PERSIST));
    assert!(!should_abandon_claim(true, false, 0, false, PERSIST));
}

#[test]
fn abort_immediately_when_controller_attacked() {
    assert!(should_abandon_claim(true, false, 0, true, PERSIST));
}

#[test]
fn travel_bounds_builder_and_claimer_reach() {
    assert_eq!(build_effective_life(Some(400)), Some(1_100));
    assert_eq!(build_effective_life(Some(2_000)), Some(0));
    assert_eq!(build_effective_life(None), None);
    assert!(is_build_feasible(Some(1_200)));
    assert!(!is_build_feasible(Some(1_201)));
    assert!(!is_build_feasible(None));
    assert!(is_claim_feasible(Some(550)));
    assert!(!is_claim_feasible(Some(551)));
    assert!(!is_claim_feasible(Some(u32::MAX)));
    assert!(!is_claim_feasible(None));
}

fn intel(update_tick: u32, owner: RoomDisposition, armed: bool) -> RoomDynamicVisibilityData {
    RoomDynamicVisibilityData {
        update_tick,
        owner,
        reservation: RoomDisposition::Neutral,
        source_keeper: false,
        sign: None,
        hostile_creeps: armed,
        hostile_structures: true,
        hostile_spawns: false,
        hostile_towers: false,
        hostile_threat_creeps: false,
        hostile_tower_present: false,
        safe_mode_end: None,
        controller_level: None,
        controller_ticks_to_downgrade: None,
        derelict_since: None,
    }
}

#[test]
fn remote_room_unsafe_only_while_a_visible_threat_is_seen() {
    assert!(is_remote_room_safe(None, 100));
    // Inert hostile structures alone never make a remote unsafe.
    assert!(is_remote_room_safe(Some(&intel(100, RoomDisposition::Neutral, false)), 100));
    assert!(!is_remote_room_safe(Some(&intel(100, RoomDisposition::Neutral, true)), 100));
    // Intel from an earlier tick reads safe.
    assert!(is_remote_room_safe(Some(&intel(99, RoomDisposition::Neutral, true)), 100));
}

#[test]
fn home_room_needs_visibility_and_ownership_or_a_spawn() {
    assert!(is_valid_home_room(Some(&intel(5, RoomDisposition::Mine, false)), 5, false));
    assert!(is_valid_home_room(Some(&intel(5, RoomDisposition::Neutral, false)), 5, true));
    assert!(!is_valid_home_room(Some(&intel(5, RoomDisposition::Neutral, false)), 5, false));
    assert!(!is_valid_home_room(Some(&intel(4, RoomDisposition::Mine, false)), 5, true));
    assert!(!is_valid_home_room(None, 5, true));
}

#[test]
fn claim_targets_need_fresh_clean_intel_and_no_threat() {
    let now = 10_000;
    let clean = intel(now - 100, RoomDisposition::Neutral, false);
    let calm = ClaimThreat { raid_or_worse: false, attack_dps_positive: false, towers: false, nukes: false };
    assert!(is_claim_target_safe(None, &clean, now, 500));
    assert!(is_claim_target_safe(Some(calm), &clean, now, 500));
    assert!(!is_claim_target_safe(None, &clean, now, 99), "stale intel is not safety");
    assert!(!is_claim_target_safe(None, &intel(now, RoomDisposition::Hostile("x".to_string()), false), now, 500));
    assert!(!is_claim_target_safe(None, &intel(now, RoomDisposition::Friendly("y".to_string()), false), now, 500));
    let mut reserved = clean.clone();
    reserved.reservation = RoomDisposition::Hostile("x".to_string());
    assert!(!is_claim_target_safe(None, &reserved, now, 500));
    assert!(!is_claim_target_safe(None, &intel(now, RoomDisposition::Neutral, true), now, 500));
    let mut towered = clean.clone();
    towered.hostile_tower_present = true;
    assert!(!is_claim_target_safe(None, &towered, now, 500));
    for threat in [
        ClaimThreat { raid_or_worse: true, ..calm },
        ClaimThreat { attack_dps_positive: true, ..calm },
        ClaimThreat { towers: true, ..calm },
        ClaimThreat { nukes: true, ..calm },
    ] {
        assert!(!is_claim_target_safe(Some(threat), &clean, now, 500));
    }
}

#[test]
fn operation_homes_need_the_controller_level() {
    let mine = intel(5, RoomDisposition::Mine, false);
    assert!(home_room_qualifies(Some(&mine), 5, false, Some(2), 2));
    assert!(!home_room_qualifies(Some(&mine), 5, false, Some(1), 2));
    assert!(!home_room_qualifies(Some(&mine), 5, false, None, 2));
    assert!(home_room_qualifies(Some(&mine), 5, false, None, 0));
    assert!(!home_room_qualifies(Some(&mine), 6, false, Some(8), 2), "not visible now");
}
