use ibex::war::{max_concurrent_attacks, neighbor_intel_stale};
use ibex::geometry::RoomName;
use ibex::pathfinderservice::CachedRoute;
use ibex::tier::Tier;
use ibex::war::{
    admit_offense_objectives, best_force_home, cadence_elapsed, effective_cadence, hostile_warrants_defender,
    invader_core_attack_score, min_distance_to_homes, offense_room_gate, rank_attack_candidates,
    resource_denial_score, OffenseGate, Part, DEFENSE_CADENCE, OFFENSE_CADENCE, RECOMPUTE_CADENCE,
};

#[test]
fn war_cadences_stretch_with_the_governor() {
    for tier in [Tier::Normal, Tier::Conserve, Tier::Critical] {
        assert_eq!(effective_cadence(DEFENSE_CADENCE, tier, true), DEFENSE_CADENCE, "{tier:?}");
    }
    assert_eq!(effective_cadence(OFFENSE_CADENCE, Tier::Normal, false), 10);
    assert_eq!(effective_cadence(OFFENSE_CADENCE, Tier::Conserve, false), 20);
    assert_eq!(effective_cadence(OFFENSE_CADENCE, Tier::Critical, false), 40);
    assert_eq!(effective_cadence(RECOMPUTE_CADENCE, Tier::Critical, false), 200);
    assert_eq!(DEFENSE_CADENCE, 2);
    assert_eq!(OFFENSE_CADENCE, 10);
    assert_eq!(RECOMPUTE_CADENCE, 50);
}

#[test]
fn cadence_stretch_saturates() {
    assert_eq!(effective_cadence(u32::MAX / 2 + 1, Tier::Conserve, false), u32::MAX);
    assert_eq!(effective_cadence(u32::MAX / 4, Tier::Critical, false), (u32::MAX / 4) * 4);
    assert_eq!(effective_cadence(u32::MAX / 4 + 1, Tier::Critical, false), u32::MAX);
}

#[test]
fn unarmed_controller_attacker_warrants_a_defender() {
    assert!(hostile_warrants_defender(&[Part::Claim, Part::Move]));
    assert!(hostile_warrants_defender(&[Part::Work, Part::Move]));
    assert!(hostile_warrants_defender(&[Part::Heal, Part::Move]));
    assert!(hostile_warrants_defender(&[Part::Attack, Part::Move]));
    assert!(hostile_warrants_defender(&[Part::RangedAttack, Part::Move]));
}

#[test]
fn unarmed_transient_creeps_do_not_warrant_a_defender() {
    assert!(!hostile_warrants_defender(&[Part::Move, Part::Move]));
    assert!(!hostile_warrants_defender(&[Part::Carry, Part::Move]));
    assert!(!hostile_warrants_defender(&[Part::Tough, Part::Move]));
    assert!(!hostile_warrants_defender(&[]));
}

#[test]
fn cadence_elapsed_never_run_returns_true() {
    assert!(cadence_elapsed(100, None, 1));
    assert!(cadence_elapsed(0, None, 50));
}

#[test]
fn cadence_elapsed_normal_progression() {
    assert!(!cadence_elapsed(100, Some(100), 1));
    assert!(cadence_elapsed(101, Some(100), 1));
    assert!(!cadence_elapsed(149, Some(100), 50));
    assert!(cadence_elapsed(150, Some(100), 50));
}

#[test]
fn cadence_elapsed_future_last_tick_is_benign() {
    assert!(!cadence_elapsed(100, Some(10_000), 1));
    assert!(!cadence_elapsed(0, Some(u32::MAX), 50));
}

/// The score as the float the targeting code ranks by.
fn score(level: u8, dist: u32, energy: u32, remote: bool, sources: bool) -> Option<f32> {
    invader_core_attack_score(level, dist, energy, remote, sources).map(|s| s as f32)
}

#[test]
fn reserver_core_in_blocked_remote_is_targeted() {
    let score_v = score(0, 1, 0, false, true);
    assert_eq!(score_v, Some(57.0), "{score_v:?}");
    assert!(score(0, 1, 0, true, false).is_some());
}

#[test]
fn reserver_core_outside_our_interest_is_left_to_expire() {
    assert_eq!(score(0, 1, 500_000, false, false), None);
    assert_eq!(score(0, 2, 500_000, false, true), None);
}

#[test]
fn stronghold_affordability_tiers() {
    assert_eq!(score(1, 1, 30_000, false, false), None);
    assert!(score(1, 1, 30_001, false, false).is_some());
    assert_eq!(score(2, 1, 100_000, false, false), None);
    assert!(score(3, 1, 100_001, false, false).is_some());
    assert_eq!(score(4, 1, 200_000, false, false), None);
    assert!(score(5, 1, 200_001, false, false).is_some());
    assert!(score(0, 1, 0, true, false).is_some());
}

#[test]
fn core_score_monotonic_in_distance_and_level() {
    for level in 0..=5u8 {
        for dist in 0..6u32 {
            let near = score(level, dist, 500_000, true, true);
            let far = score(level, dist + 1, 500_000, true, true);
            if let (Some(near), Some(far)) = (near, far) {
                assert!(near > far, "level {level} dist {dist}: {near} <= {far}");
            }
        }
    }
    for level in 0..5u8 {
        let easy = score(level, 1, 500_000, true, true);
        let hard = score(level + 1, 1, 500_000, true, true);
        if let (Some(easy), Some(hard)) = (easy, hard) {
            assert!(easy > hard, "level {level}: {easy} <= {hard}");
        }
    }
}

#[test]
fn far_cores_score_nothing() {
    // 60 - 5·0 - 3·20 = 0: not positive, not a target.
    assert_eq!(score(0, 20, 0, true, false), None);
    assert_eq!(score(0, 19, 0, true, false), Some(3.0));
    assert_eq!(score(0, u32::MAX, 500_000, true, true), None);
    // A stronghold outside our interest starts from the lower base.
    assert_eq!(score(1, 3, 30_001, false, false), Some(16.0));
}

fn route(hops: u32, reachable: bool) -> CachedRoute {
    CachedRoute { hops, travel_ticks: hops.saturating_mul(50), cached_at: 0, reachable }
}

#[test]
fn min_distance_takes_the_nearest_reachable_home() {
    assert_eq!(min_distance_to_homes(&[]), u32::MAX);
    assert_eq!(min_distance_to_homes(&[route(4, true), route(2, true), route(7, true)]), 2);
    // An unreachable home never counts, whatever hops it records.
    assert_eq!(min_distance_to_homes(&[route(1, false), route(3, true)]), 3);
    assert_eq!(min_distance_to_homes(&[route(1, false)]), u32::MAX);
}

#[test]
fn best_force_home_maximises_on_site_time() {
    assert_eq!(best_force_home(&[]), None);
    assert_eq!(best_force_home(&[None, None]), None);
    assert_eq!(best_force_home(&[Some(300), None, Some(900), Some(500)]), Some(2));
    // Ties keep the first home.
    assert_eq!(best_force_home(&[None, Some(700), Some(700)]), Some(1));
}

fn rn(name: &str) -> RoomName {
    RoomName::from_packed(screeps::RoomName::new(name).unwrap().packed_repr())
}

#[test]
fn offense_gate_skips_owned_far_and_stale_rooms() {
    assert_eq!(offense_room_gate(true, 1, 1_000, 1_000), OffenseGate::SkipOwned);
    assert_eq!(offense_room_gate(false, 11, 1_000, 1_000), OffenseGate::SkipFar);
    assert_eq!(offense_room_gate(false, 10, 1_000, 799), OffenseGate::Rescout);
    assert_eq!(offense_room_gate(false, 10, 1_000, 800), OffenseGate::Evaluate);
    assert_eq!(offense_room_gate(false, 3, 10, 500), OffenseGate::Evaluate, "intel from the future is fresh");
}

#[test]
fn resource_denial_needs_a_rich_chest_and_a_close_player_room() {
    assert_eq!(resource_denial_score(true, true, false, true, 150_001, 2, 1, false), Some(27));
    assert_eq!(resource_denial_score(true, true, false, true, 150_001, 2, 1, true), Some(7));
    assert_eq!(resource_denial_score(true, true, false, true, 150_000, 2, 1, false), None, "chest too small");
    assert_eq!(resource_denial_score(true, true, false, true, 500_000, 7, 0, false), None, "too far");
    assert_eq!(resource_denial_score(true, true, false, true, 500_000, 5, 4, false), None, "score not positive");
    assert_eq!(resource_denial_score(true, true, true, true, 500_000, 1, 0, false), None, "only NPCs about");
    assert_eq!(resource_denial_score(false, true, false, true, 500_000, 1, 0, false), None);
    assert_eq!(resource_denial_score(true, false, false, true, 500_000, 1, 0, false), None);
    assert_eq!(resource_denial_score(true, true, false, false, 500_000, 1, 0, false), None);
}

#[test]
fn attack_candidates_rank_one_per_room_by_score_then_name() {
    let (a, b, c) = (rn("W5N5"), rn("W6N6"), rn("W7N7"));
    // b twice (57 and 100), a and c tie at 40.
    let cands = [(c, 40), (b, 57), (a, 40), (b, 100), (b, 100)];
    let ranked = rank_attack_candidates(&cands);
    let mut tied = vec![(screeps::RoomName::new("W5N5").unwrap(), 2usize), (screeps::RoomName::new("W7N7").unwrap(), 0)];
    tied.sort();
    assert_eq!(ranked, vec![3, tied[0].1, tied[1].1]);
    assert!(rank_attack_candidates(&[]).is_empty());
}

#[test]
fn new_offense_objectives_respect_the_cap() {
    // One running, cap 2: the first new one fits, later new ones wait; a
    // known objective is always re-asserted.
    assert_eq!(admit_offense_objectives(&[true, false, true, true], 1, 2), vec![true, true, false, false]);
    assert_eq!(admit_offense_objectives(&[false, false], 5, 2), vec![true, true]);
    assert!(admit_offense_objectives(&[], 0, 0).is_empty());
}

#[test]
fn offense_cap_scales_with_rooms_and_stored_energy() {
    assert_eq!(max_concurrent_attacks(0, 0), 1);
    assert_eq!(max_concurrent_attacks(1, 0), 1);
    assert_eq!(max_concurrent_attacks(2, 0), 1);
    assert_eq!(max_concurrent_attacks(5, 0), 4);
    assert_eq!(max_concurrent_attacks(5, 100_000), 4);
    assert_eq!(max_concurrent_attacks(5, 100_001), 5);
    assert_eq!(max_concurrent_attacks(5, 300_001), 6);
}

#[test]
fn neighbors_without_recent_intel_are_refreshed() {
    assert!(neighbor_intel_stale(None));
    assert!(!neighbor_intel_stale(Some(100)));
    assert!(neighbor_intel_stale(Some(101)));
}
