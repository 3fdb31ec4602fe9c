use ibex::geometry::RoomName;
use ibex::roomdata::{RoomDisposition, RoomDynamicVisibilityData};
use ibex::salvage::{
    salvage_candidate, salvage_costs_fit_check, salvage_estimate, salvage_scan_due, salvage_slots, salvage_strategic, SalvageEstimate,
    SalvageLedger, SalvageRejection, SalvageWork,
};

fn work(loot_energy: u32, loot_other: u32, dismantle_hits: u32) -> SalvageWork {
    SalvageWork { loot_energy, loot_other, dismantle_hits }
}

fn room(name: &str) -> RoomName {
    RoomName::from_packed(screeps::RoomName::new(name).unwrap().packed_repr())
}

fn intel(owner: RoomDisposition, update_tick: u32, derelict_since: Option<u32>) -> RoomDynamicVisibilityData {
    RoomDynamicVisibilityData {
        update_tick,
        owner,
        reservation: RoomDisposition::Neutral,
        source_keeper: false,
        sign: None,
        hostile_creeps: false,
        hostile_structures: true,
        hostile_spawns: false,
        hostile_towers: false,
        hostile_threat_creeps: false,
        hostile_tower_present: false,
        safe_mode_end: None,
        controller_level: Some(3),
        controller_ticks_to_downgrade: Some(10_000),
        derelict_since,
    }
}

#[test]
fn scan_runs_on_its_phase_tick() {
    assert!(salvage_scan_due(10));
    assert!(salvage_scan_due(1_060));
    assert!(!salvage_scan_due(11));
    assert!(!salvage_scan_due(50));
}

#[test]
fn estimate_needs_actionable_work() {
    assert_eq!(salvage_estimate(&work(0, 0, 0), 50, true, true, true), SalvageEstimate::NoWork);
    // Loot without raiding, hits without dismantling: nothing to do.
    assert_eq!(salvage_estimate(&work(50_000, 0, 0), 50, false, false, true), SalvageEstimate::NoWork);
    assert_eq!(salvage_estimate(&work(0, 0, 1_000_000), 50, false, true, false), SalvageEstimate::NoWork);
    // Strategic rooms skip the pricing but still need work.
    assert_eq!(salvage_estimate(&work(100, 0, 0), 50, true, true, true), SalvageEstimate::Strategic);
}

#[test]
fn estimate_prices_raiders_and_dismantlers() {
    // 50k energy one room over: 100 trips of 150 ticks = 10 lifetimes.
    assert_eq!(
        salvage_estimate(&work(50_000, 0, 0), 50, false, true, true),
        SalvageEstimate::Priced { loot: 50_000, raid_cost: 10_000, dismantle_hits: 0, dismantle_cost: 0 }
    );
    // 500 energy eight rooms away: one trip, one lifetime.
    assert_eq!(
        salvage_estimate(&work(500, 0, 0), 400, false, true, true),
        SalvageEstimate::Priced { loot: 500, raid_cost: 1_000, dismantle_hits: 0, dismantle_cost: 0 }
    );
    // 2M hits: 4000 work ticks over 1450-tick lifetimes = 3 dismantlers.
    assert_eq!(
        salvage_estimate(&work(0, 0, 2_000_000), 50, false, true, true),
        SalvageEstimate::Priced { loot: 0, raid_cost: 0, dismantle_hits: 2_000_000, dismantle_cost: 9_300 }
    );
    // Minerals count as loot.
    assert_eq!(
        salvage_estimate(&work(0, 50_000, 0), 50, false, true, true),
        SalvageEstimate::Priced { loot: 50_000, raid_cost: 10_000, dismantle_hits: 0, dismantle_cost: 0 }
    );
    // Far away, a dismantler's lifetime is never counted under 300 ticks.
    assert_eq!(
        salvage_estimate(&work(0, 0, 1_000_000), 1_400, false, true, true),
        SalvageEstimate::Priced { loot: 0, raid_cost: 0, dismantle_hits: 1_000_000, dismantle_cost: 7 * 3_100 }
    );
    assert_eq!(work(1, 2, 3).loot_total(), 3);
}

#[test]
fn strategic_means_sources_within_outpost_reach() {
    assert!(salvage_strategic(true, 50));
    assert!(!salvage_strategic(true, 51));
    assert!(!salvage_strategic(false, 10));
}

#[test]
fn candidates_are_confirmed_derelicts_or_quiet_neutral_remnants() {
    let now = 10_000;
    let hostile = RoomDisposition::Hostile("enemy".to_string());
    // Confirmed derelict: derelict for 2000 ticks, seen 100 ticks ago.
    let derelict = intel(hostile.clone(), now - 100, Some(now - 2_100));
    assert!(salvage_candidate(&derelict, now, 2_000, 5_000, 3, 5));
    assert!(!salvage_candidate(&derelict, now, 2_000, 5_000, 6, 5), "out of range");
    assert!(!salvage_candidate(&intel(hostile, now - 100, Some(now - 1_000)), now, 2_000, 5_000, 3, 5));

    let neutral = intel(RoomDisposition::Neutral, now - 100, None);
    assert!(salvage_candidate(&neutral, now, 2_000, 5_000, 1, 5));
    let mut reserved = neutral.clone();
    reserved.reservation = RoomDisposition::Friendly("friend".to_string());
    assert!(!salvage_candidate(&reserved, now, 2_000, 5_000, 1, 5));
    let mut stale = neutral.clone();
    stale.update_tick = now - 5_001;
    assert!(!salvage_candidate(&stale, now, 2_000, 5_000, 1, 5));
    let mut bare = neutral.clone();
    bare.hostile_structures = false;
    assert!(!salvage_candidate(&bare, now, 2_000, 5_000, 1, 5));
    let mut keeper = neutral.clone();
    keeper.source_keeper = true;
    assert!(!salvage_candidate(&keeper, now, 2_000, 5_000, 1, 5));
    let mut safe = neutral.clone();
    safe.safe_mode_end = Some(now + 1);
    assert!(!salvage_candidate(&safe, now, 2_000, 5_000, 1, 5));
    assert!(!salvage_candidate(&intel(RoomDisposition::Mine, now, None), now, 2_000, 5_000, 0, 5));
}

#[test]
fn ledger_cools_down_ended_missions() {
    let (a, b, c) = (room("W1N1"), room("W2N2"), room("W3N3"));
    let mut ledger = SalvageLedger::new();
    ledger.record_admission(a);
    ledger.record_admission(b);
    ledger.record_admission(c);
    ledger.reject(room("W9N9"), 100, 50);
    // b's mission is still running; a and c ended.
    ledger.close_ended(&[b], 1_000, 500);
    assert_eq!(ledger.admitted, vec![b]);
    assert_eq!(
        ledger.rejected,
        vec![
            SalvageRejection { room_name: room("W9N9"), until_tick: 150 },
            SalvageRejection { room_name: a, until_tick: 1_500 },
            SalvageRejection { room_name: c, until_tick: 1_500 },
        ]
    );
    assert!(ledger.is_rejected(a) && ledger.is_rejected(c) && !ledger.is_rejected(b));
    ledger.expire_rejections(1_000);
    assert_eq!(ledger.rejected.len(), 2);
    ledger.expire_rejections(1_500);
    assert!(ledger.rejected.is_empty());
}

#[test]
fn slots_floor_at_zero() {
    assert_eq!(salvage_slots(3, 1), 2);
    assert_eq!(salvage_slots(3, 5), 0);
}

#[test]
fn cost_model_fit_check_matches_its_bounds() {
    assert!(salvage_costs_fit_check(&work(50_000, 0, 2_000_000), 50));
    assert!(!salvage_costs_fit_check(&work(u32::MAX, 1, 0), 50), "loot total overflows");
    assert!(!salvage_costs_fit_check(&work(0, 0, 0), u32::MAX), "round trip overflows");
    assert!(!salvage_costs_fit_check(&work(u32::MAX, 0, 0), 1_000_000), "hauling overflows");
}
