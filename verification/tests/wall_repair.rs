use ibex::repairqueue::RepairPriority;
use ibex::wall_repair::{
    wall_emergency, wall_repair_priority, WallRepairClock, WallRepairStep, EMERGENCY_WALL_HITS, MODERATE_WALL_HITS,
};

#[test]
fn urgency_follows_the_hit_thresholds() {
    assert_eq!(wall_repair_priority(EMERGENCY_WALL_HITS - 1, 3_000_000), Some(RepairPriority::Critical));
    assert_eq!(wall_repair_priority(EMERGENCY_WALL_HITS, 3_000_000), Some(RepairPriority::High));
    assert_eq!(wall_repair_priority(MODERATE_WALL_HITS - 1, 3_000_000), Some(RepairPriority::High));
    assert_eq!(wall_repair_priority(MODERATE_WALL_HITS, 3_000_000), Some(RepairPriority::Medium));
    assert_eq!(wall_repair_priority(3_000_000, 3_000_000), None);
}

#[test]
fn emergency_counts_only_owned_ramparts() {
    assert!(!wall_emergency(&[(false, 10)], &[]), "a foreign rampart is not ours to save");
    assert!(wall_emergency(&[(true, 10)], &[]));
    assert!(wall_emergency(&[], &[500_000, 10]));
    assert!(!wall_emergency(&[(true, EMERGENCY_WALL_HITS)], &[EMERGENCY_WALL_HITS]));
}

#[test]
fn clock_scans_every_twenty_ticks_and_completes_when_idle() {
    let mut clock = WallRepairClock::new();
    assert_eq!(clock.step(10, true, true), WallRepairStep::Wait);
    assert_eq!(clock.step(20, true, true), WallRepairStep::Scan);
    assert_eq!(clock.ticks_since_hostiles, 0);
    assert_eq!(clock.step(39, true, false), WallRepairStep::Wait);
    // Hostile-free scans add up the elapsed ticks.
    assert_eq!(clock.step(40, true, false), WallRepairStep::Scan);
    assert_eq!(clock.ticks_since_hostiles, 20);
    assert_eq!(clock.step(80, true, false), WallRepairStep::Scan);
    assert_eq!(clock.ticks_since_hostiles, 60);
    // Missing structure data skips the scan but keeps the idle count.
    assert_eq!(clock.step(100, false, false), WallRepairStep::Skip);
    assert_eq!(clock.ticks_since_hostiles, 60);
    assert_eq!(clock.step(140, true, false), WallRepairStep::Done);
    // Hostiles reset the idle count.
    let mut clock = WallRepairClock { last_scan_tick: 0, ticks_since_hostiles: 90 };
    assert_eq!(clock.step(20, true, true), WallRepairStep::Scan);
    assert_eq!(clock.ticks_since_hostiles, 0);
}
