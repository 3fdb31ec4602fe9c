use ibex::tower::{
    drain_response_target, heal_target, tower_repair_minimum, tower_volley, weakest_eligible, TowerHostile, TowerVolley, DrainTracker, DrainWatch, DRAIN_CLEANUP_INTERVAL, MAX_PROBE_STRIKES,
    MIN_PROBE_PROGRESS, PROBE_COOLDOWN,
};

const DRAINER: u128 = 0x5bbc_ab90_99d4_e7f1_f9fb_1be1;
const SCOUT: u128 = 0x5bbc_ab90_99d4_e7f1_f9fb_1be2;

/// One tick in the room: observe who is present, mark the rest departed.
fn tick(watch: &mut DrainWatch, present: &[(u128, u32)], now: u32) -> Vec<u128> {
    let engaged = watch.observe_hostiles(present, now);
    let ids: Vec<u128> = present.iter().map(|(id, _)| *id).collect();
    watch.mark_departed(&ids);
    engaged
}

#[test]
fn a_transiting_scout_is_never_confirmed() {
    let mut watch = DrainWatch::new();
    for now in 100..110 {
        assert!(tick(&mut watch, &[(SCOUT, 300)], now).is_empty());
    }
    for now in 110..200 {
        tick(&mut watch, &[], now);
    }
    assert!(watch.confirmed_drainers().is_empty());
    let t = watch.trackers[&SCOUT];
    assert_eq!(t.enter_count, 1);
    assert!(!t.was_present);
    assert_eq!(t.hits_on_exit, 300);
}

#[test]
fn a_healed_return_confirms_and_opens_a_probe() {
    let mut watch = DrainWatch::new();
    tick(&mut watch, &[(DRAINER, 1000)], 10);
    tick(&mut watch, &[(DRAINER, 600)], 11);
    tick(&mut watch, &[], 12);
    // Re-enters with more hits than it left with: one drain cycle.
    let engaged = tick(&mut watch, &[(DRAINER, 1000)], 13);
    assert_eq!(engaged, vec![DRAINER], "a fresh drainer gets a probe");
    assert!(watch.confirmed_drainers().contains(&DRAINER));
    assert_eq!(watch.trackers[&DRAINER].drain_cycles, 1);

    // Returning with fewer hits is no cycle.
    tick(&mut watch, &[], 14);
    tick(&mut watch, &[(DRAINER, 900)], 15);
    assert_eq!(watch.trackers[&DRAINER].drain_cycles, 1);
}

#[test]
fn failed_probes_strike_out_and_stop_for_good() {
    let mut watch = DrainWatch::new();
    tick(&mut watch, &[(DRAINER, 1000)], 10);
    tick(&mut watch, &[(DRAINER, 600)], 11);
    tick(&mut watch, &[], 12);
    let mut now = 13;
    assert_eq!(tick(&mut watch, &[(DRAINER, 1000)], now), vec![DRAINER]);

    // A volley that takes MIN_PROBE_PROGRESS hits off keeps the probe going.
    watch.record_probe_fired(DRAINER);
    now += 1;
    assert_eq!(tick(&mut watch, &[(DRAINER, 1000 - MIN_PROBE_PROGRESS)], now), vec![DRAINER]);
    assert_eq!(watch.trackers[&DRAINER].engage_baseline_hits, 1000 - MIN_PROBE_PROGRESS);

    let mut hits = 1000 - MIN_PROBE_PROGRESS;
    for strike in 1..=MAX_PROBE_STRIKES {
        // An out-healed volley is a strike and starts the cooldown.
        watch.record_probe_fired(DRAINER);
        now += 1;
        hits -= 10;
        assert!(tick(&mut watch, &[(DRAINER, hits)], now).is_empty());
        let t = watch.trackers[&DRAINER];
        assert_eq!(t.probe_strikes, strike);
        assert_eq!(t.probe_cooldown_until, now + PROBE_COOLDOWN);
        // Held off during the cooldown.
        now += 1;
        assert!(tick(&mut watch, &[(DRAINER, hits)], now).is_empty());
        now += PROBE_COOLDOWN;
        let engaged = tick(&mut watch, &[(DRAINER, hits)], now);
        if strike < MAX_PROBE_STRIKES {
            assert_eq!(engaged, vec![DRAINER], "probe resumes after the cooldown");
        } else {
            assert!(engaged.is_empty(), "the bait ceiling is permanent");
        }
    }
    for _ in 0..100 {
        now += 1;
        assert!(tick(&mut watch, &[(DRAINER, hits)], now).is_empty());
    }
    assert_eq!(watch.trackers[&DRAINER].probe_strikes, MAX_PROBE_STRIKES);
}

#[test]
fn cleanup_sweeps_stale_trackers_on_its_interval() {
    let mut watch = DrainWatch::new();
    tick(&mut watch, &[(SCOUT, 300)], 100);
    tick(&mut watch, &[(DRAINER, 300)], 550);
    // Not yet due: nothing changes.
    watch.cleanup(DRAIN_CLEANUP_INTERVAL);
    assert_eq!(watch.trackers.len(), 2);
    assert_eq!(watch.last_drain_cleanup, 0);
    // Due: the tracker unseen for 500 ticks goes, the fresh one stays.
    watch.cleanup(600);
    assert_eq!(watch.last_drain_cleanup, 600);
    assert!(!watch.trackers.contains_key(&SCOUT));
    assert!(watch.trackers.contains_key(&DRAINER));
}

#[test]
fn default_tracker_is_fresh() {
    let t = DrainTracker::default();
    assert_eq!((t.enter_count, t.drain_cycles, t.probe_strikes), (0, 0, 0));
    assert!(!t.was_present && !t.engaging && !t.probe_fired);
    assert!(!t.is_confirmed());
}

#[test]
fn weakest_eligible_takes_the_first_of_the_fewest_hits() {
    assert_eq!(weakest_eligible(&[]), None);
    assert_eq!(weakest_eligible(&[(10, false)]), None);
    assert_eq!(weakest_eligible(&[(500, true), (100, false), (300, true), (300, true)]), Some(2));
}

#[test]
fn drain_response_prefers_non_drainers_then_probed_drainers() {
    // (hits, confirmed drainer, probe engaged)
    assert_eq!(drain_response_target(&[(100, true, true), (900, false, false), (800, false, false)]), Some(2));
    assert_eq!(drain_response_target(&[(100, true, false), (900, true, true), (800, true, true)]), Some(2));
    assert_eq!(drain_response_target(&[(100, true, false), (900, true, false)]), None);
    assert_eq!(drain_response_target(&[]), None);
}

fn hostile(hits: u32, dangerous: bool, net_damage: bool) -> TowerHostile {
    TowerHostile { hits, dangerous, net_damage, drainer: false, probe_engaged: false, likely_drain: false }
}

#[test]
fn towers_focus_the_first_dangerous_weakest_hostile_they_can_hurt() {
    let hostiles = [
        hostile(100, false, true),
        hostile(900, true, true),
        hostile(50, true, false), // heals through our damage
        hostile(800, true, true),
        hostile(800, true, true),
    ];
    assert_eq!(tower_volley(&hostiles), TowerVolley::Attack { target: 3, probe: false });
    let calm = [hostile(300, false, true), hostile(200, false, true), hostile(200, false, true)];
    assert_eq!(tower_volley(&calm), TowerVolley::Attack { target: 1, probe: false });
}

#[test]
fn towers_conserve_energy_under_a_drain() {
    let mut drainer = hostile(100, true, true);
    drainer.drainer = true;
    let mut edge = hostile(700, false, false);
    edge.likely_drain = true;
    // A drainer is never the focus target; a healthy non-drainer is shot instead.
    assert_eq!(tower_volley(&[drainer, edge]), TowerVolley::Attack { target: 1, probe: false });
    // Only a drainer: hold fire unless it is under a probe.
    assert_eq!(tower_volley(&[drainer]), TowerVolley::Hold);
    let mut probed = drainer;
    probed.probe_engaged = true;
    assert_eq!(tower_volley(&[drainer, probed]), TowerVolley::Attack { target: 1, probe: true });
}

#[test]
fn without_a_drain_the_weakest_hostile_is_shot_anyway() {
    let hostiles = [hostile(500, true, false), hostile(400, false, false)];
    assert_eq!(tower_volley(&hostiles), TowerVolley::Attack { target: 1, probe: false });
    assert_eq!(tower_volley(&[]), TowerVolley::Hold);
}

#[test]
fn towers_heal_the_most_hurt_friendly_and_repair_by_threat() {
    assert_eq!(heal_target(&[(100, 100), (40, 100), (90, 300), (40, 50)]), Some(1));
    assert_eq!(heal_target(&[(100, 100)]), None);
    assert_eq!(tower_repair_minimum(true), ibex::repairqueue::RepairPriority::Medium);
    assert_eq!(tower_repair_minimum(false), ibex::repairqueue::RepairPriority::Low);
}

#[test]
fn cleanup_reads_ticks_ahead_of_the_clock_as_fresh() {
    let mut watch = DrainWatch::new();
    tick(&mut watch, &[(SCOUT, 300)], 5_000);
    watch.last_drain_cleanup = 4_000;
    // The clock went back: no sweep is due.
    watch.cleanup(1_000);
    assert_eq!(watch.last_drain_cleanup, 4_000);
    // A sweep that is due keeps a tracker seen "later" than now.
    watch.last_drain_cleanup = 0;
    watch.cleanup(1_000);
    assert_eq!(watch.last_drain_cleanup, 1_000);
    assert!(watch.trackers.contains_key(&SCOUT));
}
