use ibex::roomdata::{
    name_option_to_disposition, name_to_disposition, observe_room, DroppedResourceData, LootPile, RoomObservation,
    RoomTerrainStatistics,
};
use ibex::roomdata::{next_derelict_since, RoomDisposition, RoomDynamicVisibilityData};
use ibex::war::Part;

fn hostile() -> RoomDisposition {
    RoomDisposition::Hostile("enemy".to_string())
}

fn dvd(update_tick: u32, owner: RoomDisposition, derelict_since: Option<u32>) -> RoomDynamicVisibilityData {
    RoomDynamicVisibilityData {
        update_tick,
        owner,
        reservation: RoomDisposition::Neutral,
        source_keeper: false,
        sign: None,
        hostile_creeps: false,
        hostile_structures: false,
        hostile_spawns: false,
        hostile_towers: false,
        hostile_threat_creeps: false,
        hostile_tower_present: false,
        safe_mode_end: None,
        controller_level: Some(3),
        controller_ticks_to_downgrade: Some(10_000),
        derelict_since,
    }
}

#[test]
fn militarily_active_requires_capability() {
    let quiet = dvd(100, hostile(), Some(100));
    assert!(!quiet.militarily_active());

    for flag in ["creeps", "spawns", "towers"] {
        let mut armed = dvd(100, hostile(), None);
        match flag {
            "creeps" => armed.hostile_creeps = true,
            "spawns" => armed.hostile_spawns = true,
            _ => armed.hostile_towers = true,
        }
        assert!(armed.militarily_active(), "{} should militarise", flag);
        assert!(!armed.derelict(), "{} should break derelict", flag);
    }
}

#[test]
fn threat_creeps_break_derelict_without_militarising() {
    let mut serviced = dvd(100, hostile(), Some(100));
    serviced.hostile_threat_creeps = true;

    assert!(!serviced.militarily_active());
    assert!(!serviced.derelict());
}

#[test]
fn derelict_requires_hostile_owner() {
    assert!(!dvd(100, RoomDisposition::Neutral, None).derelict());
    assert!(!dvd(100, RoomDisposition::Mine, None).derelict());
    assert!(dvd(100, hostile(), Some(100)).derelict());
}

#[test]
fn confirmation_requires_observed_span_not_wall_clock() {
    let single = dvd(100, hostile(), Some(100));
    assert!(!single.confirmed_derelict_at(5_000, 2_000, 10_000));

    let confirmed = dvd(2_500, hostile(), Some(100));
    assert!(confirmed.confirmed_derelict_at(2_600, 2_000, 10_000));

    assert!(!confirmed.confirmed_derelict_at(2_600, 3_000, 10_000));
}

#[test]
fn stale_intel_falls_back_to_hostile() {
    let confirmed = dvd(2_500, hostile(), Some(100));

    assert!(confirmed.confirmed_derelict_at(12_500, 2_000, 10_000));
    assert!(!confirmed.confirmed_derelict_at(12_501, 2_000, 10_000));
}

#[test]
fn sighting_due_waits_for_the_confirm_window() {
    let single = dvd(100, hostile(), Some(100));
    assert!(!single.derelict_sighting_due_at(2_099, 2_000, 5_000));
    assert!(single.derelict_sighting_due_at(2_100, 2_000, 5_000));
}

#[test]
fn sighting_not_due_while_confirmed_and_fresh() {
    let confirmed = dvd(2_500, hostile(), Some(100));
    assert!(!confirmed.derelict_sighting_due_at(2_600, 2_000, 5_000));

    assert!(confirmed.derelict_sighting_due_at(7_501, 2_000, 5_000));
}

#[test]
fn sighting_never_due_without_derelict_classification() {
    let mut armed = dvd(100, hostile(), None);
    armed.hostile_towers = true;
    assert!(!armed.derelict_sighting_due_at(50_000, 2_000, 5_000));

    assert!(!dvd(100, RoomDisposition::Neutral, None).derelict_sighting_due_at(50_000, 2_000, 5_000));
}

#[test]
fn sighting_due_implies_a_sighting_now_confirms() {
    let confirm_ticks = 2_000;
    let max_age = 5_000;

    for since in [100u32, 1_000, 4_000] {
        for update_tick in [100u32, 2_500, 4_000] {
            if update_tick < since {
                continue;
            }
            for now in [update_tick, update_tick + 1_999, update_tick + 2_000, update_tick + 10_000] {
                let state = dvd(update_tick, hostile(), Some(since));

                assert!(
                    !(state.derelict_sighting_due_at(now, confirm_ticks, max_age)
                        && state.confirmed_derelict_at(now, confirm_ticks, max_age)),
                    "due and confirmed must be mutually exclusive (since {}, seen {}, now {})",
                    since,
                    update_tick,
                    now
                );

                if state.derelict_sighting_due_at(now, confirm_ticks, max_age) {
                    let after_sighting = dvd(now, hostile(), Some(since));
                    assert!(
                        after_sighting.confirmed_derelict_at(now, confirm_ticks, max_age),
                        "a due sighting must confirm (since {}, seen {}, now {})",
                        since,
                        update_tick,
                        now
                    );
                }
            }
        }
    }
}

#[test]
fn derelict_since_carries_only_under_same_owner() {
    let enemy = hostile();
    let other = RoomDisposition::Hostile("other".to_string());

    assert_eq!(next_derelict_since(true, &enemy, Some(&enemy), Some(100), 2_500), Some(100));
    assert_eq!(next_derelict_since(true, &other, Some(&enemy), Some(100), 2_500), Some(2_500));
    assert_eq!(next_derelict_since(true, &enemy, None, None, 2_500), Some(2_500));
    assert_eq!(next_derelict_since(false, &enemy, Some(&enemy), Some(100), 2_500), None);
}

#[test]
fn same_owner_without_a_mark_starts_the_clock() {
    let enemy = hostile();
    assert_eq!(next_derelict_since(true, &enemy, Some(&enemy), None, 700), Some(700));
    // A neutral room becoming hostile-owned is an ownership change.
    assert_eq!(next_derelict_since(true, &enemy, Some(&RoomDisposition::Neutral), Some(5), 700), Some(700));
}

#[test]
fn age_visibility_and_safe_mode_read_the_given_tick() {
    let mut d = dvd(1_000, hostile(), None);
    assert_eq!(d.age(1_250), 250);
    assert_eq!(d.age(900), 0);
    assert!(d.visible(1_000));
    assert!(!d.visible(1_001));
    assert!(d.updated_within(1_100, 100));
    assert!(!d.updated_within(1_101, 100));
    d.safe_mode_end = Some(2_000);
    assert!(d.safe_mode_active(1_999));
    assert!(!d.safe_mode_active(2_000));
    assert_eq!(d.predicted_downgrade_tick(), Some(11_000));
    d.controller_ticks_to_downgrade = Some(u32::MAX);
    assert_eq!(d.predicted_downgrade_tick(), Some(u32::MAX));
    assert_eq!(dvd(2_500, hostile(), Some(100)).derelict_for(), Some(2_400));
}

#[test]
fn terrain_statistics_count_walls_swamps_and_plains() {
    // Bit 0 = wall, bit 1 = swamp; a wall with the swamp bit is a wall.
    let mut terrain = vec![0u8; 2500];
    for i in 0..100 {
        terrain[i] = 1;
    }
    for i in 100..130 {
        terrain[i] = 3;
    }
    for i in 130..430 {
        terrain[i] = 2;
    }
    let stats = RoomTerrainStatistics::from_terrain(&terrain);
    assert_eq!(stats.wall_tiles(), 130);
    assert_eq!(stats.swamp_tiles(), 300);
    assert_eq!(stats.plain_tiles(), 2070);
    assert_eq!(stats.walkable_tiles(), 2370);

    let open = RoomTerrainStatistics::from_terrain(&vec![0u8; 2500]);
    assert_eq!((open.walkable_tiles(), open.wall_tiles()), (2500, 0));
}

#[test]
fn loot_totals_sum_every_pile() {
    let data = DroppedResourceData {
        last_updated: 10,
        // 500 energy dropped, 200 of another resource dropped.
        resources: vec![LootPile { energy: 500, total: 500 }, LootPile { energy: 0, total: 200 }],
        tombstones: vec![LootPile { energy: 50, total: 80 }],
        ruins: vec![LootPile { energy: 1000, total: 3000 }],
    };
    assert_eq!(data.total_energy(), 1550);
    assert_eq!(data.total_loot_value(), 3780);
    let empty = DroppedResourceData { last_updated: 0, resources: vec![], tombstones: vec![], ruins: vec![] };
    assert_eq!((empty.total_energy(), empty.total_loot_value()), (0, 0));
}

fn observation() -> RoomObservation {
    RoomObservation {
        owner_name: Some("enemy".to_string()),
        reservation_name: None,
        sign: Some(("enemy".to_string(), "keep out".to_string())),
        has_keeper_lairs: false,
        hostile_bodies: vec![],
        owned_structures: vec![(true, false)],
        spawns: vec![(false, false)],
        towers: vec![(false, true, 5)],
        safe_mode_remaining: None,
        controller_level: Some(4),
        controller_ticks_to_downgrade: Some(20_000),
    }
}

#[test]
fn names_classify_against_our_username() {
    let me = "ibex".to_string();
    assert_eq!(name_to_disposition("ibex".to_string(), &me), RoomDisposition::Mine);
    assert_eq!(name_to_disposition("enemy".to_string(), &me), RoomDisposition::Hostile("enemy".to_string()));
    assert_eq!(name_option_to_disposition(None, &me), RoomDisposition::Neutral);
}

#[test]
fn a_dead_hostile_room_is_recorded_derelict_and_keeps_its_clock() {
    let me = "ibex".to_string();
    // Inactive spawn, tower without energy to fire, no creeps: derelict.
    let first = observe_room(None, observation(), &me, 1_000);
    assert_eq!(first.owner, RoomDisposition::Hostile("enemy".to_string()));
    assert!(first.hostile_structures && !first.hostile_spawns && !first.hostile_towers);
    assert!(first.derelict());
    assert_eq!(first.derelict_since, Some(1_000));
    assert_eq!(first.sign.as_ref().unwrap().message, "keep out");
    let second = observe_room(Some(&first), observation(), &me, 3_000);
    assert_eq!(second.derelict_since, Some(1_000), "same owner keeps the clock");
    assert_eq!(second.derelict_for(), Some(2_000));

    // A new owner restarts it; a fueled active tower breaks it.
    let mut new_owner = observation();
    new_owner.owner_name = Some("other".to_string());
    assert_eq!(observe_room(Some(&second), new_owner, &me, 4_000).derelict_since, Some(4_000));
    let mut armed = observation();
    armed.towers = vec![(false, true, 10)];
    let armed = observe_room(Some(&second), armed, &me, 4_000);
    assert!(armed.hostile_towers && armed.derelict_since.is_none());
}

#[test]
fn hostile_parts_split_combat_from_threat() {
    let me = "ibex".to_string();
    let mut healers = observation();
    healers.hostile_bodies = vec![vec![Part::Move, Part::Heal]];
    let d = observe_room(None, healers, &me, 10);
    assert!(!d.hostile_creeps && d.hostile_threat_creeps, "a healer threatens without fighting");
    let mut scouts = observation();
    scouts.hostile_bodies = vec![vec![Part::Move], vec![Part::Tough, Part::Move]];
    let d = observe_room(None, scouts, &me, 10);
    assert!(!d.hostile_creeps && !d.hostile_threat_creeps);
    let mut miners = observation();
    miners.hostile_bodies = vec![vec![Part::Move], vec![Part::Work]];
    assert!(observe_room(None, miners, &me, 10).hostile_creeps);
    let mut safe = observation();
    safe.safe_mode_remaining = Some(500);
    assert_eq!(observe_room(None, safe, &me, u32::MAX - 100).safe_mode_end, Some(u32::MAX));
}

#[test]
fn dispositions_describe_their_holder() {
    assert_eq!(RoomDisposition::Neutral.describe(), "Neutral");
    assert_eq!(RoomDisposition::Mine.describe(), "Mine");
    assert_eq!(RoomDisposition::Friendly("ally".to_string()).describe(), "Friendly: ally");
    assert_eq!(RoomDisposition::Hostile("foe".to_string()).describe(), "Hostile: foe");
}
