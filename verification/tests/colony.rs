use ibex::colony::{homes_in_reclaim_range, reclaim_home, reclaim_target};
use ibex::geometry::RoomName;
use ibex::roomdata::{RoomDisposition, RoomDynamicVisibilityData};

fn room(name: &str) -> RoomName {
    RoomName::from_packed(screeps::RoomName::new(name).unwrap().packed_repr())
}

fn intel(owner: RoomDisposition, update_tick: u32) -> RoomDynamicVisibilityData {
    RoomDynamicVisibilityData {
        update_tick,
        owner,
        reservation: RoomDisposition::Neutral,
        source_keeper: false,
        sign: None,
        hostile_creeps: false,
        hostile_structures: false,
        hostile_spawns: false,
        hostile_towers: false,
        hostile_threat_creeps: false,
        hostile_tower_present: false,
        safe_mode_end: None,
        controller_level: Some(0),
        controller_ticks_to_downgrade: None,
        derelict_since: None,
    }
}

#[test]
fn reclaim_needs_a_visible_unclaimed_room_with_our_spawns() {
    let seen_now = intel(RoomDisposition::Neutral, 500);
    assert!(reclaim_target(&seen_now, 500, true, true, true, false));
    assert!(!reclaim_target(&seen_now, 501, true, true, true, false), "stale intel");
    assert!(!reclaim_target(&intel(RoomDisposition::Mine, 500), 500, true, true, true, false));
    assert!(!reclaim_target(&seen_now, 500, false, true, true, false));
    assert!(!reclaim_target(&seen_now, 500, true, false, true, false));
    assert!(!reclaim_target(&seen_now, 500, true, true, false, false));
    assert!(!reclaim_target(&seen_now, 500, true, true, true, true), "already being claimed");
}

#[test]
fn reclaim_homes_need_level_two() {
    assert!(reclaim_home(true, true, Some(2)));
    assert!(!reclaim_home(true, true, Some(1)));
    assert!(!reclaim_home(true, true, None));
    assert!(!reclaim_home(false, true, Some(8)));
    assert!(!reclaim_home(true, false, Some(8)));
}

#[test]
fn reclaim_range_is_manhattan_room_distance() {
    let target = room("W5N5");
    let homes = [room("W10N10"), room("W9N8"), room("E0N5"), room("W5S5"), room("W15N5")];
    for home in ["W10N10", "W9N8", "E0N5", "W5S5", "W15N5"] {
        let (dx, dy) = screeps::RoomName::new("W5N5").unwrap() - screeps::RoomName::new(home).unwrap();
        let in_range = dx.unsigned_abs() + dy.unsigned_abs() <= 10;
        let i = homes.iter().position(|h| *h == room(home)).unwrap();
        assert_eq!(homes_in_reclaim_range(target, &homes).contains(&i), in_range, "{home}");
    }
    assert_eq!(homes_in_reclaim_range(target, &homes), vec![0, 1, 2, 4]);
}
