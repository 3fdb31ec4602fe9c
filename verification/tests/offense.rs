use ibex::geometry::{Position, RoomName};
use ibex::objectives::{ObjectiveKind, ObjectivePriority};
use ibex::offense::{offense_pass, OffenseRoom, OffenseSettings};

fn room(name: &str) -> RoomName {
    RoomName::from_packed(screeps::RoomName::new(name).unwrap().packed_repr())
}

fn quiet(name: &str, distance: u32) -> OffenseRoom {
    OffenseRoom {
        room: room(name),
        is_owned: false,
        min_distance: distance,
        last_seen: 990,
        core: None,
        is_our_remote: false,
        has_sources: false,
        hostile_owner: false,
        all_npc: true,
        player_threat: false,
        tower_count: 0,
        has_safe_mode: false,
        core_winnable: false,
    }
}

fn core_room(name: &str, winnable: bool) -> OffenseRoom {
    // A reserver core in our remote two hops out: 60 - 0 - 6 = 54.
    OffenseRoom {
        core: Some((0, Position { world_x: 10, world_y: 20 })),
        is_our_remote: true,
        core_winnable: winnable,
        ..quiet(name, 2)
    }
}

fn denial_room(name: &str) -> OffenseRoom {
    // A hostile player's room three hops out with one tower: 40 - 12 - 5 = 23.
    OffenseRoom {
        hostile_owner: true,
        all_npc: false,
        player_threat: true,
        tower_count: 1,
        ..quiet(name, 3)
    }
}

fn settings() -> OffenseSettings {
    OffenseSettings { attack_invaders: true, attack_players: true, total_stored_energy: 200_000, now: 1000 }
}

fn rooms() -> Vec<OffenseRoom> {
    vec![
        denial_room("W3N3"),
        OffenseRoom { last_seen: 700, ..denial_room("W4N4") },
        OffenseRoom { is_owned: true, ..denial_room("W5N5") },
        denial_room("W6N6"),
        core_room("W2N2", true),
        OffenseRoom { min_distance: 11, ..denial_room("W7N7") },
    ]
}

#[test]
fn offense_pass_posts_in_rank_order_under_the_cap() {
    let mut rs = rooms();
    rs.remove(3);
    let plan = offense_pass(&[room("W1N1")], &rs, settings(), &[], 0, 2);
    // Ranked: the flag (100), the core (54), the denial room (23); the cap
    // of two leaves the last new one out.
    assert_eq!(plan.objectives.len(), 2);
    assert_eq!(plan.objectives[0].kind, ObjectiveKind::Secure { room: room("W1N1") });
    assert_eq!(plan.objectives[0].priority, ObjectivePriority::High);
    assert_eq!(
        plan.objectives[1].kind,
        ObjectiveKind::Dismantle { room: room("W2N2"), pos: Position { world_x: 10, world_y: 20 } }
    );
    // The stale room is sent for a re-scout; owned and far rooms are skipped.
    assert_eq!(plan.rescout, vec![room("W4N4")]);
}

#[test]
fn offense_pass_reasserts_posted_objectives_over_the_cap() {
    let mut rs = rooms();
    rs.remove(3);
    let existing = [ObjectiveKind::Harass { room: room("W3N3") }];
    let plan = offense_pass(&[room("W1N1")], &rs, settings(), &existing, 2, 2);
    assert_eq!(plan.objectives.len(), 1);
    assert_eq!(plan.objectives[0].kind, ObjectiveKind::Harass { room: room("W3N3") });
    assert_eq!(plan.objectives[0].priority, ObjectivePriority::Low);
}

#[test]
fn an_unwinnable_core_posts_nothing_and_leaves_the_cap() {
    let rs = vec![core_room("W2N2", false), denial_room("W3N3")];
    let plan = offense_pass(&[], &rs, settings(), &[], 0, 1);
    assert_eq!(plan.objectives.len(), 1);
    assert_eq!(plan.objectives[0].kind, ObjectiveKind::Harass { room: room("W3N3") });
}

#[test]
fn a_flagged_room_keeps_only_its_best_candidate() {
    let rs = vec![denial_room("W3N3"), denial_room("W6N6")];
    let plan = offense_pass(&[room("W3N3")], &rs, settings(), &[], 0, 5);
    assert_eq!(plan.objectives.len(), 2);
    assert_eq!(plan.objectives[0].kind, ObjectiveKind::Secure { room: room("W3N3") });
    assert_eq!(plan.objectives[1].kind, ObjectiveKind::Harass { room: room("W6N6") });
}

#[test]
fn offense_pass_with_nothing_posts_nothing() {
    let plan = offense_pass(&[], &[], settings(), &[], 0, 3);
    assert!(plan.objectives.is_empty());
    assert!(plan.rescout.is_empty());
}
