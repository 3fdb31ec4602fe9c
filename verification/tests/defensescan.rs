use ibex::defense::{BodyPart, DefenseMissions};
use ibex::defensescan::{defense_scan, DefenseRoom, DefenseScanSettings};
use ibex::geometry::RoomName;
use ibex::objectives::{Composition, ObjectiveKind, ObjectivePriority};
use ibex::war::Part;

fn room(name: &str) -> RoomName {
    RoomName::from_packed(screeps::RoomName::new(name).unwrap().packed_repr())
}

fn body(parts: &[Part]) -> Vec<BodyPart> {
    parts.iter().map(|p| BodyPart { part: *p, hits: 100, boosted: false }).collect()
}

fn calm(name: &str) -> DefenseRoom {
    DefenseRoom {
        room: room(name),
        mine: false,
        reserved_mine: false,
        visible: true,
        has_spawns: false,
        has_hostiles: false,
        has_threat_creeps: false,
        hostiles: vec![],
        has_nukes: false,
        has_nuke_defense_mission: false,
        has_safe_mode_mission: false,
        has_wall_repair_mission: false,
    }
}

fn settings() -> DefenseScanSettings {
    DefenseScanSettings { defense_enabled: true, nuke_defense_enabled: true, safe_mode_enabled: false }
}

fn rooms() -> Vec<DefenseRoom> {
    let home = DefenseRoom {
        mine: true,
        has_spawns: true,
        has_hostiles: true,
        has_threat_creeps: true,
        // Two armed creeps that count: a duo; a source keeper does not count.
        hostiles: vec![
            (true, body(&[Part::Attack, Part::Move])),
            (true, body(&[Part::RangedAttack])),
            (false, body(&[Part::Attack, Part::Attack, Part::Attack, Part::Attack])),
        ],
        has_wall_repair_mission: true,
        ..calm("W1N1")
    };
    let quiet_home = DefenseRoom { mine: true, has_spawns: true, has_nukes: true, ..calm("W2N2") };
    let remote = DefenseRoom {
        reserved_mine: true,
        has_hostiles: true,
        hostiles: vec![(true, body(&[Part::Attack])), (false, body(&[Part::Attack]))],
        ..calm("W3N3")
    };
    let strong_remote = DefenseRoom {
        reserved_mine: true,
        has_hostiles: true,
        hostiles: vec![(true, body(&[Part::Heal, Part::Heal, Part::Heal]))],
        ..calm("W4N4")
    };
    vec![remote, home, quiet_home, strong_remote]
}

#[test]
fn defense_scan_orders_owned_then_flags_then_remotes() {
    let flags = vec![("defend_a".to_string(), room("W9N9")), ("attack".to_string(), room("W8N8"))];
    let plan = defense_scan(&rooms(), &flags, settings());
    let kinds: Vec<(ObjectiveKind, ObjectivePriority, Composition)> =
        plan.objectives.iter().map(|o| (o.kind, o.priority, o.composition)).collect();
    assert_eq!(
        kinds,
        vec![
            (ObjectiveKind::Defend { room: room("W1N1") }, ObjectivePriority::Critical, Composition::DuoAttackHeal),
            (ObjectiveKind::Defend { room: room("W9N9") }, ObjectivePriority::High, Composition::DuoAttackHeal),
            (ObjectiveKind::Defend { room: room("W3N3") }, ObjectivePriority::Medium, Composition::SoloRanged),
            // Three heal parts: 36 healing per tick, over 30.
            (ObjectiveKind::Defend { room: room("W4N4") }, ObjectivePriority::Medium, Composition::DuoAttackHeal),
        ]
    );
    assert_eq!(
        plan.missions,
        vec![
            (room("W1N1"), DefenseMissions { nuke_defense: false, safe_mode: false, wall_repair: false }),
            (room("W2N2"), DefenseMissions { nuke_defense: true, safe_mode: false, wall_repair: false }),
        ]
    );
}

#[test]
fn defense_scan_needs_defense_enabled_and_a_home() {
    let off = DefenseScanSettings { defense_enabled: false, ..settings() };
    let plan = defense_scan(&rooms(), &[], off);
    assert!(plan.objectives.is_empty() && plan.missions.is_empty());
    let no_home: Vec<DefenseRoom> = rooms().into_iter().filter(|r| !r.has_spawns).collect();
    let plan = defense_scan(&no_home, &[("defend".to_string(), room("W9N9"))], settings());
    assert!(plan.objectives.is_empty() && plan.missions.is_empty());
}

#[test]
fn unarmed_hostiles_get_no_owned_room_defense() {
    let scout_only = DefenseRoom {
        mine: true,
        has_spawns: true,
        has_threat_creeps: true,
        hostiles: vec![(true, body(&[Part::Move, Part::Carry]))],
        ..calm("W1N1")
    };
    let plan = defense_scan(&[scout_only], &[], settings());
    assert!(plan.objectives.is_empty());
    assert_eq!(plan.missions.len(), 1);
}
