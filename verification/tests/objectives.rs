use ibex::defense::SquadSize;
use ibex::geometry::{Position, RoomName};
use ibex::objectives::{
    defend_flag_objective, escort_objective, is_attack_flag, is_defend_flag, is_launch_home, offense_objective,
    offense_scan_gate, owned_room_defense_objective, remote_defense_objective, Composition, ObjectiveKind,
    ObjectiveOwner, ObjectivePriority, TargetSource, DEFEND_OBJECTIVE_TTL, ESCORT_OBJECTIVE_TTL,
    OFFENSE_OBJECTIVE_TTL,
};

fn room() -> RoomName {
    RoomName::from_packed(129 * 256 + 127)
}

#[test]
fn defense_objectives_rank_owned_rooms_over_flags_over_remotes() {
    let owned = owned_room_defense_objective(room(), SquadSize::Quad);
    assert_eq!(owned.priority, ObjectivePriority::Critical);
    assert_eq!(owned.composition, Composition::QuadRanged);
    assert_eq!(owned.owner, ObjectiveOwner::Defense);
    assert_eq!(owned.ttl, DEFEND_OBJECTIVE_TTL);
    assert_eq!(owned_room_defense_objective(room(), SquadSize::Duo).composition, Composition::DuoAttackHeal);
    assert_eq!(owned_room_defense_objective(room(), SquadSize::Solo).composition, Composition::SoloRanged);
    let flag = defend_flag_objective(room());
    assert_eq!((flag.priority, flag.composition), (ObjectivePriority::High, Composition::DuoAttackHeal));
    assert_eq!(remote_defense_objective(room(), true).composition, Composition::DuoAttackHeal);
    let weak = remote_defense_objective(room(), false);
    assert_eq!((weak.priority, weak.composition), (ObjectivePriority::Medium, Composition::SoloRanged));
    assert_eq!(weak.kind, ObjectiveKind::Defend { room: room() });
}

#[test]
fn offense_objectives_follow_their_source() {
    let pos = Position::from_world_coords(75, -25);
    let core = offense_objective(TargetSource::InvaderCore { level: 0 }, room(), Some(pos), true).unwrap();
    assert_eq!(core.kind, ObjectiveKind::Dismantle { room: room(), pos });
    assert_eq!((core.priority, core.owner, core.ttl), (ObjectivePriority::Medium, ObjectiveOwner::Attack, OFFENSE_OBJECTIVE_TTL));
    assert_eq!(offense_objective(TargetSource::InvaderCore { level: 0 }, room(), Some(pos), false), None);
    assert_eq!(offense_objective(TargetSource::InvaderCore { level: 2 }, room(), None, true), None);
    let flag = offense_objective(TargetSource::AttackFlag, room(), None, false).unwrap();
    assert_eq!((flag.kind, flag.priority), (ObjectiveKind::Secure { room: room() }, ObjectivePriority::High));
    let denial = offense_objective(TargetSource::ResourceDenial, room(), None, false).unwrap();
    assert_eq!((denial.kind, denial.composition), (ObjectiveKind::Harass { room: room() }, Composition::SoloHarasser));
    assert_eq!(offense_objective(TargetSource::Expansion, room(), None, true), None);
    let escort = escort_objective(room());
    assert_eq!((escort.owner, escort.ttl), (ObjectiveOwner::Claim, ESCORT_OBJECTIVE_TTL));
}

#[test]
fn offense_needs_the_feature_a_free_spawn_and_a_home() {
    assert!(offense_scan_gate(true, 1, 1));
    assert!(!offense_scan_gate(false, 1, 1));
    assert!(!offense_scan_gate(true, 0, 1));
    assert!(!offense_scan_gate(true, 1, 0));
    assert!(is_launch_home(true, true));
    assert!(!is_launch_home(true, false));
}

#[test]
fn flags_are_read_by_name_prefix_in_any_case() {
    assert!(is_attack_flag("attack"));
    assert!(is_attack_flag("Attack-W1N1"));
    assert!(!is_attack_flag("attac"));
    assert!(!is_attack_flag("defend"));
    assert!(is_defend_flag("DEFEND2"));
    assert!(!is_defend_flag("my defend"));
}

#[test]
fn select_ranks_nonnegative_scores_and_far_rooms_on_a_far_pass() {
    assert!(ibex::claimselect::ranked_for_select(true, 1, false, 3));
    assert!(!ibex::claimselect::ranked_for_select(false, 5, false, 3));
    assert!(!ibex::claimselect::ranked_for_select(true, 2, true, 3));
    assert!(ibex::claimselect::ranked_for_select(true, 3, true, 3));
}
