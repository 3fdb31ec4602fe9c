use ibex::defense::{
    defend_owned_room, defense_missions_needed, defense_should_run, estimate_threat, squad_for_room, squad_size, BodyPart, SquadSize,
    ThreatEstimate,
};
use ibex::war::Part;

fn part(part: Part) -> BodyPart {
    BodyPart { part, hits: 100, boosted: false }
}

fn body(parts: &[Part]) -> Vec<BodyPart> {
    parts.iter().map(|p| part(*p)).collect()
}

#[test]
fn defense_runs_first_and_then_every_ten_ticks() {
    assert!(defense_should_run(None, 5));
    assert!(!defense_should_run(Some(100), 109));
    assert!(defense_should_run(Some(100), 110));
}

#[test]
fn threat_counts_live_player_parts_only() {
    let mut dead_attack = part(Part::Attack);
    dead_attack.hits = 0;
    let mut boosted_heal = part(Part::Heal);
    boosted_heal.boosted = true;
    let hostiles = vec![
        (true, vec![part(Part::Attack), part(Part::RangedAttack), dead_attack, part(Part::Move)]),
        (true, vec![boosted_heal, part(Part::Heal)]),
        // An NPC invader never counts.
        (false, body(&[Part::Attack, Part::Attack])),
    ];
    let t = estimate_threat(&hostiles);
    assert_eq!(t, ThreatEstimate { dps: 40, heal: 24, hostile_count: 2, any_boosted: true });

    // A boost on a dead part is no boost.
    let mut dead_boosted = part(Part::Tough);
    dead_boosted.hits = 0;
    dead_boosted.boosted = true;
    assert!(!estimate_threat(&[(true, vec![dead_boosted])]).any_boosted);
}

#[test]
fn squad_escalates_with_the_threat() {
    let t = |dps, heal, hostile_count, any_boosted| ThreatEstimate { dps, heal, hostile_count, any_boosted };
    assert_eq!(squad_size(&t(30, 0, 1, false)), SquadSize::Solo);
    assert_eq!(squad_size(&t(60, 20, 1, false)), SquadSize::Solo, "thresholds are strict");
    assert_eq!(squad_size(&t(61, 0, 1, false)), SquadSize::Duo);
    assert_eq!(squad_size(&t(0, 21, 1, false)), SquadSize::Duo);
    assert_eq!(squad_size(&t(0, 0, 2, false)), SquadSize::Duo);
    assert_eq!(squad_size(&t(0, 0, 1, true)), SquadSize::Duo);
    assert_eq!(squad_size(&t(201, 0, 1, true)), SquadSize::Quad);
    assert_eq!(squad_size(&t(201, 0, 1, false)), SquadSize::Duo);
    assert_eq!(squad_size(&t(151, 101, 1, false)), SquadSize::Quad);
    assert_eq!(squad_size(&t(0, 0, 4, false)), SquadSize::Quad);
}

#[test]
fn squad_only_for_visible_owned_rooms_with_player_hostiles() {
    let players = vec![(true, body(&[Part::Attack, Part::Attack, Part::Attack]))];
    assert_eq!(squad_for_room(true, true, false, &players), Some(SquadSize::Duo));
    assert_eq!(squad_for_room(false, true, false, &players), None);
    assert_eq!(squad_for_room(true, false, false, &players), None);
    assert_eq!(squad_for_room(true, true, true, &players), None, "a squad is already defending");
    let npcs = vec![(false, body(&[Part::Attack]))];
    assert_eq!(squad_for_room(true, true, false, &npcs), None);
}

#[test]
fn standing_missions_fill_what_is_missing() {
    let m = defense_missions_needed(true, true, false, false, false, true, true);
    assert!(m.nuke_defense && m.safe_mode && m.wall_repair);
    let m = defense_missions_needed(true, true, true, true, true, true, true);
    assert!(!m.nuke_defense && !m.safe_mode && !m.wall_repair);
    let m = defense_missions_needed(true, true, false, false, false, false, false);
    assert!(!m.nuke_defense && !m.safe_mode && m.wall_repair, "wall repair is never feature-gated");
    let m = defense_missions_needed(false, false, false, false, false, true, true);
    assert!(!m.nuke_defense && !m.safe_mode && !m.wall_repair);
}

#[test]
fn war_defends_owned_rooms_against_any_live_threatening_part() {
    // A lone CLAIM creep attacking the controller warrants a solo defender.
    let claimer = vec![(true, body(&[Part::Claim, Part::Move]))];
    assert_eq!(defend_owned_room(true, true, &claimer), Some(SquadSize::Solo));
    // A scout passing through does not.
    let scout = vec![(true, body(&[Part::Move, Part::Carry, Part::Tough]))];
    assert_eq!(defend_owned_room(true, true, &scout), None);
    // A threatening part that is already destroyed does not count.
    let mut dead_work = part(Part::Work);
    dead_work.hits = 0;
    assert_eq!(defend_owned_room(true, true, &[(true, vec![dead_work, part(Part::Move)])]), None);
    // Source keepers (not counted) are never defended against.
    assert_eq!(defend_owned_room(true, true, &[(false, body(&[Part::Attack]))]), None);
    // Not visible, or no threat flagged: nothing.
    assert_eq!(defend_owned_room(false, true, &claimer), None);
    assert_eq!(defend_owned_room(true, false, &claimer), None);
    // Two attackers: a duo.
    let raid = vec![(true, body(&[Part::Attack, Part::Attack, Part::Attack])), (true, body(&[Part::Heal]))];
    assert_eq!(defend_owned_room(true, true, &raid), Some(SquadSize::Duo));
}

#[test]
fn defense_sweep_skips_when_its_last_run_is_ahead_of_the_clock() {
    assert!(!ibex::defense::defense_should_run(Some(1_000), 5));
    assert!(ibex::defense::defense_should_run(Some(1_000), 1_010));
    assert!(!ibex::defense::defense_should_run(Some(1_000), 1_009));
    assert!(ibex::defense::defense_should_run(None, 0));
}
