//! Owned-room defense policy: when the defense sweep runs, how big a squad a
//! player incursion calls for, and which standing defense missions a room
//! still lacks.
use vstd::prelude::*;
use crate::war::{Part, threatening_part};

verus! {

/// Ticks between defense sweeps.
pub const DEFENSE_RUN_INTERVAL: u32 = 10;

/// The defense sweep runs on its first call and then every
/// [`DEFENSE_RUN_INTERVAL`] ticks; a last run ahead of `now` (a clock
/// reset) reads as not elapsed.
pub fn defense_should_run(last_run: Option<u32>, now: u32) -> (r: bool)
    ensures
        r == match last_run {
            Some(t) => (if now >= t { now - t } else { 0 }) >= DEFENSE_RUN_INTERVAL,
            None => true,
        },
{
    crate::war::cadence_elapsed(now, last_run, DEFENSE_RUN_INTERVAL)
}

/// One body part of a hostile creep: its type, remaining hits and whether
/// it is boosted.
#[derive(Clone, Copy, Debug, PartialEq, Eq, Structural)]
pub struct BodyPart {
    pub part: Part,
    pub hits: u32,
    pub boosted: bool,
}

/// Damage per tick a live part adds to the estimate.
pub open spec fn part_dps(p: BodyPart) -> nat {
    if p.hits == 0 {
        0
    } else {
        match p.part {
            Part::Attack => 30,
            Part::RangedAttack => 10,
            _ => 0,
        }
    }
}

/// Healing per tick a live part adds to the estimate.
pub open spec fn part_heal(p: BodyPart) -> nat {
    if p.hits > 0 && p.part == Part::Heal {
        12
    } else {
        0
    }
}

/// Damage (or, with `heal`, healing) per tick of a body's live parts.
pub open spec fn body_sum(body: Seq<BodyPart>, heal: bool) -> nat
    decreases body.len(),
{
    if body.len() == 0 {
        0
    } else {
        body_sum(body.drop_last(), heal) + if heal {
            part_heal(body.last())
        } else {
            part_dps(body.last())
        }
    }
}

/// A live part of the body is boosted.
pub open spec fn body_boosted(body: Seq<BodyPart>) -> bool {
    exists|i: int| 0 <= i < body.len() && (#[trigger] body[i]).hits > 0 && body[i].boosted
}

/// Summed over the hostiles that count (`(counts, body)`; the callers say
/// which creeps count: players only, or all but source keepers).
pub open spec fn threat_sum(hostiles: Seq<(bool, Vec<BodyPart>)>, heal: bool) -> nat
    decreases hostiles.len(),
{
    if hostiles.len() == 0 {
        0
    } else {
        threat_sum(hostiles.drop_last(), heal) + if hostiles.last().0 {
            body_sum(hostiles.last().1@, heal)
        } else {
            0
        }
    }
}

/// Number of hostiles that count.
pub open spec fn player_count(hostiles: Seq<(bool, Vec<BodyPart>)>) -> nat
    decreases hostiles.len(),
{
    if hostiles.len() == 0 {
        0
    } else {
        player_count(hostiles.drop_last()) + if hostiles.last().0 {
            1nat
        } else {
            0nat
        }
    }
}

/// `n`, capped at `u32::MAX`.
pub open spec fn capped(n: nat) -> u32 {
    if n <= u32::MAX { n as u32 } else { u32::MAX }
}

/// Threat posed by the player hostiles in a room.
#[derive(Clone, Copy, Debug, PartialEq, Eq, Structural)]
pub struct ThreatEstimate {
    /// Damage per tick of their live ATTACK (30) and RANGED_ATTACK (10)
    /// parts, capped at `u32::MAX`.
    pub dps: u32,
    /// Healing per tick of their live HEAL parts (12), capped at `u32::MAX`.
    pub heal: u32,
    /// Hostiles counted.
    pub hostile_count: usize,
    /// Any of their live parts is boosted.
    pub any_boosted: bool,
}

fn body_totals(body: &Vec<BodyPart>) -> (r: (u32, u32, bool))
    ensures
        r.0 == capped(body_sum(body@, false)),
        r.1 == capped(body_sum(body@, true)),
        r.2 == body_boosted(body@),
{
    let mut dps: u32 = 0;
    let mut heal: u32 = 0;
    let mut boosted = false;
    let mut i: usize = 0;
    while i < body.len()
        invariant
            0 <= i <= body@.len(),
            dps == capped(body_sum(body@.take(i as int), false)),
            heal == capped(body_sum(body@.take(i as int), true)),
            boosted == exists|a: int| 0 <= a < i && (#[trigger] body@[a]).hits > 0 && body@[a].boosted,
        decreases body@.len() - i,
    {
        proof {
            assert(body@.take(i as int + 1).drop_last() =~= body@.take(i as int));
        }
        let p = body[i];
        if p.hits > 0 {
            if p.boosted {
                boosted = true;
            }
            let d: u32 = match p.part {
                Part::Attack => 30,
                Part::RangedAttack => 10,
                _ => 0,
            };
            let h: u32 = match p.part {
                Part::Heal => 12,
                _ => 0,
            };
            dps = dps.saturating_add(d);
            heal = heal.saturating_add(h);
        }
        i += 1;
    }
    proof {
        assert(body@.take(body@.len() as int) =~= body@);
    }
    (dps, heal, boosted)
}

/// Estimate the threat of a room's hostiles, each `(counts, body)`; only
/// those that count are summed.
pub fn estimate_threat(hostiles: &[(bool, Vec<BodyPart>)]) -> (t: ThreatEstimate)
    ensures
        t.dps == capped(threat_sum(hostiles@, false)),
        t.heal == capped(threat_sum(hostiles@, true)),
        t.hostile_count == player_count(hostiles@),
        t.any_boosted == exists|i: int|
            0 <= i < hostiles@.len() && (#[trigger] hostiles@[i]).0 && body_boosted(hostiles@[i].1@),
{
    let mut dps: u32 = 0;
    let mut heal: u32 = 0;
    let mut count: usize = 0;
    let mut boosted = false;
    let mut i: usize = 0;
    while i < hostiles.len()
        invariant
            0 <= i <= hostiles@.len(),
            dps == capped(threat_sum(hostiles@.take(i as int), false)),
            heal == capped(threat_sum(hostiles@.take(i as int), true)),
            count == player_count(hostiles@.take(i as int)),
            count <= i,
            boosted == exists|a: int|
                0 <= a < i && (#[trigger] hostiles@[a]).0 && body_boosted(hostiles@[a].1@),
        decreases hostiles@.len() - i,
    {
        proof {
            assert(hostiles@.take(i as int + 1).drop_last() =~= hostiles@.take(i as int));
        }
        if hostiles[i].0 {
            let (d, h, b) = body_totals(&hostiles[i].1);
            dps = dps.saturating_add(d);
            heal = heal.saturating_add(h);
            count = count + 1;
            if b {
                boosted = true;
            }
        }
        i += 1;
    }
    proof {
        assert(hostiles@.take(hostiles@.len() as int) =~= hostiles@);
    }
    ThreatEstimate { dps, heal, hostile_count: count, any_boosted: boosted }
}

/// Squad fielded against an incursion.
#[derive(Clone, Copy, Debug, PartialEq, Eq, Structural)]
pub enum SquadSize {
    Solo,
    Duo,
    Quad,
}

/// A heavy threat: boosted and hard-hitting, healing behind high damage,
/// or four or more hostiles.
pub open spec fn heavy_threat(t: ThreatEstimate) -> bool {
    (t.any_boosted && t.dps > 200) || (t.heal > 100 && t.dps > 150) || t.hostile_count >= 4
}

/// A moderate threat: significant damage or healing, several hostiles, or
/// any boost.
pub open spec fn moderate_threat(t: ThreatEstimate) -> bool {
    t.dps > 60 || t.heal > 20 || t.hostile_count >= 2 || t.any_boosted
}

/// Squad escalation: a quad for a heavy threat, a duo for a moderate one,
/// else a solo defender.
pub fn squad_size(t: &ThreatEstimate) -> (s: SquadSize)
    ensures
        s == if heavy_threat(*t) {
            SquadSize::Quad
        } else if moderate_threat(*t) {
            SquadSize::Duo
        } else {
            SquadSize::Solo
        },
        (s == SquadSize::Quad) == ((t.any_boosted && t.dps > 200) || (t.heal > 100 && t.dps > 150)
            || t.hostile_count >= 4),
        (s == SquadSize::Solo) == (t.dps <= 60 && t.heal <= 20 && t.hostile_count <= 1 && !t.any_boosted),
{
    if (t.any_boosted && t.dps > 200) || (t.heal > 100 && t.dps > 150) || t.hostile_count >= 4 {
        SquadSize::Quad
    } else if t.dps > 60 || t.heal > 20 || t.hostile_count >= 2 || t.any_boosted {
        SquadSize::Duo
    } else {
        SquadSize::Solo
    }
}

/// Escalation order of squads.
pub open spec fn squad_rank(s: SquadSize) -> int {
    match s {
        SquadSize::Solo => 0,
        SquadSize::Duo => 1,
        SquadSize::Quad => 2,
    }
}

/// The squad for a threat, as [`squad_size`] picks it.
pub open spec fn spec_squad_size(t: ThreatEstimate) -> SquadSize {
    if heavy_threat(t) {
        SquadSize::Quad
    } else if moderate_threat(t) {
        SquadSize::Duo
    } else {
        SquadSize::Solo
    }
}

/// Squad escalation on the threat's numbers: a quad exactly when boosted
/// hostiles deal over 200 damage, or over 100 healing backs over 150
/// damage, or four or more hostiles come; a solo defender exactly when the
/// damage is at most 60, the healing at most 20, at most one hostile comes
/// and none is boosted; a duo otherwise. In particular healing alone, with
/// at most 150 damage, fewer than four hostiles and no boosted 200, never
/// calls for a quad.
pub proof fn lemma_squad_escalation_thresholds(t: ThreatEstimate)
    ensures
        (spec_squad_size(t) == SquadSize::Quad) == ((t.any_boosted && t.dps > 200) || (t.heal > 100 && t.dps > 150)
            || t.hostile_count >= 4),
        (spec_squad_size(t) == SquadSize::Solo) == (t.dps <= 60 && t.heal <= 20 && t.hostile_count <= 1
            && !t.any_boosted),
        (spec_squad_size(t) == SquadSize::Duo) == (!((t.any_boosted && t.dps > 200) || (t.heal > 100 && t.dps > 150)
            || t.hostile_count >= 4) && !(t.dps <= 60 && t.heal <= 20 && t.hostile_count <= 1 && !t.any_boosted)),
        t.dps <= 150 && !(t.any_boosted && t.dps > 200) && t.hostile_count < 4 ==> spec_squad_size(t)
            != SquadSize::Quad,
{
}

/// Escalation never shrinks: a threat at least as strong on every count
/// gets at least as big a squad.
pub proof fn lemma_squad_escalation_is_monotone(a: ThreatEstimate, b: ThreatEstimate)
    requires
        a.dps <= b.dps,
        a.heal <= b.heal,
        a.hostile_count <= b.hostile_count,
        a.any_boosted ==> b.any_boosted,
    ensures
        squad_rank(spec_squad_size(a)) <= squad_rank(spec_squad_size(b)),
{
}

/// Squad a room calls for: only a visible owned room with player hostiles
/// and no squad defense already under way gets one.
pub fn squad_for_room(
    visible_mine: bool,
    has_hostiles: bool,
    has_squad_defense: bool,
    hostiles: &[(bool, Vec<BodyPart>)],
) -> (r: Option<SquadSize>)
    ensures
        match r {
            None => !visible_mine || !has_hostiles || has_squad_defense || player_count(hostiles@) == 0,
            Some(s) => visible_mine && has_hostiles && !has_squad_defense && player_count(hostiles@) > 0 && ({
                let t = ThreatEstimate {
                    dps: capped(threat_sum(hostiles@, false)),
                    heal: capped(threat_sum(hostiles@, true)),
                    hostile_count: player_count(hostiles@) as usize,
                    any_boosted: exists|i: int|
                        0 <= i < hostiles@.len() && (#[trigger] hostiles@[i]).0 && body_boosted(hostiles@[i].1@),
                };
                s == spec_squad_size(t)
            }),
        },
{
    if !visible_mine || !has_hostiles || has_squad_defense {
        return None;
    }
    let t = estimate_threat(hostiles);
    if t.hostile_count == 0 {
        return None;
    }
    Some(squad_size(&t))
}

/// Standing defense missions a room lacks.
#[derive(Clone, Copy, Debug, PartialEq, Eq, Structural)]
pub struct DefenseMissions {
    pub nuke_defense: bool,
    pub safe_mode: bool,
    pub wall_repair: bool,
}

/// Missions to create for an owned, visible room: nuke defense against
/// incoming nukes, safe mode and wall repair against hostiles, each only
/// where none runs yet (and the first two only where enabled).
pub fn defense_missions_needed(
    has_hostiles: bool,
    has_nukes: bool,
    has_nuke_defense_mission: bool,
    has_safe_mode_mission: bool,
    has_wall_repair_mission: bool,
    nuke_defense_enabled: bool,
    safe_mode_enabled: bool,
) -> (m: DefenseMissions)
    ensures
        m.nuke_defense == (has_nukes && !has_nuke_defense_mission && nuke_defense_enabled),
        m.safe_mode == (has_hostiles && !has_safe_mode_mission && safe_mode_enabled),
        m.wall_repair == (has_hostiles && !has_wall_repair_mission),
{
    DefenseMissions {
        nuke_defense: has_nukes && !has_nuke_defense_mission && nuke_defense_enabled,
        safe_mode: has_hostiles && !has_safe_mode_mission && safe_mode_enabled,
        wall_repair: has_hostiles && !has_wall_repair_mission,
    }
}


/// A live part of the body can hurt an owned room.
pub open spec fn body_warrants_defender(body: Seq<BodyPart>) -> bool {
    exists|j: int| 0 <= j < body.len() && (#[trigger] body[j]).hits > 0 && threatening_part(body[j].part)
}

/// Some counted hostile has a live part that can hurt an owned room.
pub open spec fn any_warrants_defender(hostiles: Seq<(bool, Vec<BodyPart>)>) -> bool {
    exists|i: int| 0 <= i < hostiles.len() && (#[trigger] hostiles[i]).0 && body_warrants_defender(hostiles[i].1@)
}

fn body_threatens(body: &Vec<BodyPart>) -> (r: bool)
    ensures
        r == body_warrants_defender(body@),
{
    let mut j: usize = 0;
    while j < body.len()
        invariant
            0 <= j <= body@.len(),
            forall|a: int| 0 <= a < j ==> !((#[trigger] body@[a]).hits > 0 && threatening_part(body@[a].part)),
        decreases body@.len() - j,
    {
        let p = body[j];
        if p.hits > 0 {
            match p.part {
                Part::Attack | Part::RangedAttack | Part::Work | Part::Claim | Part::Heal => {
                    assert(body@[j as int] == p);
                    return true;
                },
                _ => {},
            }
        }
        j += 1;
    }
    false
}

/// The war coordinator's owned-room defense: a visible owned room with
/// threat-capable hostiles, among whose counted hostiles (all but source
/// keepers) one has a live part that can hurt the room, gets a squad sized
/// to the counted hostiles' threat.
pub fn defend_owned_room(visible_mine: bool, has_threat: bool, hostiles: &[(bool, Vec<BodyPart>)]) -> (r: Option<
    SquadSize,
>)
    ensures
        match r {
            None => !visible_mine || !has_threat || !any_warrants_defender(hostiles@),
            Some(s) => visible_mine && has_threat && any_warrants_defender(hostiles@) && ({
                let t = ThreatEstimate {
                    dps: capped(threat_sum(hostiles@, false)),
                    heal: capped(threat_sum(hostiles@, true)),
                    hostile_count: player_count(hostiles@) as usize,
                    any_boosted: exists|i: int|
                        0 <= i < hostiles@.len() && (#[trigger] hostiles@[i]).0 && body_boosted(hostiles@[i].1@),
                };
                s == spec_squad_size(t)
            }),
        },
{
    if !visible_mine || !has_threat {
        return None;
    }
    let mut worth = false;
    let mut i: usize = 0;
    while i < hostiles.len()
        invariant
            0 <= i <= hostiles@.len(),
            worth == exists|a: int|
                0 <= a < i && (#[trigger] hostiles@[a]).0 && body_warrants_defender(hostiles@[a].1@),
        decreases hostiles@.len() - i,
    {
        if hostiles[i].0 && body_threatens(&hostiles[i].1) {
            worth = true;
        }
        i += 1;
    }
    if !worth {
        return None;
    }
    let t = estimate_threat(hostiles);
    Some(squad_size(&t))
}

/// What one part adds to a threat: a live attack part 30 damage, a live
/// ranged attack part 10, a live heal part 12 healing; a dead part, or any
/// other part, nothing.
pub proof fn lemma_part_threat_values(p: BodyPart)
    ensures
        part_dps(p) == (if p.hits > 0 && p.part == Part::Attack {
            30nat
        } else if p.hits > 0 && p.part == Part::RangedAttack {
            10nat
        } else {
            0nat
        }),
        part_heal(p) == (if p.hits > 0 && p.part == Part::Heal {
            12nat
        } else {
            0nat
        }),
{
}

} // verus!
