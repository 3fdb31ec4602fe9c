//! The combat objectives the war and claim operations post: what kind of
//! objective, at which priority tier, for which squad, owned by which
//! operation and kept alive for how long; and the gates and flag names
//! that decide when they are posted.
use vstd::prelude::*;
use crate::geometry::{Position, RoomName};
use crate::defense::SquadSize;
use crate::visibility::letter_is;

verus! {

/// Ticks a defend objective lives without being re-asserted.
pub const DEFEND_OBJECTIVE_TTL: u32 = 60;

/// Ticks an offense objective lives without being re-asserted.
pub const OFFENSE_OBJECTIVE_TTL: u32 = 100;

/// Ticks a claim escort lives: a claimer's spawn, travel and clearing plus
/// a slow discovery cycle.
pub const ESCORT_OBJECTIVE_TTL: u32 = 4000;

/// What an objective asks a squad to do, and where.
#[derive(Clone, Copy, Debug, PartialEq, Eq, Structural)]
pub enum ObjectiveKind {
    Defend { room: RoomName },
    Secure { room: RoomName },
    Harass { room: RoomName },
    Dismantle { room: RoomName, pos: Position },
    Escort { room: RoomName },
}

/// Priority tiers, lowest first.
#[derive(Clone, Copy, Debug, PartialEq, Eq, Structural)]
pub enum ObjectivePriority {
    Low,
    Medium,
    High,
    Critical,
}

/// The operation that owns an objective.
#[derive(Clone, Copy, Debug, PartialEq, Eq, Structural)]
pub enum ObjectiveOwner {
    Attack,
    Defense,
    Claim,
}

/// The squad an objective asks for.
#[derive(Clone, Copy, Debug, PartialEq, Eq, Structural)]
pub enum Composition {
    QuadRanged,
    DuoAttackHeal,
    SoloRanged,
    SoloHarasser,
    /// A composition sized elsewhere (the escort screen's doctrine).
    Sized,
}

/// An objective as posted to the combat queue.
#[derive(Clone, Copy, Debug, PartialEq, Eq, Structural)]
pub struct ObjectiveRecord {
    pub kind: ObjectiveKind,
    pub priority: ObjectivePriority,
    pub composition: Composition,
    pub owner: ObjectiveOwner,
    pub ttl: u32,
}

/// The squad for a defense escalation: a ranged quad, an attack-and-heal
/// duo, or a lone ranged defender.
pub open spec fn spec_defense_composition(size: SquadSize) -> Composition {
    match size {
        SquadSize::Quad => Composition::QuadRanged,
        SquadSize::Duo => Composition::DuoAttackHeal,
        SquadSize::Solo => Composition::SoloRanged,
    }
}

/// The squad for a defense escalation (see [`spec_defense_composition`]).
pub fn defense_composition(size: SquadSize) -> (c: Composition)
    ensures
        c == spec_defense_composition(size),
{
    match size {
        SquadSize::Quad => Composition::QuadRanged,
        SquadSize::Duo => Composition::DuoAttackHeal,
        SquadSize::Solo => Composition::SoloRanged,
    }
}

/// An owned room under attack: a critical defend objective sized by the
/// escalation, owned by defense.
pub fn owned_room_defense_objective(room: RoomName, size: SquadSize) -> (o: ObjectiveRecord)
    ensures
        o == (ObjectiveRecord {
            kind: ObjectiveKind::Defend { room },
            priority: ObjectivePriority::Critical,
            composition: spec_defense_composition(size),
            owner: ObjectiveOwner::Defense,
            ttl: DEFEND_OBJECTIVE_TTL,
        }),
{
    ObjectiveRecord {
        kind: ObjectiveKind::Defend { room },
        priority: ObjectivePriority::Critical,
        composition: defense_composition(size),
        owner: ObjectiveOwner::Defense,
        ttl: DEFEND_OBJECTIVE_TTL,
    }
}

/// An operator's defend flag: a high-priority duo defend objective.
pub fn defend_flag_objective(room: RoomName) -> (o: ObjectiveRecord)
    ensures
        o == (ObjectiveRecord {
            kind: ObjectiveKind::Defend { room },
            priority: ObjectivePriority::High,
            composition: Composition::DuoAttackHeal,
            owner: ObjectiveOwner::Defense,
            ttl: DEFEND_OBJECTIVE_TTL,
        }),
{
    ObjectiveRecord {
        kind: ObjectiveKind::Defend { room },
        priority: ObjectivePriority::High,
        composition: Composition::DuoAttackHeal,
        owner: ObjectiveOwner::Defense,
        ttl: DEFEND_OBJECTIVE_TTL,
    }
}

/// Invaders in a remote room: a medium-priority defend objective, a duo
/// when the invaders are strong, else a lone ranged defender.
pub fn remote_defense_objective(room: RoomName, strong: bool) -> (o: ObjectiveRecord)
    ensures
        o == (ObjectiveRecord {
            kind: ObjectiveKind::Defend { room },
            priority: ObjectivePriority::Medium,
            composition: if strong {
                Composition::DuoAttackHeal
            } else {
                Composition::SoloRanged
            },
            owner: ObjectiveOwner::Defense,
            ttl: DEFEND_OBJECTIVE_TTL,
        }),
{
    ObjectiveRecord {
        kind: ObjectiveKind::Defend { room },
        priority: ObjectivePriority::Medium,
        composition: if strong {
            Composition::DuoAttackHeal
        } else {
            Composition::SoloRanged
        },
        owner: ObjectiveOwner::Defense,
        ttl: DEFEND_OBJECTIVE_TTL,
    }
}

/// Where an attack candidate came from.
#[derive(Clone, Copy, Debug, PartialEq, Eq, Structural)]
pub enum TargetSource {
    AttackFlag,
    DefendFlag,
    ThreatResponse,
    Expansion,
    ResourceDenial,
    InvaderCore { level: u8 },
}

/// The offense objective for an attack candidate in `room`:
/// - an invader core at `target_pos` becomes a medium-priority dismantle by
///   a ranged quad when the force check finds one squad can win and the
///   home can afford it (`winnable_and_affordable`), else none;
/// - an attack flag becomes a high-priority secure by a ranged quad;
/// - resource denial becomes a low-priority harass by a lone harasser;
/// - any other source posts none.
/// Offense objectives are owned by the attack lane and live
/// [`OFFENSE_OBJECTIVE_TTL`] ticks.
pub open spec fn spec_offense_objective(
    source: TargetSource,
    room: RoomName,
    target_pos: Option<Position>,
    winnable_and_affordable: bool,
) -> Option<ObjectiveRecord> {
    match source {
        TargetSource::InvaderCore { .. } => match target_pos {
            Some(pos) => if winnable_and_affordable {
                Some(
                    ObjectiveRecord {
                        kind: ObjectiveKind::Dismantle { room, pos },
                        priority: ObjectivePriority::Medium,
                        composition: Composition::QuadRanged,
                        owner: ObjectiveOwner::Attack,
                        ttl: OFFENSE_OBJECTIVE_TTL,
                    },
                )
            } else {
                None
            },
            None => None,
        },
        TargetSource::AttackFlag => Some(
            ObjectiveRecord {
                kind: ObjectiveKind::Secure { room },
                priority: ObjectivePriority::High,
                composition: Composition::QuadRanged,
                owner: ObjectiveOwner::Attack,
                ttl: OFFENSE_OBJECTIVE_TTL,
            },
        ),
        TargetSource::ResourceDenial => Some(
            ObjectiveRecord {
                kind: ObjectiveKind::Harass { room },
                priority: ObjectivePriority::Low,
                composition: Composition::SoloHarasser,
                owner: ObjectiveOwner::Attack,
                ttl: OFFENSE_OBJECTIVE_TTL,
            },
        ),
        _ => None,
    }
}

/// The offense objective for an attack candidate (see
/// [`spec_offense_objective`]).
pub fn offense_objective(
    source: TargetSource,
    room: RoomName,
    target_pos: Option<Position>,
    winnable_and_affordable: bool,
) -> (o: Option<ObjectiveRecord>)
    ensures
        o == spec_offense_objective(source, room, target_pos, winnable_and_affordable),
        source is AttackFlag ==> o == Some(
            ObjectiveRecord {
                kind: ObjectiveKind::Secure { room },
                priority: ObjectivePriority::High,
                composition: Composition::QuadRanged,
                owner: ObjectiveOwner::Attack,
                ttl: 100,
            },
        ),
        source is ResourceDenial ==> o == Some(
            ObjectiveRecord {
                kind: ObjectiveKind::Harass { room },
                priority: ObjectivePriority::Low,
                composition: Composition::SoloHarasser,
                owner: ObjectiveOwner::Attack,
                ttl: 100,
            },
        ),
{
    match source {
        TargetSource::InvaderCore { .. } => match target_pos {
            Some(pos) => if winnable_and_affordable {
                Some(
                    ObjectiveRecord {
                        kind: ObjectiveKind::Dismantle { room, pos },
                        priority: ObjectivePriority::Medium,
                        composition: Composition::QuadRanged,
                        owner: ObjectiveOwner::Attack,
                        ttl: OFFENSE_OBJECTIVE_TTL,
                    },
                )
            } else {
                None
            },
            None => None,
        },
        TargetSource::AttackFlag => Some(
            ObjectiveRecord {
                kind: ObjectiveKind::Secure { room },
                priority: ObjectivePriority::High,
                composition: Composition::QuadRanged,
                owner: ObjectiveOwner::Attack,
                ttl: OFFENSE_OBJECTIVE_TTL,
            },
        ),
        TargetSource::ResourceDenial => Some(
            ObjectiveRecord {
                kind: ObjectiveKind::Harass { room },
                priority: ObjectivePriority::Low,
                composition: Composition::SoloHarasser,
                owner: ObjectiveOwner::Attack,
                ttl: OFFENSE_OBJECTIVE_TTL,
            },
        ),
        _ => None,
    }
}

/// A claim escort screen: a medium-priority escort, sized by the screen
/// doctrine, owned by the claim lane and living [`ESCORT_OBJECTIVE_TTL`]
/// ticks.
pub fn escort_objective(room: RoomName) -> (o: ObjectiveRecord)
    ensures
        o == (ObjectiveRecord {
            kind: ObjectiveKind::Escort { room },
            priority: ObjectivePriority::Medium,
            composition: Composition::Sized,
            owner: ObjectiveOwner::Claim,
            ttl: ESCORT_OBJECTIVE_TTL,
        }),
{
    ObjectiveRecord {
        kind: ObjectiveKind::Escort { room },
        priority: ObjectivePriority::Medium,
        composition: Composition::Sized,
        owner: ObjectiveOwner::Claim,
        ttl: ESCORT_OBJECTIVE_TTL,
    }
}

/// The offense scan runs only with offense enabled, a free spawn, and a
/// home room (owned, with a spawn) to launch from.
pub fn offense_scan_gate(offense_on: bool, free_spawns: u32, home_rooms: usize) -> (r: bool)
    ensures
        r == (offense_on && free_spawns > 0 && home_rooms > 0),
{
    offense_on && free_spawns > 0 && home_rooms > 0
}

/// A room launches squads when it is ours and has a spawn.
pub fn is_launch_home(owned: bool, has_spawns: bool) -> (r: bool)
    ensures
        r == (owned && has_spawns),
{
    owned && has_spawns
}

/// A flag whose name starts with "attack", in any case, marks an attack
/// target.
pub open spec fn spec_is_attack_flag(name: Seq<char>) -> bool {
    &&& name.len() >= 6
    &&& letter_is(name[0], 'a', 'A')
    &&& letter_is(name[1], 't', 'T')
    &&& letter_is(name[2], 't', 'T')
    &&& letter_is(name[3], 'a', 'A')
    &&& letter_is(name[4], 'c', 'C')
    &&& letter_is(name[5], 'k', 'K')
}

/// Whether a flag's name marks an attack target (see
/// [`spec_is_attack_flag`]).
pub fn is_attack_flag(name: &str) -> (r: bool)
    ensures
        r == spec_is_attack_flag(name@),
{
    if name.unicode_len() < 6 {
        return false;
    }
    let c0 = name.get_char(0);
    let c1 = name.get_char(1);
    let c2 = name.get_char(2);
    let c3 = name.get_char(3);
    let c4 = name.get_char(4);
    let c5 = name.get_char(5);
    (c0 == 'a' || c0 == 'A') && (c1 == 't' || c1 == 'T') && (c2 == 't' || c2 == 'T') && (c3 == 'a' || c3 == 'A')
        && (c4 == 'c' || c4 == 'C') && (c5 == 'k' || c5 == 'K')
}

/// A flag whose name starts with "defend", in any case, asks for a
/// defense of its room.
pub open spec fn spec_is_defend_flag(name: Seq<char>) -> bool {
    &&& name.len() >= 6
    &&& letter_is(name[0], 'd', 'D')
    &&& letter_is(name[1], 'e', 'E')
    &&& letter_is(name[2], 'f', 'F')
    &&& letter_is(name[3], 'e', 'E')
    &&& letter_is(name[4], 'n', 'N')
    &&& letter_is(name[5], 'd', 'D')
}

/// Whether a flag's name asks for a defense (see [`spec_is_defend_flag`]).
pub fn is_defend_flag(name: &str) -> (r: bool)
    ensures
        r == spec_is_defend_flag(name@),
{
    if name.unicode_len() < 6 {
        return false;
    }
    let c0 = name.get_char(0);
    let c1 = name.get_char(1);
    let c2 = name.get_char(2);
    let c3 = name.get_char(3);
    let c4 = name.get_char(4);
    let c5 = name.get_char(5);
    (c0 == 'd' || c0 == 'D') && (c1 == 'e' || c1 == 'E') && (c2 == 'f' || c2 == 'F') && (c3 == 'e' || c3 == 'E')
        && (c4 == 'n' || c4 == 'N') && (c5 == 'd' || c5 == 'D')
}

/// Offense objectives by source, stated outright: an operator's attack
/// flag always asks for a ranged quad to secure its room at high priority;
/// resource denial always asks for a lone harasser at low priority; an
/// invader core asks for a ranged quad to dismantle the core's tile at
/// medium priority exactly when its tile is known and the force check
/// passes; no other source posts one. All are owned by the attack lane and
/// live 100 ticks.
pub proof fn lemma_offense_objective_by_source(
    source: TargetSource,
    room: RoomName,
    target_pos: Option<Position>,
    winnable_and_affordable: bool,
)
    ensures
        source is AttackFlag ==> spec_offense_objective(source, room, target_pos, winnable_and_affordable) == Some(
            ObjectiveRecord {
                kind: ObjectiveKind::Secure { room },
                priority: ObjectivePriority::High,
                composition: Composition::QuadRanged,
                owner: ObjectiveOwner::Attack,
                ttl: 100,
            },
        ),
        source is ResourceDenial ==> spec_offense_objective(source, room, target_pos, winnable_and_affordable) == Some(
            ObjectiveRecord {
                kind: ObjectiveKind::Harass { room },
                priority: ObjectivePriority::Low,
                composition: Composition::SoloHarasser,
                owner: ObjectiveOwner::Attack,
                ttl: 100,
            },
        ),
        source is InvaderCore ==> spec_offense_objective(source, room, target_pos, winnable_and_affordable) == (
        if target_pos is Some && winnable_and_affordable {
            Some(
                ObjectiveRecord {
                    kind: ObjectiveKind::Dismantle { room, pos: target_pos->0 },
                    priority: ObjectivePriority::Medium,
                    composition: Composition::QuadRanged,
                    owner: ObjectiveOwner::Attack,
                    ttl: 100,
                },
            )
        } else {
            None
        }),
        !(source is AttackFlag || source is ResourceDenial || source is InvaderCore) ==> spec_offense_objective(
            source,
            room,
            target_pos,
            winnable_and_affordable,
        ) is None,
{
}

/// A defense escalation's squad, stated outright: a quad is a ranged quad,
/// a duo an attack-and-heal pair, a solo a lone ranged defender.
pub proof fn lemma_defense_composition(size: SquadSize)
    ensures
        size == SquadSize::Quad ==> spec_defense_composition(size) == Composition::QuadRanged,
        size == SquadSize::Duo ==> spec_defense_composition(size) == Composition::DuoAttackHeal,
        size == SquadSize::Solo ==> spec_defense_composition(size) == Composition::SoloRanged,
{
}

/// Flag names, stated against the words: a flag asks for an attack
/// exactly when its name begins with "attack" in any mix of case, and for
/// a defense exactly when it begins with "defend".
pub proof fn lemma_flag_words(name: Seq<char>)
    ensures
        spec_is_attack_flag(name) == (name.len() >= 6 && forall|i: int|
            0 <= i < 6 ==> name[i] == #[trigger] "attack"@[i] || name[i] == "ATTACK"@[i]),
        spec_is_defend_flag(name) == (name.len() >= 6 && forall|i: int|
            0 <= i < 6 ==> name[i] == #[trigger] "defend"@[i] || name[i] == "DEFEND"@[i]),
{
    reveal_strlit("attack");
    reveal_strlit("ATTACK");
    reveal_strlit("defend");
    reveal_strlit("DEFEND");
    if name.len() >= 6 {
        assert("attack"@[0] == 'a' && "attack"@[1] == 't' && "attack"@[2] == 't' && "attack"@[3] == 'a'
            && "attack"@[4] == 'c' && "attack"@[5] == 'k');
        assert("ATTACK"@[0] == 'A' && "ATTACK"@[1] == 'T' && "ATTACK"@[2] == 'T' && "ATTACK"@[3] == 'A'
            && "ATTACK"@[4] == 'C' && "ATTACK"@[5] == 'K');
        assert("defend"@[0] == 'd' && "defend"@[1] == 'e' && "defend"@[2] == 'f' && "defend"@[3] == 'e'
            && "defend"@[4] == 'n' && "defend"@[5] == 'd');
        assert("DEFEND"@[0] == 'D' && "DEFEND"@[1] == 'E' && "DEFEND"@[2] == 'F' && "DEFEND"@[3] == 'E'
            && "DEFEND"@[4] == 'N' && "DEFEND"@[5] == 'D');
    }
}

} // verus!
