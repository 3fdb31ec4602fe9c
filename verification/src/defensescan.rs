//! The defense scan: which rooms get a defend objective and which
//! standing defense missions the home rooms still lack. Owned, visible
//! rooms under threat come first (critical), then the operator's defend
//! flags (high), then reserved remotes with invaders (medium).
use vstd::prelude::*;
use crate::geometry::RoomName;
use crate::defense::{
    any_warrants_defender, body_boosted, capped, defend_owned_room, defense_missions_needed, estimate_threat,
    player_count, spec_squad_size, threat_sum, BodyPart, DefenseMissions, ThreatEstimate,
};
use crate::objectives::{
    defend_flag_objective, is_defend_flag, owned_room_defense_objective, remote_defense_objective,
    spec_defense_composition, spec_is_defend_flag, Composition, ObjectiveKind, ObjectiveOwner, ObjectivePriority,
    ObjectiveRecord, DEFEND_OBJECTIVE_TTL,
};

verus! {

/// What the defense scan reads of a room with visibility data.
#[derive(Clone, Debug)]
pub struct DefenseRoom {
    pub room: RoomName,
    /// We own the room.
    pub mine: bool,
    /// We reserve the room.
    pub reserved_mine: bool,
    /// The room is visible now.
    pub visible: bool,
    /// It has a spawn of ours (a home room).
    pub has_spawns: bool,
    /// Armed hostiles are present (attack, ranged attack or work parts).
    pub has_hostiles: bool,
    /// Hostiles with any part other than move or tough are present.
    pub has_threat_creeps: bool,
    /// Its hostile creeps, each `(counts, body)`: for an owned room all but
    /// source keepers count; for a remote only invaders count.
    pub hostiles: Vec<(bool, Vec<BodyPart>)>,
    pub has_nukes: bool,
    pub has_nuke_defense_mission: bool,
    pub has_safe_mode_mission: bool,
    pub has_wall_repair_mission: bool,
}

/// The scan's settings.
#[derive(Clone, Copy, Debug)]
pub struct DefenseScanSettings {
    pub defense_enabled: bool,
    pub nuke_defense_enabled: bool,
    pub safe_mode_enabled: bool,
}

/// What the defense scan posts: the defend objectives in order, and for
/// each home room the standing missions it lacks.
#[derive(Clone, Debug)]
pub struct DefenseScanPlan {
    pub objectives: Vec<ObjectiveRecord>,
    pub missions: Vec<(RoomName, DefenseMissions)>,
}

/// The threat of the hostiles that count.
pub open spec fn counted_threat(hostiles: Seq<(bool, Vec<BodyPart>)>) -> ThreatEstimate {
    ThreatEstimate {
        dps: capped(threat_sum(hostiles, false)),
        heal: capped(threat_sum(hostiles, true)),
        hostile_count: player_count(hostiles) as usize,
        any_boosted: exists|i: int| 0 <= i < hostiles.len() && (#[trigger] hostiles[i]).0 && body_boosted(hostiles[i].1@),
    }
}

/// The defend objective an owned room calls for, if any.
pub open spec fn owned_room_objective(r: DefenseRoom) -> Option<ObjectiveRecord> {
    if r.mine && r.visible && (r.has_hostiles || r.has_threat_creeps) && any_warrants_defender(r.hostiles@) {
        Some(
            ObjectiveRecord {
                kind: ObjectiveKind::Defend { room: r.room },
                priority: ObjectivePriority::Critical,
                composition: spec_defense_composition(spec_squad_size(counted_threat(r.hostiles@))),
                owner: ObjectiveOwner::Defense,
                ttl: DEFEND_OBJECTIVE_TTL,
            },
        )
    } else {
        None
    }
}

/// Invaders in a remote are strong: over 100 damage or 30 healing per
/// tick, or three or more of them.
pub open spec fn invaders_strong(t: ThreatEstimate) -> bool {
    t.dps > 100 || t.heal > 30 || t.hostile_count >= 3
}

/// The defend objective a reserved remote with invaders calls for, if any.
pub open spec fn remote_room_objective(r: DefenseRoom) -> Option<ObjectiveRecord> {
    if r.reserved_mine && r.visible && r.has_hostiles && player_count(r.hostiles@) > 0 {
        Some(
            ObjectiveRecord {
                kind: ObjectiveKind::Defend { room: r.room },
                priority: ObjectivePriority::Medium,
                composition: if invaders_strong(counted_threat(r.hostiles@)) {
                    Composition::DuoAttackHeal
                } else {
                    Composition::SoloRanged
                },
                owner: ObjectiveOwner::Defense,
                ttl: DEFEND_OBJECTIVE_TTL,
            },
        )
    } else {
        None
    }
}

/// A reserved, visible remote with armed hostiles and at least one invader
/// gets a medium defend objective by the defense lane; its squad is an
/// attack-and-heal duo exactly when the invaders (their numbers in
/// [`counted_threat`]) deal over 100 damage or over 30 healing per tick, or
/// three or more come, else a lone ranged defender. Any other room gets no remote defend objective.
pub proof fn lemma_remote_defense_strength(r: DefenseRoom)
    ensures
        (remote_room_objective(r) is Some) == (r.reserved_mine && r.visible && r.has_hostiles && player_count(
            r.hostiles@,
        ) > 0),
        remote_room_objective(r) is Some ==> remote_room_objective(r)->0 == (ObjectiveRecord {
            kind: ObjectiveKind::Defend { room: r.room },
            priority: ObjectivePriority::Medium,
            composition: if counted_threat(r.hostiles@).dps > 100 || counted_threat(r.hostiles@).heal > 30
                || counted_threat(r.hostiles@).hostile_count >= 3 {
                Composition::DuoAttackHeal
            } else {
                Composition::SoloRanged
            },
            owner: ObjectiveOwner::Defense,
            ttl: 60,
        }),
{
}

/// The defend objective an owned, visible room under threat gets is
/// critical, by the defense lane, with the squad its counted hostiles'
/// numbers call for: a ranged quad exactly for a heavy threat, a lone
/// ranged defender exactly for a light one, an attack-and-heal duo
/// otherwise.
pub proof fn lemma_owned_defense_squad(r: DefenseRoom)
    ensures
        owned_room_objective(r) is Some ==> {
            let t = counted_threat(r.hostiles@);
            let o = owned_room_objective(r)->0;
            &&& o.kind == ObjectiveKind::Defend { room: r.room }
            &&& o.priority == ObjectivePriority::Critical
            &&& o.owner == ObjectiveOwner::Defense
            &&& o.ttl == 60
            &&& (o.composition == Composition::QuadRanged) == ((t.any_boosted && t.dps > 200) || (t.heal > 100 && t.dps
                > 150) || t.hostile_count >= 4)
            &&& (o.composition == Composition::SoloRanged) == (t.dps <= 60 && t.heal <= 20 && t.hostile_count <= 1
                && !t.any_boosted)
            &&& (o.composition == Composition::QuadRanged || o.composition == Composition::DuoAttackHeal
                || o.composition == Composition::SoloRanged)
        },
{
    crate::defense::lemma_squad_escalation_thresholds(counted_threat(r.hostiles@));
}

/// The defend objectives a run of rooms yields as owned rooms or, with
/// `remote`, as reserved remotes; in room order.
pub open spec fn room_objectives(rooms: Seq<DefenseRoom>, remote: bool) -> Seq<ObjectiveRecord>
    decreases rooms.len(),
{
    if rooms.len() == 0 {
        Seq::empty()
    } else {
        let prev = room_objectives(rooms.drop_last(), remote);
        let o = if remote { remote_room_objective(rooms.last()) } else { owned_room_objective(rooms.last()) };
        match o {
            Some(x) => prev.push(x),
            None => prev,
        }
    }
}

/// The defend objectives of the operator's defend flags, in flag order.
pub open spec fn flag_objectives(flags: Seq<(String, RoomName)>) -> Seq<ObjectiveRecord>
    decreases flags.len(),
{
    if flags.len() == 0 {
        Seq::empty()
    } else {
        let prev = flag_objectives(flags.drop_last());
        if spec_is_defend_flag(flags.last().0@) {
            prev.push(
                ObjectiveRecord {
                    kind: ObjectiveKind::Defend { room: flags.last().1 },
                    priority: ObjectivePriority::High,
                    composition: Composition::DuoAttackHeal,
                    owner: ObjectiveOwner::Defense,
                    ttl: DEFEND_OBJECTIVE_TTL,
                },
            )
        } else {
            prev
        }
    }
}

/// The standing missions a home room lacks.
pub open spec fn room_missions(r: DefenseRoom, st: DefenseScanSettings) -> DefenseMissions {
    DefenseMissions {
        nuke_defense: r.has_nukes && !r.has_nuke_defense_mission && st.nuke_defense_enabled,
        safe_mode: r.has_hostiles && !r.has_safe_mode_mission && st.safe_mode_enabled,
        wall_repair: r.has_hostiles && !r.has_wall_repair_mission,
    }
}

/// A home room the scan manages missions for: owned, visible, with a spawn.
pub open spec fn managed_home(r: DefenseRoom) -> bool {
    r.mine && r.visible && r.has_spawns
}

/// The home rooms' missions, in room order.
pub open spec fn home_missions(rooms: Seq<DefenseRoom>, st: DefenseScanSettings) -> Seq<(RoomName, DefenseMissions)>
    decreases rooms.len(),
{
    if rooms.len() == 0 {
        Seq::empty()
    } else {
        let prev = home_missions(rooms.drop_last(), st);
        if managed_home(rooms.last()) {
            prev.push((rooms.last().room, room_missions(rooms.last(), st)))
        } else {
            prev
        }
    }
}

/// The scan runs with defense enabled and some owned room with a spawn.
pub open spec fn defense_scan_runs(rooms: Seq<DefenseRoom>, st: DefenseScanSettings) -> bool {
    st.defense_enabled && exists|i: int| 0 <= i < rooms.len() && (#[trigger] rooms[i]).mine && rooms[i].has_spawns
}

fn owned_objective(r: &DefenseRoom) -> (o: Option<ObjectiveRecord>)
    ensures
        o == owned_room_objective(*r),
{
    if !(r.mine && r.visible) {
        return None;
    }
    match defend_owned_room(true, r.has_hostiles || r.has_threat_creeps, &r.hostiles) {
        Some(size) => Some(owned_room_defense_objective(r.room, size)),
        None => None,
    }
}

fn remote_objective(r: &DefenseRoom) -> (o: Option<ObjectiveRecord>)
    ensures
        o == remote_room_objective(*r),
        o is Some ==> o->0.composition == (if capped(threat_sum(r.hostiles@, false)) > 100 || capped(
            threat_sum(r.hostiles@, true),
        ) > 30 || player_count(r.hostiles@) >= 3 {
            Composition::DuoAttackHeal
        } else {
            Composition::SoloRanged
        }),
{
    if !(r.reserved_mine && r.visible && r.has_hostiles) {
        return None;
    }
    let t = estimate_threat(&r.hostiles);
    if t.hostile_count == 0 {
        return None;
    }
    let strong = t.dps > 100 || t.heal > 30 || t.hostile_count >= 3;
    Some(remote_defense_objective(r.room, strong))
}

/// The defense scan over the rooms with visibility data and the flags
/// (name and room): when it runs ([`defense_scan_runs`]), the owned rooms'
/// defend objectives, then the defend flags', then the remotes', each in
/// input order, and the home rooms' missions; otherwise nothing.
pub fn defense_scan(rooms: &[DefenseRoom], flags: &[(String, RoomName)], st: DefenseScanSettings) -> (plan: DefenseScanPlan)
    ensures
        defense_scan_runs(rooms@, st) ==> plan.objectives@ == room_objectives(rooms@, false) + flag_objectives(flags@)
            + room_objectives(rooms@, true),
        defense_scan_runs(rooms@, st) ==> plan.missions@ == home_missions(rooms@, st),
        !defense_scan_runs(rooms@, st) ==> plan.objectives@.len() == 0 && plan.missions@.len() == 0,
{
    let mut objectives: Vec<ObjectiveRecord> = Vec::new();
    let mut missions: Vec<(RoomName, DefenseMissions)> = Vec::new();
    if !st.defense_enabled {
        return DefenseScanPlan { objectives, missions };
    }
    let mut any_home = false;
    let mut i: usize = 0;
    while i < rooms.len()
        invariant
            0 <= i <= rooms@.len(),
            any_home == exists|a: int| 0 <= a < i && (#[trigger] rooms@[a]).mine && rooms@[a].has_spawns,
        decreases rooms@.len() - i,
    {
        if rooms[i].mine && rooms[i].has_spawns {
            any_home = true;
        }
        i += 1;
    }
    if !any_home {
        return DefenseScanPlan { objectives, missions };
    }
    let mut i: usize = 0;
    while i < rooms.len()
        invariant
            0 <= i <= rooms@.len(),
            objectives@ == room_objectives(rooms@.take(i as int), false),
            missions@ == home_missions(rooms@.take(i as int), st),
        decreases rooms@.len() - i,
    {
        proof {
            assert(rooms@.take(i as int + 1).drop_last() =~= rooms@.take(i as int));
        }
        let r = &rooms[i];
        match owned_objective(r) {
            Some(o) => objectives.push(o),
            None => {},
        }
        if r.mine && r.visible && r.has_spawns {
            let m = defense_missions_needed(
                r.has_hostiles,
                r.has_nukes,
                r.has_nuke_defense_mission,
                r.has_safe_mode_mission,
                r.has_wall_repair_mission,
                st.nuke_defense_enabled,
                st.safe_mode_enabled,
            );
            missions.push((r.room, m));
        }
        i += 1;
    }
    proof {
        assert(rooms@.take(rooms@.len() as int) =~= rooms@);
    }
    let ghost owned = objectives@;
    let mut k: usize = 0;
    while k < flags.len()
        invariant
            0 <= k <= flags@.len(),
            objectives@ == owned + flag_objectives(flags@.take(k as int)),
        decreases flags@.len() - k,
    {
        proof {
            assert(flags@.take(k as int + 1).drop_last() =~= flags@.take(k as int));
        }
        if is_defend_flag(flags[k].0.as_str()) {
            objectives.push(defend_flag_objective(flags[k].1));
        }
        proof {
            assert(objectives@ =~= owned + flag_objectives(flags@.take(k as int + 1)));
        }
        k += 1;
    }
    proof {
        assert(flags@.take(flags@.len() as int) =~= flags@);
    }
    let ghost upto = objectives@;
    let mut i: usize = 0;
    while i < rooms.len()
        invariant
            0 <= i <= rooms@.len(),
            objectives@ == upto + room_objectives(rooms@.take(i as int), true),
        decreases rooms@.len() - i,
    {
        proof {
            assert(rooms@.take(i as int + 1).drop_last() =~= rooms@.take(i as int));
        }
        match remote_objective(&rooms[i]) {
            Some(o) => objectives.push(o),
            None => {},
        }
        proof {
            assert(objectives@ =~= upto + room_objectives(rooms@.take(i as int + 1), true));
        }
        i += 1;
    }
    proof {
        assert(rooms@.take(rooms@.len() as int) =~= rooms@);
    }
    DefenseScanPlan { objectives, missions }
}

} // verus!
