//! The offense scan: turn manual attack flags and per-room threat intel
//! into attack candidates, keep each room's best, rank them, and post
//! offense objectives in rank order under the concurrency cap. An
//! objective already posted is always re-asserted; a new one only while
//! the running count of offense objectives is under the cap.
use vstd::prelude::*;
use crate::geometry::{Position, RoomName};
use crate::objectives::{
    offense_objective, spec_offense_objective, ObjectiveKind, ObjectiveRecord, TargetSource,
};
use crate::war::{
    invader_core_attack_score, offense_room_gate, rank_attack_candidates, ranks_ahead, resource_denial_score,
    room_champion, spec_invader_core_attack_score, spec_resource_denial_score, OffenseGate,
    OFFENSE_MAX_DISTANCE, THREAT_INTEL_MAX_AGE,
};

verus! {

/// Score of a manual attack flag's room (ahead of every automatic target).
pub const ATTACK_FLAG_SCORE: u32 = 100;

/// What the offense scan reads of one room with threat intel.
#[derive(Clone, Copy, Debug)]
pub struct OffenseRoom {
    pub room: RoomName,
    /// We own the room.
    pub is_owned: bool,
    /// Route hops from the nearest home room.
    pub min_distance: u32,
    /// Tick the threat intel was taken.
    pub last_seen: u32,
    /// The strongest invader core present: its level and tile.
    pub core: Option<(u8, Position)>,
    /// We reserve the room.
    pub is_our_remote: bool,
    pub has_sources: bool,
    /// A hostile player owns the room.
    pub hostile_owner: bool,
    /// Every hostile creep there is an NPC's.
    pub all_npc: bool,
    /// The threat level is at least a player scout.
    pub player_threat: bool,
    pub tower_count: u32,
    /// Safe mode is active or available.
    pub has_safe_mode: bool,
    /// The force check finds one squad can beat the core's defense and a
    /// home can field it.
    pub core_winnable: bool,
}

/// The pass's settings.
#[derive(Clone, Copy, Debug)]
pub struct OffenseSettings {
    pub attack_invaders: bool,
    pub attack_players: bool,
    pub total_stored_energy: u32,
    pub now: u32,
}

/// An attack candidate.
#[derive(Clone, Copy, Debug)]
pub struct OffenseCandidate {
    pub room: RoomName,
    pub score: u32,
    pub source: TargetSource,
    pub target_pos: Option<Position>,
    pub winnable: bool,
}

/// What the offense pass posts, and which rooms it asks to re-scout.
#[derive(Clone, Debug)]
pub struct OffensePlan {
    pub objectives: Vec<ObjectiveRecord>,
    pub rescout: Vec<RoomName>,
}

/// What the offense gate does with a room's threat record.
pub open spec fn room_gate(r: OffenseRoom, st: OffenseSettings) -> OffenseGate {
    if r.is_owned {
        OffenseGate::SkipOwned
    } else if r.min_distance > OFFENSE_MAX_DISTANCE {
        OffenseGate::SkipFar
    } else if crate::roomdata::sat_sub(st.now, r.last_seen) > THREAT_INTEL_MAX_AGE {
        OffenseGate::Rescout
    } else {
        OffenseGate::Evaluate
    }
}

/// The invader-core candidate of a room, if any.
pub open spec fn core_candidates(r: OffenseRoom, st: OffenseSettings) -> Seq<OffenseCandidate> {
    match r.core {
        Some((level, pos)) => if st.attack_invaders {
            match spec_invader_core_attack_score(
                level,
                r.min_distance,
                st.total_stored_energy,
                r.is_our_remote,
                r.has_sources,
            ) {
                Some(s) => seq![
                    OffenseCandidate {
                        room: r.room,
                        score: s,
                        source: TargetSource::InvaderCore { level },
                        target_pos: Some(pos),
                        winnable: r.core_winnable,
                    },
                ],
                None => Seq::empty(),
            }
        } else {
            Seq::empty()
        },
        None => Seq::empty(),
    }
}

/// The resource-denial candidate of a room, if any.
pub open spec fn denial_candidates(r: OffenseRoom, st: OffenseSettings) -> Seq<OffenseCandidate> {
    match spec_resource_denial_score(
        r.hostile_owner,
        st.attack_players,
        r.all_npc,
        r.player_threat,
        st.total_stored_energy,
        r.min_distance,
        r.tower_count,
        r.has_safe_mode,
    ) {
        Some(s) => seq![
            OffenseCandidate {
                room: r.room,
                score: s,
                source: TargetSource::ResourceDenial,
                target_pos: None,
                winnable: false,
            },
        ],
        None => Seq::empty(),
    }
}

/// A room's candidates: none unless its intel is judged; otherwise
/// its core candidate, then its resource-denial candidate.
pub open spec fn room_candidates(r: OffenseRoom, st: OffenseSettings) -> Seq<OffenseCandidate> {
    if room_gate(r, st) == OffenseGate::Evaluate {
        core_candidates(r, st) + denial_candidates(r, st)
    } else {
        Seq::empty()
    }
}

/// The candidates of a run of rooms, in room order.
pub open spec fn rooms_candidates(rooms: Seq<OffenseRoom>, st: OffenseSettings) -> Seq<OffenseCandidate>
    decreases rooms.len(),
{
    if rooms.len() == 0 {
        Seq::empty()
    } else {
        rooms_candidates(rooms.drop_last(), st) + room_candidates(rooms.last(), st)
    }
}

/// The rooms of a run whose intel is too old to judge.
pub open spec fn rescout_rooms(rooms: Seq<OffenseRoom>, st: OffenseSettings) -> Seq<RoomName>
    decreases rooms.len(),
{
    if rooms.len() == 0 {
        Seq::empty()
    } else if room_gate(rooms.last(), st) == OffenseGate::Rescout {
        rescout_rooms(rooms.drop_last(), st).push(rooms.last().room)
    } else {
        rescout_rooms(rooms.drop_last(), st)
    }
}

/// A flagged room's candidate.
pub open spec fn flag_candidate(room: RoomName) -> OffenseCandidate {
    OffenseCandidate {
        room,
        score: ATTACK_FLAG_SCORE,
        source: TargetSource::AttackFlag,
        target_pos: None,
        winnable: false,
    }
}

/// All candidates: the flagged rooms first, then the rooms' own.
pub open spec fn attack_candidates(
    flags: Seq<RoomName>,
    rooms: Seq<OffenseRoom>,
    st: OffenseSettings,
) -> Seq<OffenseCandidate> {
    Seq::new(flags.len(), |i: int| flag_candidate(flags[i])) + rooms_candidates(rooms, st)
}

/// The ranking keys of candidates.
pub open spec fn candidate_keys(c: Seq<OffenseCandidate>) -> Seq<(RoomName, u32)> {
    Seq::new(c.len(), |i: int| (c[i].room, c[i].score))
}

/// `r` ranks `c`: each room's best candidate once (the first on ties),
/// higher score first, then reading order.
pub open spec fn attack_ranking(c: Seq<(RoomName, u32)>, r: Seq<usize>) -> bool {
    &&& forall|k: int| 0 <= k < r.len() ==> r[k] < c.len() && room_champion(c, r[k] as int)
    &&& forall|k: int, l: int| 0 <= k < l < r.len() ==> ranks_ahead(c[r[k] as int], c[r[l] as int])
    &&& forall|i: int| #[trigger] room_champion(c, i) ==> r.contains(i as usize)
}

/// The objective a candidate maps to, if any.
pub open spec fn candidate_objective(c: OffenseCandidate) -> Option<ObjectiveRecord> {
    spec_offense_objective(c.source, c.room, c.target_pos, c.winnable)
}

/// The objectives of the ranked candidates, in rank order.
pub open spec fn ranked_objectives(c: Seq<OffenseCandidate>, r: Seq<usize>) -> Seq<Option<ObjectiveRecord>> {
    Seq::new(r.len(), |k: int| candidate_objective(c[r[k] as int]))
}

/// An objective of this kind is already posted: in the queue, or earlier
/// in this pass.
pub open spec fn kind_posted(existing: Seq<ObjectiveKind>, out: Seq<ObjectiveRecord>, k: ObjectiveKind) -> bool {
    existing.contains(k) || exists|i: int| 0 <= i < out.len() && (#[trigger] out[i]).kind == k
}

/// Posting the objectives in order: `(posted, count)`. One already posted
/// is re-asserted; a new one is posted only while the count is under
/// `max`, and then raises the count.
pub open spec fn admit_fold(
    objs: Seq<Option<ObjectiveRecord>>,
    existing: Seq<ObjectiveKind>,
    count: nat,
    max: nat,
) -> (Seq<ObjectiveRecord>, nat)
    decreases objs.len(),
{
    if objs.len() == 0 {
        (Seq::empty(), count)
    } else {
        let prev = admit_fold(objs.drop_last(), existing, count, max);
        match objs.last() {
            None => prev,
            Some(o) => {
                let is_new = !kind_posted(existing, prev.0, o.kind);
                if is_new && prev.1 >= max {
                    prev
                } else {
                    (prev.0.push(o), if is_new { prev.1 + 1 } else { prev.1 })
                }
            },
        }
    }
}

/// Objectives of a run of postings that were new when posted.
pub open spec fn fresh_count(out: Seq<ObjectiveRecord>, existing: Seq<ObjectiveKind>) -> nat
    decreases out.len(),
{
    if out.len() == 0 {
        0
    } else {
        fresh_count(out.drop_last(), existing) + if kind_posted(existing, out.drop_last(), out.last().kind) {
            0nat
        } else {
            1nat
        }
    }
}

/// The cap holds over a pass: the count ends as the starting count plus
/// the objectives that were new, and never above the larger of the
/// starting count and the cap.
pub proof fn lemma_offense_posting_respects_cap(
    objs: Seq<Option<ObjectiveRecord>>,
    existing: Seq<ObjectiveKind>,
    count: nat,
    max: nat,
)
    ensures
        admit_fold(objs, existing, count, max).1 == count + fresh_count(admit_fold(objs, existing, count, max).0, existing),
        admit_fold(objs, existing, count, max).1 <= if count >= max { count } else { max },
    decreases objs.len(),
{
    if objs.len() > 0 {
        lemma_offense_posting_respects_cap(objs.drop_last(), existing, count, max);
        let prev = admit_fold(objs.drop_last(), existing, count, max);
        match objs.last() {
            None => {},
            Some(o) => {
                let is_new = !kind_posted(existing, prev.0, o.kind);
                if !(is_new && prev.1 >= max) {
                    assert(prev.0.push(o).drop_last() =~= prev.0);
                }
            },
        }
    }
}

fn kind_in(kinds: &[ObjectiveKind], out: &Vec<ObjectiveRecord>, k: ObjectiveKind) -> (r: bool)
    ensures
        r == kind_posted(kinds@, out@, k),
{
    let mut i: usize = 0;
    while i < kinds.len()
        invariant
            0 <= i <= kinds@.len(),
            forall|a: int| 0 <= a < i ==> kinds@[a] != k,
        decreases kinds@.len() - i,
    {
        if kinds[i] == k {
            assert(kinds@[i as int] == k);
            return true;
        }
        i += 1;
    }
    assert(!kinds@.contains(k));
    let mut j: usize = 0;
    while j < out.len()
        invariant
            0 <= j <= out@.len(),
            forall|a: int| 0 <= a < j ==> (#[trigger] out@[a]).kind != k,
        decreases out@.len() - j,
    {
        if out[j].kind == k {
            assert(out@[j as int].kind == k);
            return true;
        }
        j += 1;
    }
    false
}

/// The candidates one room yields (see [`room_candidates`]), appended to
/// `cands`; a room whose intel is too old is appended to `rescout`.
fn scan_room(
    r: &OffenseRoom,
    st: &OffenseSettings,
    cands: &mut Vec<OffenseCandidate>,
    rescout: &mut Vec<RoomName>,
)
    ensures
        final(cands)@ == old(cands)@ + room_candidates(*r, *st),
        final(rescout)@ == if room_gate(*r, *st) == OffenseGate::Rescout {
            old(rescout)@.push(r.room)
        } else {
            old(rescout)@
        },
{
    let gate = offense_room_gate(r.is_owned, r.min_distance, st.now, r.last_seen);
    match gate {
        OffenseGate::Rescout => {
            rescout.push(r.room);
            assert(cands@ =~= old(cands)@ + room_candidates(*r, *st));
        },
        OffenseGate::Evaluate => {
            let ghost c0 = cands@;
            match r.core {
                Some((level, pos)) => {
                    if st.attack_invaders {
                        match invader_core_attack_score(
                            level,
                            r.min_distance,
                            st.total_stored_energy,
                            r.is_our_remote,
                            r.has_sources,
                        ) {
                            Some(s) => {
                                cands.push(
                                    OffenseCandidate {
                                        room: r.room,
                                        score: s,
                                        source: TargetSource::InvaderCore { level },
                                        target_pos: Some(pos),
                                        winnable: r.core_winnable,
                                    },
                                );
                            },
                            None => {},
                        }
                    }
                },
                None => {},
            }
            assert(cands@ =~= c0 + core_candidates(*r, *st));
            let ghost c1 = cands@;
            match resource_denial_score(
                r.hostile_owner,
                st.attack_players,
                r.all_npc,
                r.player_threat,
                st.total_stored_energy,
                r.min_distance,
                r.tower_count,
                r.has_safe_mode,
            ) {
                Some(s) => {
                    cands.push(
                        OffenseCandidate {
                            room: r.room,
                            score: s,
                            source: TargetSource::ResourceDenial,
                            target_pos: None,
                            winnable: false,
                        },
                    );
                },
                None => {},
            }
            assert(cands@ =~= c1 + denial_candidates(*r, *st));
            assert(cands@ =~= c0 + room_candidates(*r, *st));
        },
        _ => {
            assert(cands@ =~= old(cands)@ + room_candidates(*r, *st));
        },
    }
}

/// The offense scan over the attack-flag rooms and the rooms with threat
/// intel: gather the candidates ([`attack_candidates`]), rank them
/// ([`attack_ranking`]), and post their objectives in rank order
/// ([`admit_fold`]) given the kinds already in the queue and the count of
/// offense objectives there. Also returns the rooms to re-scout. The count
/// of offense objectives never ends above the larger of `offense_count`
/// and `max_concurrent`.
pub fn offense_pass(
    flags: &[RoomName],
    rooms: &[OffenseRoom],
    st: OffenseSettings,
    existing: &[ObjectiveKind],
    offense_count: u32,
    max_concurrent: u32,
) -> (plan: OffensePlan)
    ensures
        plan.rescout@ == rescout_rooms(rooms@, st),
        exists|rk: Seq<usize>|
            #![trigger attack_ranking(candidate_keys(attack_candidates(flags@, rooms@, st)), rk)]
            attack_ranking(candidate_keys(attack_candidates(flags@, rooms@, st)), rk) && plan.objectives@
                == admit_fold(
                ranked_objectives(attack_candidates(flags@, rooms@, st), rk),
                existing@,
                offense_count as nat,
                max_concurrent as nat,
            ).0,
        offense_count + fresh_count(plan.objectives@, existing@) <= if offense_count >= max_concurrent {
            offense_count
        } else {
            max_concurrent
        },
{
    let mut cands: Vec<OffenseCandidate> = Vec::new();
    let mut rescout: Vec<RoomName> = Vec::new();
    let mut i: usize = 0;
    while i < flags.len()
        invariant
            0 <= i <= flags@.len(),
            cands@ =~= Seq::new(i as nat, |a: int| flag_candidate(flags@[a])),
            rescout@.len() == 0,
        decreases flags@.len() - i,
    {
        cands.push(
            OffenseCandidate {
                room: flags[i],
                score: ATTACK_FLAG_SCORE,
                source: TargetSource::AttackFlag,
                target_pos: None,
                winnable: false,
            },
        );
        i += 1;
    }
    let ghost fc = cands@;
    let mut j: usize = 0;
    while j < rooms.len()
        invariant
            0 <= j <= rooms@.len(),
            fc == Seq::new(flags@.len(), |a: int| flag_candidate(flags@[a])),
            cands@ == fc + rooms_candidates(rooms@.take(j as int), st),
            rescout@ == rescout_rooms(rooms@.take(j as int), st),
        decreases rooms@.len() - j,
    {
        proof {
            assert(rooms@.take(j as int + 1).drop_last() =~= rooms@.take(j as int));
            assert(rooms@.take(j as int + 1).last() == rooms@[j as int]);
        }
        let ghost before = cands@;
        scan_room(&rooms[j], &st, &mut cands, &mut rescout);
        proof {
            assert(cands@ =~= fc + rooms_candidates(rooms@.take(j as int + 1), st));
        }
        j += 1;
    }
    proof {
        assert(rooms@.take(rooms@.len() as int) =~= rooms@);
        assert(cands@ == attack_candidates(flags@, rooms@, st));
    }
    let mut keys: Vec<(RoomName, u32)> = Vec::new();
    let mut k: usize = 0;
    while k < cands.len()
        invariant
            0 <= k <= cands@.len(),
            keys@ =~= candidate_keys(cands@.take(k as int)),
        decreases cands@.len() - k,
    {
        keys.push((cands[k].room, cands[k].score));
        k += 1;
    }
    proof {
        assert(cands@.take(cands@.len() as int) =~= cands@);
    }
    let rk = rank_attack_candidates(&keys);
    let ghost objs = ranked_objectives(cands@, rk@);
    let mut out: Vec<ObjectiveRecord> = Vec::new();
    let mut count: u32 = offense_count;
    let mut m: usize = 0;
    while m < rk.len()
        invariant
            0 <= m <= rk@.len(),
            objs == ranked_objectives(cands@, rk@),
            forall|a: int| 0 <= a < rk@.len() ==> rk@[a] < cands@.len(),
            (out@, count as nat) == admit_fold(objs.take(m as int), existing@, offense_count as nat, max_concurrent as nat),
            count <= if offense_count >= max_concurrent { offense_count } else { max_concurrent },
        decreases rk@.len() - m,
    {
        proof {
            assert(objs.take(m as int + 1).drop_last() =~= objs.take(m as int));
            assert(objs.take(m as int + 1).last() == objs[m as int]);
            lemma_offense_posting_respects_cap(objs.take(m as int + 1), existing@, offense_count as nat, max_concurrent as nat);
        }
        let c = cands[rk[m]];
        match offense_objective(c.source, c.room, c.target_pos, c.winnable) {
            Some(o) => {
                let is_new = !kind_in(existing, &out, o.kind);
                if !(is_new && count >= max_concurrent) {
                    out.push(o);
                    if is_new {
                        count = count + 1;
                    }
                }
            },
            None => {},
        }
        m += 1;
    }
    proof {
        assert(objs.take(rk@.len() as int) =~= objs);
        lemma_offense_posting_respects_cap(objs, existing@, offense_count as nat, max_concurrent as nat);
        assert(attack_ranking(candidate_keys(attack_candidates(flags@, rooms@, st)), rk@));
    }
    OffensePlan { objectives: out, rescout }
}

/// Manual attack flags rank ahead of every automatic target: a flagged
/// room's candidate scores 100, while a room's own candidates score at
/// most 60 (an invader core) or 40 (resource denial).
pub proof fn lemma_flags_rank_first(room: RoomName, r: OffenseRoom, st: OffenseSettings)
    ensures
        flag_candidate(room).score == 100,
        flag_candidate(room).source == TargetSource::AttackFlag,
        forall|i: int| 0 <= i < room_candidates(r, st).len() ==> (#[trigger] room_candidates(r, st)[i]).score <= 60,
{
    let c = core_candidates(r, st);
    let d = denial_candidates(r, st);
    assert forall|i: int| 0 <= i < room_candidates(r, st).len() implies (#[trigger] room_candidates(r, st)[i]).score
        <= 60 by {
        if room_gate(r, st) == OffenseGate::Evaluate {
            if i < c.len() {
                assert(room_candidates(r, st)[i] == c[i]);
            } else {
                assert(room_candidates(r, st)[i] == d[i - c.len()]);
            }
        }
    }
}

} // verus!
