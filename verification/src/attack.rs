//! Offensive-campaign policy: how long an attack waits on the economy
//! before giving up, by what it attacks.
use vstd::prelude::*;
use crate::defense::ThreatEstimate;
use crate::claim::sat_add;
use crate::war::sat_mul;
use crate::roomdata::sat_sub;

verus! {

/// Why an attack campaign targets a room.
#[derive(Clone, Copy, Debug, PartialEq, Eq, Structural)]
pub enum AttackReason {
    /// Manual 'attack' flag.
    Flag,
    /// Player hostiles near our territory.
    ThreatResponse,
    /// Room we want to expand to.
    Expansion,
    /// Deny enemy remote mining.
    ResourceDenial,
    /// Invader core/stronghold.
    InvaderCore { level: u8 },
    /// Invader creeps in remote mining room.
    InvaderCreeps,
    /// Source Keeper room farming.
    SourceKeeper,
    /// Power bank farming.
    PowerBank { power: u32 },
    /// Proactive defense.
    ProactiveDefense,
}

impl AttackReason {
    /// Ticks a campaign waits for the economy: short for time-sensitive
    /// invader creeps, long for a player's manual flag.
    pub fn economy_patience(&self) -> (t: u32)
        ensures
            t == match *self {
                AttackReason::InvaderCreeps => 100u32,
                AttackReason::InvaderCore { level } => if level == 0 {
                    200u32
                } else {
                    500u32
                },
                AttackReason::ResourceDenial => 300u32,
                AttackReason::PowerBank { .. } => 400u32,
                AttackReason::Flag => 1000u32,
                AttackReason::ThreatResponse | AttackReason::ProactiveDefense => 300u32,
                _ => 500u32,
            },
    {
        match self {
            AttackReason::InvaderCreeps => 100,
            AttackReason::InvaderCore { level } => {
                if *level == 0 {
                    200
                } else {
                    500
                }
            },
            AttackReason::ResourceDenial => 300,
            AttackReason::PowerBank { .. } => 400,
            AttackReason::Flag => 1000,
            AttackReason::ThreatResponse | AttackReason::ProactiveDefense => 300,
            _ => 500,
        }
    }
}


/// An attack campaign gives up once it has sent its last wave, or when it
/// has already invested energy and the economy can no longer afford the
/// campaign's cost.
pub fn should_abort(
    total_waves: u32,
    max_waves: u32,
    total_energy_invested: u32,
    estimated_total_cost: u32,
    can_afford: bool,
) -> (r: bool)
    ensures
        r == (total_waves >= max_waves || (total_energy_invested > 0 && estimated_total_cost > 0
            && !can_afford)),
{
    if total_waves >= max_waves {
        return true;
    }
    total_energy_invested > 0 && estimated_total_cost > 0 && !can_afford
}


/// Damage per tick credited to each hostile tower (close range).
pub const TOWER_DPS_ESTIMATE: u32 = 600;

/// What recon found in the target room.
#[derive(Clone, Copy, Debug, PartialEq, Eq, Structural)]
pub struct TargetIntel {
    pub towers: u32,
    pub hostile_count: u32,
    /// Creep damage plus [`TOWER_DPS_ESTIMATE`] per tower, capped at
    /// `u32::MAX`.
    pub dps: u32,
    pub heal: u32,
    pub safe_mode: bool,
}

/// Recon summary: the hostile creeps' threat plus the towers' damage.
pub fn analyze_target(tower_count: u32, hostile_count: u32, creeps: ThreatEstimate, safe_mode: bool) -> (t: TargetIntel)
    ensures
        t.towers == tower_count,
        t.hostile_count == hostile_count,
        t.dps == sat_add(creeps.dps, sat_mul(TOWER_DPS_ESTIMATE, tower_count)),
        t.heal == creeps.heal,
        t.safe_mode == safe_mode,
{
    let tower_dps: u32 = if tower_count <= u32::MAX / TOWER_DPS_ESTIMATE {
        tower_count * TOWER_DPS_ESTIMATE
    } else {
        u32::MAX
    };
    TargetIntel {
        towers: tower_count,
        hostile_count,
        dps: creeps.dps.saturating_add(tower_dps),
        heal: creeps.heal,
        safe_mode,
    }
}

/// The squads an attack fields.
#[derive(Clone, Copy, Debug, PartialEq, Eq, Structural)]
pub enum ForcePlan {
    /// A tower-draining duo, then a ranged quad once the duo is engaged.
    DrainThenQuad,
    /// A ranged quad.
    QuadRanged,
    /// A melee attacker and healer.
    DuoAttackHeal,
    /// One ranged attacker.
    SoloRanged,
    /// One ranged attacker defending the room (invader cleanup).
    SoloRangedDefend,
    /// A ranged kiter and healer for source keepers.
    DuoSkFarmer,
    /// A melee attacker and healer for a power bank.
    DuoMeleeHeal,
    /// One cheap harasser.
    SoloHarasser,
}

/// Force scaled to the defenses recon found: four towers call for a drain
/// then a quad; two towers or heavy damage or healing a quad; any tower or
/// damage a duo; none a solo attacker.
pub open spec fn spec_plan_by_threat(intel: TargetIntel) -> ForcePlan {
    if intel.towers >= 4 {
        ForcePlan::DrainThenQuad
    } else if intel.towers >= 2 || intel.dps > 200 || intel.heal > 100 {
        ForcePlan::QuadRanged
    } else if intel.towers >= 1 || intel.dps > 0 {
        ForcePlan::DuoAttackHeal
    } else {
        ForcePlan::SoloRanged
    }
}

/// Scale the force to the defenses recon found.
pub fn plan_by_detected_threat(intel: &TargetIntel) -> (p: ForcePlan)
    ensures
        (p == ForcePlan::DrainThenQuad) == (intel.towers >= 4),
        (p == ForcePlan::QuadRanged) == (intel.towers < 4 && (intel.towers >= 2 || intel.dps > 200 || intel.heal > 100)),
        (p == ForcePlan::SoloRanged) == (intel.towers == 0 && intel.dps == 0 && intel.heal <= 100),
        p == spec_plan_by_threat(*intel),
{
    if intel.towers >= 4 {
        ForcePlan::DrainThenQuad
    } else if intel.towers >= 2 || intel.dps > 200 || intel.heal > 100 {
        ForcePlan::QuadRanged
    } else if intel.towers >= 1 || intel.dps > 0 {
        ForcePlan::DuoAttackHeal
    } else {
        ForcePlan::SoloRanged
    }
}

/// The force for a campaign: fixed squads for invader cleanup, source
/// keepers, power banks and harassment; otherwise scaled to the threat.
pub fn build_force_plan(reason: &AttackReason, intel: &TargetIntel) -> (p: ForcePlan)
    ensures
        p == match *reason {
            AttackReason::InvaderCreeps => ForcePlan::SoloRangedDefend,
            AttackReason::SourceKeeper => ForcePlan::DuoSkFarmer,
            AttackReason::PowerBank { .. } => ForcePlan::DuoMeleeHeal,
            AttackReason::ResourceDenial => ForcePlan::SoloHarasser,
            _ => spec_plan_by_threat(*intel),
        },
{
    match reason {
        AttackReason::InvaderCreeps => ForcePlan::SoloRangedDefend,
        AttackReason::SourceKeeper => ForcePlan::DuoSkFarmer,
        AttackReason::PowerBank { .. } => ForcePlan::DuoMeleeHeal,
        AttackReason::ResourceDenial => ForcePlan::SoloHarasser,
        _ => plan_by_detected_threat(intel),
    }
}

/// Rank of a threat-scaled force.
pub open spec fn force_rank(p: ForcePlan) -> int {
    match p {
        ForcePlan::SoloRanged => 0,
        ForcePlan::DuoAttackHeal => 1,
        ForcePlan::QuadRanged => 2,
        ForcePlan::DrainThenQuad => 3,
        _ => 0,
    }
}

/// The threat-scaled force on the recon numbers: drain then quad exactly
/// when there are four or more towers; a ranged quad exactly when there
/// are fewer than four towers and two or more, or over 200 damage, or over
/// 100 healing; a lone ranged attacker exactly when there is no tower, no
/// damage and at most 100 healing; an attack-and-heal duo otherwise.
pub proof fn lemma_plan_by_threat_thresholds(intel: TargetIntel)
    ensures
        (spec_plan_by_threat(intel) == ForcePlan::DrainThenQuad) == (intel.towers >= 4),
        (spec_plan_by_threat(intel) == ForcePlan::QuadRanged) == (intel.towers < 4 && (intel.towers >= 2 || intel.dps
            > 200 || intel.heal > 100)),
        (spec_plan_by_threat(intel) == ForcePlan::SoloRanged) == (intel.towers == 0 && intel.dps == 0 && intel.heal
            <= 100),
        (spec_plan_by_threat(intel) == ForcePlan::DuoAttackHeal) == (intel.towers < 2 && intel.dps <= 200 && intel.heal
            <= 100 && (intel.towers == 1 || intel.dps > 0)),
{
}

/// Stronger defenses never get a smaller force.
pub proof fn lemma_force_scales_with_defenses(a: TargetIntel, b: TargetIntel)
    requires
        a.towers <= b.towers,
        a.dps <= b.dps,
        a.heal <= b.heal,
    ensures
        force_rank(spec_plan_by_threat(a)) <= force_rank(spec_plan_by_threat(b)),
{
}


/// Phase of an attack campaign.
#[derive(Clone, Copy, Debug, PartialEq, Eq, Structural)]
pub enum AttackPhase {
    /// Scout the target room, analyze its defenses.
    Recon,
    /// Wait for the economy to afford the force.
    Prepare,
    /// Deploy squads, assault the target.
    Execute,
    /// Raid or dismantle after the defenses fall.
    Exploit,
    /// Campaign over.
    Complete,
}

/// Order of the phases.
pub open spec fn phase_rank(p: AttackPhase) -> int {
    match p {
        AttackPhase::Recon => 0,
        AttackPhase::Prepare => 1,
        AttackPhase::Execute => 2,
        AttackPhase::Exploit => 3,
        AttackPhase::Complete => 4,
    }
}

/// Ticks between runs outside recon.
pub const ATTACK_RUN_INTERVAL: u32 = 20;

/// Recon waits this long for intel before retrying (flags) or giving up.
pub const RECON_TIMEOUT: u32 = 200;

/// Threat records younger than this are recent enough to plan on.
pub const THREAT_RECON_MAX_AGE: u32 = 200;

/// Whether a threat record last seen at `last_seen` can stand in for live
/// intel at `now`.
pub fn threat_is_recent(last_seen: u32, now: u32) -> (r: bool)
    ensures
        r == (sat_sub(now, last_seen) < THREAT_RECON_MAX_AGE),
{
    now.saturating_sub(last_seen) < THREAT_RECON_MAX_AGE
}

/// What a recon step decided.
#[derive(Clone, Copy, Debug, PartialEq, Eq, Structural)]
pub enum ReconOutcome {
    /// Analyze the visible room, then prepare.
    AnalyzeRoom,
    /// Analyze the recent threat record, then prepare.
    AnalyzeThreat,
    /// Keep waiting for intel.
    Wait,
    /// No intel arrived in time: the campaign ends.
    GiveUp,
}

/// What a prepare step decided.
#[derive(Clone, Copy, Debug, PartialEq, Eq, Structural)]
pub enum PrepareOutcome {
    /// The target is in safe mode: hold.
    SafeModeHold,
    /// The economy affords the force: execute.
    Launch,
    /// Not affordable yet: keep waiting.
    WaitForEconomy,
    /// Waited past the patience: the campaign ends.
    GiveUp,
}

/// The decision state of an attack campaign.
#[derive(Clone, Copy, Debug, PartialEq, Eq, Structural)]
pub struct AttackCampaign {
    pub phase: AttackPhase,
    pub last_run: Option<u32>,
    pub recon_requested: Option<u32>,
    pub economy_wait_since: Option<u32>,
    pub total_waves: u32,
    pub max_waves: u32,
    pub attack_succeeded: bool,
}

/// Ticks a campaign waits on the economy, by what it attacks.
pub open spec fn spec_economy_patience(reason: AttackReason) -> u32 {
    match reason {
        AttackReason::InvaderCreeps => 100u32,
        AttackReason::InvaderCore { level } => if level == 0 {
            200u32
        } else {
            500u32
        },
        AttackReason::ResourceDenial => 300u32,
        AttackReason::PowerBank { .. } => 400u32,
        AttackReason::Flag => 1000u32,
        AttackReason::ThreatResponse | AttackReason::ProactiveDefense => 300u32,
        _ => 500u32,
    }
}

/// What a recon step decides.
pub open spec fn spec_recon_outcome(
    c: AttackCampaign,
    have_live_intel: bool,
    recent_threat: bool,
    reason: AttackReason,
    now: u32,
) -> ReconOutcome {
    if have_live_intel {
        ReconOutcome::AnalyzeRoom
    } else if recent_threat {
        ReconOutcome::AnalyzeThreat
    } else {
        match c.recon_requested {
            Some(t) => if sat_sub(now, t) > RECON_TIMEOUT && !(reason is Flag) {
                ReconOutcome::GiveUp
            } else {
                ReconOutcome::Wait
            },
            None => ReconOutcome::Wait,
        }
    }
}

/// The campaign after a recon step.
pub open spec fn spec_recon_next(
    c: AttackCampaign,
    have_live_intel: bool,
    recent_threat: bool,
    reason: AttackReason,
    now: u32,
) -> AttackCampaign {
    match spec_recon_outcome(c, have_live_intel, recent_threat, reason, now) {
        ReconOutcome::AnalyzeRoom | ReconOutcome::AnalyzeThreat => AttackCampaign {
            phase: AttackPhase::Prepare,
            ..c
        },
        ReconOutcome::GiveUp => c,
        ReconOutcome::Wait => match c.recon_requested {
            Some(t) => if sat_sub(now, t) > RECON_TIMEOUT {
                AttackCampaign { recon_requested: Some(now), ..c }
            } else {
                c
            },
            None => AttackCampaign { recon_requested: Some(now), ..c },
        },
    }
}

/// When the campaign started waiting on the economy (`now` if it was not).
pub open spec fn wait_start(c: AttackCampaign, now: u32) -> u32 {
    match c.economy_wait_since {
        Some(t) => t,
        None => now,
    }
}

/// What a prepare step decides.
pub open spec fn spec_prepare_outcome(
    c: AttackCampaign,
    safe_mode_active: bool,
    can_afford: bool,
    reason: AttackReason,
    now: u32,
) -> PrepareOutcome {
    if safe_mode_active {
        PrepareOutcome::SafeModeHold
    } else if can_afford {
        PrepareOutcome::Launch
    } else if sat_sub(now, wait_start(c, now)) >= spec_economy_patience(reason) {
        PrepareOutcome::GiveUp
    } else {
        PrepareOutcome::WaitForEconomy
    }
}

/// The campaign after a prepare step.
pub open spec fn spec_prepare_next(c: AttackCampaign, safe_mode_active: bool, can_afford: bool, now: u32) -> AttackCampaign {
    if safe_mode_active {
        c
    } else if can_afford {
        AttackCampaign { phase: AttackPhase::Execute, economy_wait_since: None, ..c }
    } else {
        AttackCampaign { economy_wait_since: Some(wait_start(c, now)), ..c }
    }
}

/// The campaign after an exploit step.
pub open spec fn spec_exploit_next(c: AttackCampaign, has_missions: bool) -> AttackCampaign {
    if has_missions {
        c
    } else {
        AttackCampaign { phase: AttackPhase::Complete, ..c }
    }
}

/// The campaign after a child mission finished.
pub open spec fn spec_child_complete(c: AttackCampaign, missions_left: bool) -> AttackCampaign {
    if c.phase == AttackPhase::Execute && !missions_left {
        AttackCampaign {
            phase: if c.attack_succeeded {
                AttackPhase::Exploit
            } else {
                AttackPhase::Complete
            },
            ..c
        }
    } else {
        c
    }
}

impl AttackCampaign {
    /// A campaign starting recon, with up to three waves.
    pub fn new() -> (c: AttackCampaign)
        ensures
            c.phase == AttackPhase::Recon,
            c.last_run is None,
            c.recon_requested is None,
            c.economy_wait_since is None,
            c.total_waves == 0,
            c.max_waves == 3,
            !c.attack_succeeded,
    {
        AttackCampaign {
            phase: AttackPhase::Recon,
            last_run: None,
            recon_requested: None,
            economy_wait_since: None,
            total_waves: 0,
            max_waves: 3,
            attack_succeeded: false,
        }
    }

    /// Recon runs every tick; later phases every [`ATTACK_RUN_INTERVAL`]
    /// ticks (a last run ahead of `now`, after a clock reset, reads as not
    /// elapsed). A run records `now`.
    pub fn start_run(&mut self, now: u32) -> (run: bool)
        ensures
            run == (old(self).phase == AttackPhase::Recon || match old(self).last_run {
                Some(t) => sat_sub(now, t) >= ATTACK_RUN_INTERVAL,
                None => true,
            }),
            *final(self) == if run {
                AttackCampaign { last_run: Some(now), ..*old(self) }
            } else {
                *old(self)
            },
    {
        let run = self.phase == AttackPhase::Recon || match self.last_run {
            Some(t) => now.saturating_sub(t) >= ATTACK_RUN_INTERVAL,
            None => true,
        };
        if run {
            self.last_run = Some(now);
        }
        run
    }

    /// One recon step: live intel or a recent threat record moves the
    /// campaign to prepare; otherwise recon is requested, and once it has
    /// waited past [`RECON_TIMEOUT`] a flag campaign asks again while any
    /// other gives up.
    pub fn recon_step(&mut self, have_live_intel: bool, recent_threat: bool, reason: &AttackReason, now: u32) -> (o: ReconOutcome)
        requires
            old(self).phase == AttackPhase::Recon,
        ensures
            o == spec_recon_outcome(*old(self), have_live_intel, recent_threat, *reason, now),
            *final(self) == spec_recon_next(*old(self), have_live_intel, recent_threat, *reason, now),
    {
        if have_live_intel {
            self.phase = AttackPhase::Prepare;
            return ReconOutcome::AnalyzeRoom;
        }
        if recent_threat {
            self.phase = AttackPhase::Prepare;
            return ReconOutcome::AnalyzeThreat;
        }
        match self.recon_requested {
            Some(t) => {
                if now.saturating_sub(t) > RECON_TIMEOUT {
                    match reason {
                        AttackReason::Flag => {
                            self.recon_requested = Some(now);
                        },
                        _ => {
                            return ReconOutcome::GiveUp;
                        },
                    }
                }
            },
            None => {
                self.recon_requested = Some(now);
            },
        }
        ReconOutcome::Wait
    }

    /// One prepare step: hold while the target is in safe mode; launch once
    /// the force is affordable; otherwise wait, starting the economy clock,
    /// and give up once it has run for the campaign's patience.
    pub fn prepare_step(&mut self, safe_mode_active: bool, can_afford: bool, reason: &AttackReason, now: u32) -> (o: PrepareOutcome)
        requires
            old(self).phase == AttackPhase::Prepare,
        ensures
            o == spec_prepare_outcome(*old(self), safe_mode_active, can_afford, *reason, now),
            *final(self) == spec_prepare_next(*old(self), safe_mode_active, can_afford, now),
    {
        if safe_mode_active {
            return PrepareOutcome::SafeModeHold;
        }
        if can_afford {
            self.economy_wait_since = None;
            self.phase = AttackPhase::Execute;
            return PrepareOutcome::Launch;
        }
        let since = match self.economy_wait_since {
            Some(t) => t,
            None => now,
        };
        self.economy_wait_since = Some(since);
        if now.saturating_sub(since) >= reason.economy_patience() {
            PrepareOutcome::GiveUp
        } else {
            PrepareOutcome::WaitForEconomy
        }
    }

    /// One execute step: a succeeded mission marks the attack succeeded;
    /// with home rooms and no mission running, the next wave launches.
    /// Returns whether it does.
    pub fn execute_step(&mut self, any_mission_succeeded: bool, has_home_rooms: bool, has_missions: bool) -> (launch: bool)
        requires
            old(self).phase == AttackPhase::Execute,
            has_home_rooms && !has_missions ==> old(self).total_waves < u32::MAX,
        ensures
            launch == (has_home_rooms && !has_missions),
            final(self).attack_succeeded == (old(self).attack_succeeded || any_mission_succeeded),
            final(self).total_waves == old(self).total_waves + if launch { 1int } else { 0int },
            final(self).phase == old(self).phase,
            final(self).last_run == old(self).last_run,
            final(self).recon_requested == old(self).recon_requested,
            final(self).economy_wait_since == old(self).economy_wait_since,
            final(self).max_waves == old(self).max_waves,
    {
        if any_mission_succeeded {
            self.attack_succeeded = true;
        }
        if !has_home_rooms || has_missions {
            return false;
        }
        self.total_waves = self.total_waves + 1;
        true
    }

    /// One exploit step: once the raiding missions are done, the campaign
    /// completes.
    pub fn exploit_step(&mut self, has_missions: bool)
        requires
            old(self).phase == AttackPhase::Exploit,
        ensures
            *final(self) == spec_exploit_next(*old(self), has_missions),
    {
        if !has_missions {
            self.phase = AttackPhase::Complete;
        }
    }

    /// A child mission finished: when the last one of the assault is done,
    /// a succeeded attack moves to exploit and a failed one completes.
    pub fn child_complete(&mut self, missions_left: bool)
        ensures
            *final(self) == spec_child_complete(*old(self), missions_left),
    {
        if self.phase == AttackPhase::Execute && !missions_left {
            if self.attack_succeeded {
                self.phase = AttackPhase::Exploit;
            } else {
                self.phase = AttackPhase::Complete;
            }
        }
    }
}

/// A campaign never goes back a phase: each step, taken in the phase it
/// belongs to, keeps the phase or moves it forward (recon, prepare, execute,
/// exploit, complete); the execute step keeps it by its own contract.
pub proof fn lemma_phases_only_advance(
    c: AttackCampaign,
    have_live_intel: bool,
    recent_threat: bool,
    reason: AttackReason,
    safe_mode_active: bool,
    can_afford: bool,
    has_missions: bool,
    now: u32,
)
    ensures
        c.phase == AttackPhase::Recon ==> phase_rank(
            spec_recon_next(c, have_live_intel, recent_threat, reason, now).phase,
        ) >= phase_rank(c.phase),
        c.phase == AttackPhase::Prepare ==> phase_rank(
            spec_prepare_next(c, safe_mode_active, can_afford, now).phase,
        ) >= phase_rank(c.phase),
        c.phase == AttackPhase::Exploit ==> phase_rank(spec_exploit_next(c, has_missions).phase)
            >= phase_rank(c.phase),
        phase_rank(spec_child_complete(c, has_missions).phase) >= phase_rank(c.phase),
{
}

/// A campaign waits on the economy no longer than its patience: once the
/// wait has lasted that long, the prepare step gives up.
pub proof fn lemma_economy_wait_is_bounded(c: AttackCampaign, reason: AttackReason, now: u32)
    requires
        c.economy_wait_since matches Some(t) && t <= now && now - t >= spec_economy_patience(reason),
    ensures
        spec_prepare_outcome(c, false, false, reason, now) == PrepareOutcome::GiveUp,
{
}

/// A recon step on its inputs: live intel moves the campaign to prepare
/// (analyze the room); else a recent threat record does (analyze the
/// record); else, with recon requested more than 200 ticks ago, a flag
/// campaign asks again while any other gives up and stays as it was; else
/// it waits where it is, with recon requested.
pub proof fn lemma_recon_rules(
    c: AttackCampaign,
    have_live_intel: bool,
    recent_threat: bool,
    reason: AttackReason,
    now: u32,
)
    ensures
        have_live_intel ==> spec_recon_outcome(c, have_live_intel, recent_threat, reason, now) == ReconOutcome::AnalyzeRoom
            && spec_recon_next(c, have_live_intel, recent_threat, reason, now) == (AttackCampaign {
            phase: AttackPhase::Prepare,
            ..c
        }),
        !have_live_intel && recent_threat ==> spec_recon_outcome(c, have_live_intel, recent_threat, reason, now)
            == ReconOutcome::AnalyzeThreat && spec_recon_next(c, have_live_intel, recent_threat, reason, now)
            == (AttackCampaign { phase: AttackPhase::Prepare, ..c }),
        (spec_recon_outcome(c, have_live_intel, recent_threat, reason, now) == ReconOutcome::GiveUp) == (!have_live_intel
            && !recent_threat && reason != AttackReason::Flag && match c.recon_requested {
            Some(t) => now >= t && now - t > 200,
            None => false,
        }),
        spec_recon_outcome(c, have_live_intel, recent_threat, reason, now) == ReconOutcome::GiveUp ==> spec_recon_next(
            c,
            have_live_intel,
            recent_threat,
            reason,
            now,
        ) == c,
        spec_recon_outcome(c, have_live_intel, recent_threat, reason, now) == ReconOutcome::Wait ==> spec_recon_next(
            c,
            have_live_intel,
            recent_threat,
            reason,
            now,
        ).phase == c.phase && spec_recon_next(c, have_live_intel, recent_threat, reason, now).recon_requested is Some,
{
}

/// A prepare step on its inputs: safe mode holds the campaign as it is;
/// otherwise an affordable force launches it into execute and clears the
/// wait; otherwise it gives up exactly once it has waited its patience —
/// 100 ticks for invader creeps, 200 for a reserver core, 500 for a
/// stronghold, 300 for resource denial, threat response or proactive
/// defense, 400 for a power bank, 1000 for a flag, 500 for anything else —
/// and keeps waiting (noting when it started) until then.
pub proof fn lemma_prepare_rules(
    c: AttackCampaign,
    safe_mode_active: bool,
    can_afford: bool,
    reason: AttackReason,
    now: u32,
)
    ensures
        safe_mode_active ==> spec_prepare_outcome(c, safe_mode_active, can_afford, reason, now)
            == PrepareOutcome::SafeModeHold && spec_prepare_next(c, safe_mode_active, can_afford, now) == c,
        !safe_mode_active && can_afford ==> spec_prepare_outcome(c, safe_mode_active, can_afford, reason, now)
            == PrepareOutcome::Launch && spec_prepare_next(c, safe_mode_active, can_afford, now) == (AttackCampaign {
            phase: AttackPhase::Execute,
            economy_wait_since: None,
            ..c
        }),
        ({
            let patience: int = match reason {
                AttackReason::InvaderCreeps => 100,
                AttackReason::InvaderCore { level } => if level == 0 {
                    200
                } else {
                    500
                },
                AttackReason::ResourceDenial => 300,
                AttackReason::ThreatResponse => 300,
                AttackReason::ProactiveDefense => 300,
                AttackReason::PowerBank { .. } => 400,
                AttackReason::Flag => 1000,
                _ => 500,
            };
            let since: int = match c.economy_wait_since {
                Some(t) => t as int,
                None => now as int,
            };
            let waited: int = if now >= since { now - since } else { 0 };
            (spec_prepare_outcome(c, safe_mode_active, can_afford, reason, now) == PrepareOutcome::GiveUp) == (
            !safe_mode_active && !can_afford && waited >= patience)
        }),
        !safe_mode_active && !can_afford ==> spec_prepare_next(c, safe_mode_active, can_afford, now) == (AttackCampaign {
            economy_wait_since: Some(
                match c.economy_wait_since {
                    Some(t) => t,
                    None => now,
                },
            ),
            ..c
        }),
{
}

/// An exploit step with no missions left completes the campaign, and
/// otherwise changes nothing; a child mission finishing the last of an
/// execute phase moves it to exploit when the attack succeeded and to
/// complete when it did not, and changes nothing in any other case.
pub proof fn lemma_campaign_endings(c: AttackCampaign, has_missions: bool)
    ensures
        spec_exploit_next(c, has_missions) == if has_missions {
            c
        } else {
            AttackCampaign { phase: AttackPhase::Complete, ..c }
        },
        spec_child_complete(c, has_missions) == if c.phase == AttackPhase::Execute && !has_missions {
            AttackCampaign {
                phase: if c.attack_succeeded {
                    AttackPhase::Exploit
                } else {
                    AttackPhase::Complete
                },
                ..c
            }
        } else {
            c
        },
{
}

} // verus!
