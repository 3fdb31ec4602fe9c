use ibex::attack::{
    analyze_target, build_force_plan, plan_by_detected_threat, should_abort, AttackCampaign, AttackPhase, AttackReason,
    ForcePlan, PrepareOutcome, threat_is_recent, ReconOutcome, TargetIntel, ATTACK_RUN_INTERVAL, RECON_TIMEOUT,
};
use ibex::defense::ThreatEstimate;

#[test]
fn economy_patience_by_reason() {
    assert_eq!(AttackReason::InvaderCreeps.economy_patience(), 100);
    assert_eq!(AttackReason::InvaderCore { level: 0 }.economy_patience(), 200);
    assert_eq!(AttackReason::InvaderCore { level: 3 }.economy_patience(), 500);
    assert_eq!(AttackReason::ResourceDenial.economy_patience(), 300);
    assert_eq!(AttackReason::PowerBank { power: 5_000 }.economy_patience(), 400);
    assert_eq!(AttackReason::Flag.economy_patience(), 1000);
    assert_eq!(AttackReason::ThreatResponse.economy_patience(), 300);
    assert_eq!(AttackReason::ProactiveDefense.economy_patience(), 300);
    assert_eq!(AttackReason::Expansion.economy_patience(), 500);
    assert_eq!(AttackReason::SourceKeeper.economy_patience(), 500);
}

#[test]
fn abort_after_the_last_wave_or_when_the_economy_fails() {
    assert!(should_abort(3, 3, 0, 0, true));
    assert!(!should_abort(2, 3, 0, 0, false), "nothing invested yet: keep waiting");
    assert!(should_abort(1, 3, 500, 2000, false));
    assert!(!should_abort(1, 3, 500, 2000, true));
    assert!(!should_abort(1, 3, 500, 0, false), "no cost estimate yet");
}

fn intel(towers: u32, dps: u32, heal: u32) -> TargetIntel {
    TargetIntel { towers, hostile_count: 0, dps, heal, safe_mode: false }
}

#[test]
fn recon_adds_tower_damage_to_the_creeps() {
    let creeps = ThreatEstimate { dps: 40, heal: 24, hostile_count: 2, any_boosted: false };
    let t = analyze_target(2, 3, creeps, true);
    assert_eq!(t, TargetIntel { towers: 2, hostile_count: 3, dps: 1_240, heal: 24, safe_mode: true });
    let huge = analyze_target(u32::MAX, 0, creeps, false);
    assert_eq!(huge.dps, u32::MAX);
}

#[test]
fn force_scales_with_detected_defenses() {
    assert_eq!(plan_by_detected_threat(&intel(4, 0, 0)), ForcePlan::DrainThenQuad);
    assert_eq!(plan_by_detected_threat(&intel(2, 0, 0)), ForcePlan::QuadRanged);
    assert_eq!(plan_by_detected_threat(&intel(0, 201, 0)), ForcePlan::QuadRanged);
    assert_eq!(plan_by_detected_threat(&intel(0, 0, 101)), ForcePlan::QuadRanged);
    assert_eq!(plan_by_detected_threat(&intel(1, 0, 0)), ForcePlan::DuoAttackHeal);
    assert_eq!(plan_by_detected_threat(&intel(0, 10, 100)), ForcePlan::DuoAttackHeal);
    assert_eq!(plan_by_detected_threat(&intel(0, 0, 100)), ForcePlan::SoloRanged);
}

#[test]
fn fixed_forces_by_reason() {
    let heavy = intel(5, 5_000, 500);
    assert_eq!(build_force_plan(&AttackReason::InvaderCreeps, &heavy), ForcePlan::SoloRangedDefend);
    assert_eq!(build_force_plan(&AttackReason::SourceKeeper, &heavy), ForcePlan::DuoSkFarmer);
    assert_eq!(build_force_plan(&AttackReason::PowerBank { power: 3_000 }, &heavy), ForcePlan::DuoMeleeHeal);
    assert_eq!(build_force_plan(&AttackReason::ResourceDenial, &heavy), ForcePlan::SoloHarasser);
    assert_eq!(build_force_plan(&AttackReason::InvaderCore { level: 2 }, &heavy), ForcePlan::DrainThenQuad);
    assert_eq!(build_force_plan(&AttackReason::Flag, &intel(0, 0, 0)), ForcePlan::SoloRanged);
}

#[test]
fn campaign_starts_in_recon_with_three_waves() {
    let c = AttackCampaign::new();
    assert_eq!(c.phase, AttackPhase::Recon);
    assert_eq!(c.max_waves, 3);
    assert_eq!(c.total_waves, 0);
    assert_eq!(c.last_run, None);
    assert!(!c.attack_succeeded);
}

#[test]
fn recon_runs_every_tick_later_phases_on_the_interval() {
    let mut c = AttackCampaign::new();
    assert!(c.start_run(10));
    assert!(c.start_run(11));
    assert_eq!(c.last_run, Some(11));
    c.phase = AttackPhase::Prepare;
    assert!(!c.start_run(11 + ATTACK_RUN_INTERVAL - 1));
    assert_eq!(c.last_run, Some(11));
    assert!(c.start_run(11 + ATTACK_RUN_INTERVAL));
    assert_eq!(c.last_run, Some(11 + ATTACK_RUN_INTERVAL));
}

#[test]
fn recon_moves_to_prepare_on_intel() {
    let mut c = AttackCampaign::new();
    assert_eq!(c.recon_step(true, false, &AttackReason::ResourceDenial, 5), ReconOutcome::AnalyzeRoom);
    assert_eq!(c.phase, AttackPhase::Prepare);
    let mut d = AttackCampaign::new();
    assert_eq!(d.recon_step(false, true, &AttackReason::ResourceDenial, 5), ReconOutcome::AnalyzeThreat);
    assert_eq!(d.phase, AttackPhase::Prepare);
}

#[test]
fn recon_without_intel_requests_then_gives_up_unless_flagged() {
    let mut c = AttackCampaign::new();
    assert_eq!(c.recon_step(false, false, &AttackReason::ResourceDenial, 100), ReconOutcome::Wait);
    assert_eq!(c.recon_requested, Some(100));
    assert_eq!(c.recon_step(false, false, &AttackReason::ResourceDenial, 100 + RECON_TIMEOUT), ReconOutcome::Wait);
    assert_eq!(c.recon_requested, Some(100));
    assert_eq!(
        c.recon_step(false, false, &AttackReason::ResourceDenial, 101 + RECON_TIMEOUT),
        ReconOutcome::GiveUp
    );
    assert_eq!(c.phase, AttackPhase::Recon);

    let mut f = AttackCampaign::new();
    f.recon_step(false, false, &AttackReason::Flag, 100);
    assert_eq!(f.recon_step(false, false, &AttackReason::Flag, 101 + RECON_TIMEOUT), ReconOutcome::Wait);
    assert_eq!(f.recon_requested, Some(101 + RECON_TIMEOUT), "a flag campaign asks again");
}

#[test]
fn prepare_holds_launches_or_runs_out_of_patience() {
    let mut c = AttackCampaign::new();
    c.phase = AttackPhase::Prepare;
    assert_eq!(c.prepare_step(true, true, &AttackReason::InvaderCreeps, 0), PrepareOutcome::SafeModeHold);
    assert_eq!(c.phase, AttackPhase::Prepare);
    assert_eq!(c.economy_wait_since, None);

    assert_eq!(c.prepare_step(false, false, &AttackReason::InvaderCreeps, 1000), PrepareOutcome::WaitForEconomy);
    assert_eq!(c.economy_wait_since, Some(1000));
    assert_eq!(c.prepare_step(false, false, &AttackReason::InvaderCreeps, 1099), PrepareOutcome::WaitForEconomy);
    assert_eq!(c.prepare_step(false, false, &AttackReason::InvaderCreeps, 1100), PrepareOutcome::GiveUp);

    assert_eq!(c.prepare_step(false, true, &AttackReason::InvaderCreeps, 1101), PrepareOutcome::Launch);
    assert_eq!(c.phase, AttackPhase::Execute);
    assert_eq!(c.economy_wait_since, None);
}

#[test]
fn execute_launches_waves_and_records_success() {
    let mut c = AttackCampaign::new();
    c.phase = AttackPhase::Execute;
    assert!(c.execute_step(false, true, false));
    assert_eq!(c.total_waves, 1);
    assert!(!c.execute_step(true, true, true), "a wave is still fighting");
    assert_eq!(c.total_waves, 1);
    assert!(c.attack_succeeded);
    assert!(!c.execute_step(false, false, false), "no home rooms");
    assert!(c.attack_succeeded, "success is kept");
}

#[test]
fn last_child_moves_to_exploit_or_completes() {
    let mut c = AttackCampaign::new();
    c.phase = AttackPhase::Execute;
    c.child_complete(true);
    assert_eq!(c.phase, AttackPhase::Execute);
    c.attack_succeeded = true;
    c.child_complete(false);
    assert_eq!(c.phase, AttackPhase::Exploit);
    c.exploit_step(true);
    assert_eq!(c.phase, AttackPhase::Exploit);
    c.exploit_step(false);
    assert_eq!(c.phase, AttackPhase::Complete);

    let mut d = AttackCampaign::new();
    d.phase = AttackPhase::Execute;
    d.child_complete(false);
    assert_eq!(d.phase, AttackPhase::Complete);
}

#[test]
fn threat_records_younger_than_the_limit_count_as_intel() {
    assert!(threat_is_recent(1000, 1199));
    assert!(!threat_is_recent(1000, 1200));
    assert!(threat_is_recent(1000, 900), "a record from the future is fresh");
}

#[test]
fn ticks_ahead_of_the_clock_read_as_not_elapsed() {
    let mut c = AttackCampaign::new();
    c.phase = AttackPhase::Prepare;
    c.last_run = Some(1_000);
    assert!(!c.start_run(500), "a last run in the future is no reason to run");
    assert_eq!(c.last_run, Some(1_000));
    let mut r = AttackCampaign::new();
    r.recon_requested = Some(1_000);
    assert_eq!(r.recon_step(false, false, &AttackReason::ResourceDenial, 10), ReconOutcome::Wait);
    assert_eq!(r.recon_requested, Some(1_000));
}
