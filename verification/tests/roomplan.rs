use ibex::roomplan::{
    can_plan, plan_tick_effect, select_plan_request, PlanRequest, PlanStatus, PlanTickOutcome, REPLAN_DELAY_TICKS,
};

#[test]
fn unplanned_rooms_are_always_planned() {
    assert!(can_plan(None, 0, false, false));
}

#[test]
fn valid_plans_are_redone_only_when_forced() {
    assert!(!can_plan(Some(PlanStatus::Valid), 10_000, false, true));
    assert!(can_plan(Some(PlanStatus::Valid), 10_000, true, false));
    assert!(PlanStatus::Valid.valid());
    assert!(!PlanStatus::Failed { time: 1 }.valid());
}

#[test]
fn failed_plans_wait_out_the_replan_delay() {
    let failed = Some(PlanStatus::Failed { time: 1_000 });
    assert!(!can_plan(failed, 1_000 + REPLAN_DELAY_TICKS - 1, false, true));
    assert!(can_plan(failed, 1_000 + REPLAN_DELAY_TICKS, false, true));
    assert!(!can_plan(failed, 1_000 + REPLAN_DELAY_TICKS, false, false), "replanning disabled");
}

fn request(priority_key: u32, status: Option<PlanStatus>, has_room_data: bool) -> PlanRequest {
    PlanRequest { priority_key, status, has_room_data }
}

#[test]
fn the_most_urgent_ready_request_is_planned_next() {
    let requests = [
        request(5, None, true),
        request(9, None, false),                                  // no room data
        request(8, Some(PlanStatus::Valid), true),                // valid, not forced
        request(7, Some(PlanStatus::Failed { time: 100 }), true), // too recent
        request(6, None, true),
        request(6, None, true),
    ];
    assert_eq!(select_plan_request(&requests, 1_000, false, true), Some(5), "last of the highest ready");
    assert_eq!(select_plan_request(&requests, 1_000, true, true), Some(2));
    assert_eq!(select_plan_request(&requests, 100 + REPLAN_DELAY_TICKS, false, true), Some(3));
    assert_eq!(select_plan_request(&requests[1..4], 1_000, false, true), None);
}

#[test]
fn planning_ticks_record_their_outcome() {
    assert_eq!(plan_tick_effect(PlanTickOutcome::Running, 7), (false, None));
    assert_eq!(plan_tick_effect(PlanTickOutcome::Complete { viable: true }, 7), (true, Some(PlanStatus::Valid)));
    assert_eq!(
        plan_tick_effect(PlanTickOutcome::Complete { viable: false }, 7),
        (true, Some(PlanStatus::Failed { time: 7 }))
    );
    assert_eq!(plan_tick_effect(PlanTickOutcome::Failed, 7), (true, Some(PlanStatus::Failed { time: 7 })));
    assert_eq!(plan_tick_effect(PlanTickOutcome::Error, 7), (true, None));
    let (_, status) = plan_tick_effect(PlanTickOutcome::Failed, 7);
    assert!(!can_plan(status, 7 + REPLAN_DELAY_TICKS - 1, true, true));
}
