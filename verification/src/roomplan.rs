//! Room-planner scheduling: whether a room may be (re)planned given the
//! state of its last plan, which queued request is planned next, and what a
//! planning tick leaves behind.
use vstd::prelude::*;

verus! {

/// Ticks a failed plan waits before the room may be planned again.
pub const REPLAN_DELAY_TICKS: u32 = 2000;

/// Outcome of a room's last planning run.
#[derive(Clone, Copy, Debug, PartialEq, Eq, Structural)]
pub enum PlanStatus {
    /// A viable plan exists.
    Valid,
    /// Planning found no viable plan at tick `time`.
    Failed { time: u32 },
}

impl PlanStatus {
    /// A viable plan exists.
    pub fn valid(&self) -> (r: bool)
        ensures
            r == (*self is Valid),
    {
        match self {
            PlanStatus::Valid => true,
            PlanStatus::Failed { .. } => false,
        }
    }
}

/// A room may be planned: never planned; or replanning a valid plan is
/// forced; or its last plan failed at least [`REPLAN_DELAY_TICKS`] ago and
/// replanning is allowed.
pub open spec fn spec_can_plan(status: Option<PlanStatus>, now: u32, force_plan: bool, allow_replan: bool) -> bool {
    match status {
        None => true,
        Some(PlanStatus::Valid) => force_plan,
        Some(PlanStatus::Failed { time }) => now >= time + REPLAN_DELAY_TICKS && allow_replan,
    }
}

/// Whether a room may be planned (see [`spec_can_plan`]).
pub fn can_plan(status: Option<PlanStatus>, now: u32, force_plan: bool, allow_replan: bool) -> (r: bool)
    requires
        status matches Some(PlanStatus::Failed { time }) ==> time + REPLAN_DELAY_TICKS <= u32::MAX,
    ensures
        r == spec_can_plan(status, now, force_plan, allow_replan),
{
    match status {
        None => true,
        Some(PlanStatus::Valid) => force_plan,
        Some(PlanStatus::Failed { time }) => now >= time + REPLAN_DELAY_TICKS && allow_replan,
    }
}

/// A queued planning request as the scheduler sees it.
#[derive(Clone, Copy, Debug, PartialEq, Eq, Structural)]
pub struct PlanRequest {
    /// Order key of the request's priority (larger is more urgent).
    pub priority_key: u32,
    /// The room's last plan, if any.
    pub status: Option<PlanStatus>,
    /// The room's data is loaded.
    pub has_room_data: bool,
}

/// The request may be started now.
pub open spec fn plan_request_ready(r: PlanRequest, now: u32, force_plan: bool, allow_replan: bool) -> bool {
    r.has_room_data && spec_can_plan(r.status, now, force_plan, allow_replan)
}

/// The failure times of the requests leave room for the replan delay.
pub open spec fn plan_times_fit(requests: Seq<PlanRequest>) -> bool {
    forall|i: int|
        0 <= i < requests.len() ==> ((#[trigger] requests[i]).status matches Some(PlanStatus::Failed { time })
            ==> time + REPLAN_DELAY_TICKS <= u32::MAX)
}

/// The request to plan next: among those ready, the highest priority, the
/// last queued on ties. `None` when none is ready.
pub fn select_plan_request(requests: &[PlanRequest], now: u32, force_plan: bool, allow_replan: bool) -> (pick: Option<usize>)
    requires
        plan_times_fit(requests@),
    ensures
        match pick {
            None => forall|j: int|
                0 <= j < requests@.len() ==> !plan_request_ready(#[trigger] requests@[j], now, force_plan, allow_replan),
            Some(i) => {
                &&& i < requests@.len()
                &&& plan_request_ready(requests@[i as int], now, force_plan, allow_replan)
                &&& forall|j: int|
                    0 <= j < requests@.len() && plan_request_ready(#[trigger] requests@[j], now, force_plan, allow_replan)
                        ==> requests@[j].priority_key <= requests@[i as int].priority_key
                &&& forall|j: int|
                    i < j < requests@.len() && plan_request_ready(#[trigger] requests@[j], now, force_plan, allow_replan)
                        ==> requests@[j].priority_key < requests@[i as int].priority_key
            },
        },
{
    let mut pick: Option<usize> = None;
    let mut k: usize = 0;
    while k < requests.len()
        invariant
            0 <= k <= requests@.len(),
            plan_times_fit(requests@),
            match pick {
                None => forall|j: int| 0 <= j < k ==> !plan_request_ready(#[trigger] requests@[j], now, force_plan, allow_replan),
                Some(i) => {
                    &&& i < k
                    &&& plan_request_ready(requests@[i as int], now, force_plan, allow_replan)
                    &&& forall|j: int|
                        0 <= j < k && plan_request_ready(#[trigger] requests@[j], now, force_plan, allow_replan)
                            ==> requests@[j].priority_key <= requests@[i as int].priority_key
                    &&& forall|j: int|
                        i < j < k && plan_request_ready(#[trigger] requests@[j], now, force_plan, allow_replan)
                            ==> requests@[j].priority_key < requests@[i as int].priority_key
                },
            },
        decreases requests@.len() - k,
    {
        let r = requests[k];
        assert(r == requests@[k as int]);
        if r.has_room_data && can_plan(r.status, now, force_plan, allow_replan) {
            match pick {
                None => {
                    pick = Some(k);
                },
                Some(i) => {
                    if r.priority_key >= requests[i].priority_key {
                        pick = Some(k);
                    }
                },
            }
        }
        k += 1;
    }
    pick
}

/// How a planning tick ended.
#[derive(Clone, Copy, Debug, PartialEq, Eq, Structural)]
pub enum PlanTickOutcome {
    /// Still planning.
    Running,
    /// Planning finished; `viable` when it found a plan.
    Complete { viable: bool },
    /// The planner failed.
    Failed,
    /// The tick could not run the planner.
    Error,
}

/// What a planning tick leaves: whether the running plan is done, and the
/// state to record for the room (a valid plan, a failure at `now`, or
/// nothing).
pub open spec fn spec_plan_tick_effect(outcome: PlanTickOutcome, now: u32) -> (bool, Option<PlanStatus>) {
    match outcome {
        PlanTickOutcome::Running => (false, None),
        PlanTickOutcome::Complete { viable } => (true, Some(if viable {
            PlanStatus::Valid
        } else {
            PlanStatus::Failed { time: now }
        })),
        PlanTickOutcome::Failed => (true, Some(PlanStatus::Failed { time: now })),
        PlanTickOutcome::Error => (true, None),
    }
}

/// What a planning tick leaves (see [`spec_plan_tick_effect`]).
pub fn plan_tick_effect(outcome: PlanTickOutcome, now: u32) -> (r: (bool, Option<PlanStatus>))
    ensures
        r == spec_plan_tick_effect(outcome, now),
{
    match outcome {
        PlanTickOutcome::Running => (false, None),
        PlanTickOutcome::Complete { viable } => (true, Some(if viable {
            PlanStatus::Valid
        } else {
            PlanStatus::Failed { time: now }
        })),
        PlanTickOutcome::Failed => (true, Some(PlanStatus::Failed { time: now })),
        PlanTickOutcome::Error => (true, None),
    }
}

/// A room whose plan just failed is not planned again before the replan
/// delay has passed, however the flags are set.
pub proof fn lemma_failed_plan_waits(now: u32, later: u32, force_plan: bool, allow_replan: bool)
    requires
        now + REPLAN_DELAY_TICKS <= u32::MAX,
        later < now + REPLAN_DELAY_TICKS,
    ensures
        !spec_can_plan(spec_plan_tick_effect(PlanTickOutcome::Failed, now).1, later, force_plan, allow_replan),
{
}

} // verus!
