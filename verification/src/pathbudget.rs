//! Mission-side pathfinding ops pool: one pool, reset each tick at the
//! governor's tier (Normal = `BASE_MISSION_OPS`, Conserve half, Critical a
//! quarter). Consumers `take` what they want and clamp their search to the
//! grant; an empty pool grants 0.
use vstd::prelude::*;
use crate::tier::Tier;

verus! {

/// Per-tick mission-side ops at Normal tier.
pub const BASE_MISSION_OPS: u32 = 20_000;

/// Nominal charge for one `find_route` call.
pub const FIND_ROUTE_NOMINAL_OPS: u32 = 2_000;

/// Pool size of a tier.
pub open spec fn tier_pool(tier: Tier) -> u32 {
    match tier {
        Tier::Normal => BASE_MISSION_OPS,
        Tier::Conserve => (BASE_MISSION_OPS / 2) as u32,
        Tier::Critical => (BASE_MISSION_OPS / 4) as u32,
    }
}

/// What one `take` grants: the request, clamped to what remains.
pub open spec fn grant_for(want: nat, remaining: nat) -> nat {
    if want <= remaining { want } else { remaining }
}

/// Total granted by a run of `take` calls with the given requests,
/// starting from `remaining` ops.
pub open spec fn total_granted(wants: Seq<u32>, remaining: nat) -> nat
    decreases wants.len(),
{
    if wants.len() == 0 {
        0
    } else {
        let g = grant_for(wants[0] as nat, remaining);
        g + total_granted(wants.drop_first(), (remaining - g) as nat)
    }
}

/// Sum of a run of requests.
pub open spec fn total_wanted(wants: Seq<u32>) -> nat
    decreases wants.len(),
{
    if wants.len() == 0 {
        0
    } else {
        wants[0] as nat + total_wanted(wants.drop_first())
    }
}

/// Pool size for a tier.
pub fn pool_for_tier(tier: Tier) -> (pool: u32)
    ensures
        pool == tier_pool(tier),
{
    match tier {
        Tier::Normal => BASE_MISSION_OPS,
        Tier::Conserve => BASE_MISSION_OPS / 2,
        Tier::Critical => BASE_MISSION_OPS / 4,
    }
}

/// The tick's ops pool: its size and what remains of it.
pub struct PathBudget {
    pool: u32,
    remaining: u32,
}

impl PathBudget {
    #[verifier::type_invariant]
    spec fn inv(self) -> bool {
        self.remaining <= self.pool
    }

    /// Size of the pool this tick.
    pub closed spec fn pool(self) -> nat {
        self.pool as nat
    }

    /// Ops not yet granted this tick.
    pub closed spec fn remaining(self) -> nat {
        self.remaining as nat
    }

    /// A full Normal-tier pool (the state before the first tick reset).
    pub fn new() -> (b: PathBudget)
        ensures
            b.pool() == BASE_MISSION_OPS,
            b.remaining() == BASE_MISSION_OPS,
    {
        PathBudget { pool: BASE_MISSION_OPS, remaining: BASE_MISSION_OPS }
    }
}

/// Tick-start reset: the pool becomes the tier's size, all of it available.
pub fn reset(budget: &mut PathBudget, tier: Tier)
    ensures
        final(budget).pool() == tier_pool(tier),
        final(budget).remaining() == tier_pool(tier),
{
    let pool = pool_for_tier(tier);
    *budget = PathBudget { pool, remaining: pool };
}

/// One `take` of `want` from `before` granted `grant` and left `after`.
pub open spec fn take_step(before: PathBudget, want: u32, grant: u32, after: PathBudget) -> bool {
    &&& grant == grant_for(want as nat, before.remaining())
    &&& after.pool() == before.pool()
    &&& after.remaining() == before.remaining() - grant
}

/// Sum of a run of grants.
pub open spec fn grants_sum(grants: Seq<u32>) -> nat
    decreases grants.len(),
{
    if grants.len() == 0 {
        0
    } else {
        grants_sum(grants.drop_last()) + grants.last() as nat
    }
}

/// Take up to `want` ops from the pool; returns the grant (0 when the pool
/// is exhausted).
pub fn take(budget: &mut PathBudget, want: u32) -> (grant: u32)
    ensures
        grant == grant_for(want as nat, old(budget).remaining()),
        final(budget).pool() == old(budget).pool(),
        final(budget).remaining() == old(budget).remaining() - grant,
        take_step(*old(budget), want, grant, *final(budget)),
{
    proof { use_type_invariant(&*budget); }
    let current = budget.remaining;
    let grant = if want < current { want } else { current };
    if grant == 0 {
        return 0;
    }
    *budget = PathBudget { pool: budget.pool, remaining: current - grant };
    grant
}

/// Telemetry: (pool, consumed) this tick.
pub fn snapshot(budget: &PathBudget) -> (r: (u32, u32))
    ensures
        r.0 == budget.pool(),
        r.1 == budget.pool() - budget.remaining(),
        budget.remaining() <= budget.pool(),
{
    proof { use_type_invariant(budget); }
    (budget.pool, budget.pool - budget.remaining)
}

/// The pool is the aggregate bound of a tick: a run of takes from a pool
/// with `remaining` ops left grants in total exactly the smaller of what was
/// asked for and what remained.
pub proof fn lemma_takes_grant_min_of_wanted_and_remaining(wants: Seq<u32>, remaining: nat)
    ensures
        total_granted(wants, remaining) == (if total_wanted(wants) <= remaining {
            total_wanted(wants)
        } else {
            remaining
        }),
    decreases wants.len(),
{
    if wants.len() > 0 {
        let g = grant_for(wants[0] as nat, remaining);
        lemma_takes_grant_min_of_wanted_and_remaining(wants.drop_first(), (remaining - g) as nat);
    }
}

/// Telemetry after a tick's reset and any run of takes: `snapshot` reports
/// the tier's pool and, as consumed, exactly the sum of the grants, which
/// never exceeds the pool. (`snapshot` reads the budget and changes
/// nothing.)
pub proof fn lemma_snapshot_counts_the_grants(
    tier: Tier,
    states: Seq<PathBudget>,
    wants: Seq<u32>,
    grants: Seq<u32>,
)
    requires
        states.len() == wants.len() + 1,
        grants.len() == wants.len(),
        states[0].pool() == tier_pool(tier),
        states[0].remaining() == tier_pool(tier),
        forall|k: int| 0 <= k < wants.len() ==> #[trigger] take_step(states[k], wants[k], grants[k], states[k + 1]),
    ensures
        states.last().pool() == tier_pool(tier),
        states.last().pool() - states.last().remaining() == grants_sum(grants),
        grants_sum(grants) <= tier_pool(tier),
    decreases wants.len(),
{
    if wants.len() > 0 {
        let n = wants.len() as int;
        lemma_snapshot_counts_the_grants(tier, states.drop_last(), wants.drop_last(), grants.drop_last());
        assert(take_step(states[n - 1], wants[n - 1], grants[n - 1], states[n]));
        assert(states.drop_last().last() == states[n - 1]);
    }
}

} // verus!
