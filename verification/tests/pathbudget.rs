use ibex::pathbudget::{pool_for_tier, reset, snapshot, take, PathBudget};
use ibex::tier::Tier;

#[test]
fn pathbudget_pool_scales_with_tier() {
    assert_eq!(pool_for_tier(Tier::Normal), 20_000);
    assert_eq!(pool_for_tier(Tier::Conserve), 10_000);
    assert_eq!(pool_for_tier(Tier::Critical), 5_000);
}

/// Grants clamp to what remains; exhaustion returns 0; the
/// telemetry tracks consumption.
#[test]
fn pathbudget_take_drains_and_clamps() {
    let mut budget = PathBudget::new();
    reset(&mut budget, Tier::Critical); // 5000
    assert_eq!(take(&mut budget, 2_000), 2_000);
    assert_eq!(take(&mut budget, 2_000), 2_000);
    // Only 1000 left — partial grant.
    assert_eq!(take(&mut budget, 2_000), 1_000);
    assert_eq!(take(&mut budget, 500), 0);
    let (pool, consumed) = snapshot(&budget);
    assert_eq!(pool, 5_000);
    assert_eq!(consumed, 5_000);
    reset(&mut budget, Tier::Normal);
    assert_eq!(snapshot(&budget), (20_000, 0));
}

#[test]
fn fresh_budget_is_a_full_normal_pool() {
    assert_eq!(snapshot(&PathBudget::new()), (20_000, 0));
}

#[test]
fn total_grants_are_the_smaller_of_wanted_and_pool() {
    let mut budget = PathBudget::new();
    reset(&mut budget, Tier::Conserve);
    let wants = [3_000u32, 0, 4_500, 2_000, 7, 900];
    let granted: u32 = wants.iter().map(|w| take(&mut budget, *w)).sum();
    assert_eq!(granted, 10_000u32.min(wants.iter().sum()));
    assert_eq!(snapshot(&budget), (10_000, 10_000));
}

#[test]
fn snapshot_reports_the_sum_of_many_grants_and_changes_nothing() {
    let mut b = PathBudget::new();
    reset(&mut b, Tier::Critical);
    let wants = [1_000u32, 0, 2_500, 900, 4_000, 7];
    let mut sum = 0u32;
    for w in wants {
        sum += take(&mut b, w);
    }
    assert_eq!(sum, 5_000);
    assert_eq!(snapshot(&b), (5_000, sum));
    assert_eq!(snapshot(&b), (5_000, sum));
    assert_eq!(take(&mut b, 1), 0);
}
