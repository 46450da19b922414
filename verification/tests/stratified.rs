use scientific::error::IntegrationError;
use scientific::fraction::UnitFraction;
use scientific::rand::Rng;
use scientific::stratified::{
    allocate, observe_points, plan_stratum, SideCounts, StratifyOptions, StratumPlan,
};

/// Options that spend one part in `parts` of a budget on estimation.
fn options(parts: u32, min_calls: u32, min_calls_per_bisection: u32) -> StratifyOptions {
    StratifyOptions {
        estimate_numerator: 1,
        estimate_denominator: parts,
        min_calls,
        min_calls_per_bisection,
    }
}

fn fraction(numerator: u32, denominator: u32) -> StratifyOptions {
    StratifyOptions {
        estimate_numerator: numerator,
        estimate_denominator: denominator,
        min_calls: 2,
        min_calls_per_bisection: 10,
    }
}

#[test]
fn default_options_scale_with_the_dimension() {
    assert_eq!(StratifyOptions::defaults(2), Ok(options(10, 16, 256)));
    assert_eq!(StratifyOptions::defaults(1), Ok(options(10, 8, 128)));
    assert_eq!(StratifyOptions::defaults(0), Ok(options(10, 0, 0)));
    assert_eq!(StratifyOptions::defaults(3), Ok(options(10, 24, 384)));
}

#[test]
fn default_options_for_the_largest_dimension() {
    assert_eq!(
        StratifyOptions::defaults(33554431),
        Ok(options(10, 268435448, 4294967168))
    );
    assert_eq!(StratifyOptions::defaults(33554432), Err(IntegrationError::TooManyDimensions));
}

#[test]
fn empty_budget_is_carried() {
    assert_eq!(plan_stratum(0, &options(10, 16, 256)), Ok(StratumPlan::Carry));
    assert_eq!(plan_stratum(0, &options(0, 0, 0)), Ok(StratumPlan::Carry));
}

#[test]
fn small_budget_is_sampled_plainly() {
    let defaults = options(10, 16, 256);
    assert_eq!(plan_stratum(1, &defaults), Ok(StratumPlan::Plain { draws: 1 }));
    assert_eq!(plan_stratum(255, &defaults), Ok(StratumPlan::Plain { draws: 255 }));
    assert_eq!(plan_stratum(256, &defaults), Ok(StratumPlan::Plain { draws: 256 }));
}

#[test]
fn large_budget_is_bisected() {
    let defaults = options(10, 16, 256);
    assert_eq!(
        plan_stratum(257, &defaults),
        Ok(StratumPlan::Bisect { estimation: 25, remaining: 232 })
    );
    assert_eq!(
        plan_stratum(1000, &defaults),
        Ok(StratumPlan::Bisect { estimation: 100, remaining: 900 })
    );
    assert_eq!(
        plan_stratum(10000, &defaults),
        Ok(StratumPlan::Bisect { estimation: 1000, remaining: 9000 })
    );
    assert_eq!(
        plan_stratum(u32::MAX, &defaults),
        Ok(StratumPlan::Bisect { estimation: 429496729, remaining: 3865470566 })
    );
}

#[test]
fn estimation_takes_at_least_min_calls() {
    assert_eq!(
        plan_stratum(50, &options(10, 16, 32)),
        Ok(StratumPlan::Bisect { estimation: 16, remaining: 34 })
    );
    assert_eq!(
        plan_stratum(40, &options(10, 40, 32)),
        Ok(StratumPlan::Bisect { estimation: 40, remaining: 0 })
    );
    assert_eq!(
        plan_stratum(9, &options(3, 2, 1)),
        Ok(StratumPlan::Bisect { estimation: 3, remaining: 6 })
    );
}

#[test]
fn estimation_takes_its_fraction_of_the_budget() {
    assert_eq!(
        plan_stratum(1000, &fraction(3, 10)),
        Ok(StratumPlan::Bisect { estimation: 300, remaining: 700 })
    );
    assert_eq!(
        plan_stratum(1001, &fraction(3, 10)),
        Ok(StratumPlan::Bisect { estimation: 300, remaining: 701 })
    );
    assert_eq!(
        plan_stratum(1000, &fraction(2, 3)),
        Ok(StratumPlan::Bisect { estimation: 666, remaining: 334 })
    );
    assert_eq!(
        plan_stratum(1000, &fraction(7, 7)),
        Ok(StratumPlan::Bisect { estimation: 1000, remaining: 0 })
    );
    assert_eq!(
        plan_stratum(1000, &fraction(0, 5)),
        Ok(StratumPlan::Bisect { estimation: 2, remaining: 998 })
    );
    assert_eq!(
        plan_stratum(u32::MAX, &fraction(u32::MAX - 1, u32::MAX)),
        Ok(StratumPlan::Bisect { estimation: u32::MAX - 1, remaining: 1 })
    );
}

#[test]
fn unusable_options_are_refused() {
    assert_eq!(plan_stratum(1000, &fraction(11, 10)), Err(IntegrationError::InvalidOptions));
    assert_eq!(plan_stratum(1000, &fraction(1, 0)), Err(IntegrationError::InvalidOptions));
    assert_eq!(plan_stratum(10, &fraction(11, 10)), Ok(StratumPlan::Plain { draws: 10 }));
    assert_eq!(plan_stratum(5, &options(0, 1, 1)), Err(IntegrationError::InvalidOptions));
    assert_eq!(plan_stratum(1, &options(0, 1, 1)), Ok(StratumPlan::Plain { draws: 1 }));
}

#[test]
fn estimation_that_cannot_see_both_sides_is_refused() {
    assert_eq!(plan_stratum(5, &options(10, 0, 0)), Err(IntegrationError::InsufficientSamples));
    assert_eq!(plan_stratum(19, &options(10, 1, 0)), Err(IntegrationError::InsufficientSamples));
    assert_eq!(
        plan_stratum(20, &options(10, 1, 0)),
        Ok(StratumPlan::Bisect { estimation: 2, remaining: 18 })
    );
    assert_eq!(
        plan_stratum(50, &options(10, 100, 10)),
        Err(IntegrationError::InsufficientSamples)
    );
}

#[test]
fn allocation_hands_out_what_remains() {
    assert_eq!(allocate(900, 450), (450, 450));
    assert_eq!(allocate(900, 0), (0, 900));
    assert_eq!(allocate(900, 900), (900, 0));
    assert_eq!(allocate(900, 901), (900, 0));
    assert_eq!(allocate(900, u32::MAX), (900, 0));
    assert_eq!(allocate(0, 7), (0, 0));
}

#[test]
fn whole_budget_is_spent_whatever_the_shares() {
    // Follows the plan down the tree with a fixed rule for the lower share.
    fn spend(budget: u32, options: &StratifyOptions, turn: u32) -> u64 {
        match plan_stratum(budget, options).unwrap() {
            StratumPlan::Carry => 0,
            StratumPlan::Plain { draws } => draws as u64,
            StratumPlan::Bisect { estimation, remaining } => {
                let request = match turn % 3 {
                    0 => remaining / 3,
                    1 => remaining,
                    _ => 0,
                };
                let (left, right) = allocate(remaining, request);
                assert!(left < budget && right < budget);
                estimation as u64 + spend(left, options, turn + 1) + spend(right, options, turn + 2)
            }
        }
    }
    let defaults = StratifyOptions::defaults(2).unwrap();
    for budget in [1u32, 256, 257, 1000, 10000, 123457] {
        assert_eq!(spend(budget, &defaults, 0), budget as u64);
    }
}

fn point(numerators: &[u64]) -> Vec<UnitFraction> {
    numerators.iter().map(|n| UnitFraction { numerator: *n, denominator: 8 }).collect()
}

#[test]
fn sides_are_counted_per_axis() {
    let mut counts = SideCounts::new(2);
    assert_eq!(counts.record(&point(&[1, 7])), vec![false, true]);
    assert_eq!(counts.record(&point(&[5, 6])), vec![true, true]);
    assert_eq!(counts.record(&point(&[4, 0])), vec![false, false]);
    assert_eq!(counts.below_count(0), 2);
    assert_eq!(counts.above_count(0), 1);
    assert_eq!(counts.below_count(1), 1);
    assert_eq!(counts.above_count(1), 2);
    assert_eq!(counts.check(), Ok(()));
}

#[test]
fn empty_side_is_insufficient() {
    let mut counts = SideCounts::new(2);
    assert_eq!(counts.check(), Err(IntegrationError::InsufficientSamples));
    counts.record(&point(&[1, 7]));
    counts.record(&point(&[5, 6]));
    assert_eq!(counts.below_count(1), 0);
    assert_eq!(counts.check(), Err(IntegrationError::InsufficientSamples));
    counts.record(&point(&[5, 1]));
    assert_eq!(counts.check(), Ok(()));
}

#[test]
fn counts_without_axes_allow_no_bisection() {
    let mut counts = SideCounts::new(0);
    assert_eq!(counts.record(&Vec::new()), Vec::<bool>::new());
    assert_eq!(counts.check(), Err(IntegrationError::InsufficientSamples));
}

#[test]
fn estimation_phase_counts_what_it_shows() {
    let mut rng = Rng::new(42);
    let mut reference = Rng::new(42);
    let visit = |mut seen: Vec<(Vec<UnitFraction>, Vec<bool>)>,
                 point: Vec<UnitFraction>,
                 sides: Vec<bool>| {
        seen.push((point, sides));
        seen
    };
    let (seen, counts) = observe_points(&mut rng, 3, 50, Vec::new(), visit);
    assert_eq!(seen.len(), 50);
    for axis in 0..3 {
        let above = seen.iter().filter(|(_, sides)| sides[axis]).count() as u64;
        assert_eq!(counts.above_count(axis), above);
        assert_eq!(counts.below_count(axis), 50 - above);
    }
    for (point, sides) in &seen {
        for axis in 0..3 {
            assert_eq!(point[axis], reference.fraction());
            assert_eq!(sides[axis], point[axis].above_half());
        }
    }
    assert_eq!(rng.u64(), reference.u64());
    assert_eq!(counts.check(), Ok(()));
}

#[test]
fn estimation_phase_without_draws_sees_nothing() {
    let mut rng = Rng::new(42);
    let visit = |n: u32, _point: Vec<UnitFraction>, _sides: Vec<bool>| n + 1;
    let (n, counts) = observe_points(&mut rng, 2, 0, 0u32, visit);
    assert_eq!(n, 0);
    assert_eq!(counts.check(), Err(IntegrationError::InsufficientSamples));
}
