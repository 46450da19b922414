use scientific::error::IntegrationError;
use scientific::fraction::UnitFraction;
use scientific::halton::fold_sequence_pairs;
use scientific::rand::Rng;
use scientific::sampling::fold_uniform_points;

fn coordinate(u: &UnitFraction) -> f64 {
    u.numerator as f64 / u.denominator as f64
}

fn disc(point: &[UnitFraction]) -> f64 {
    let r2: f64 = point.iter().map(|u| coordinate(u) * coordinate(u)).sum();
    if r2 <= 1.0 {
        1.0
    } else {
        0.0
    }
}

fn plain(samples: u32, seed: u64) -> (f64, f64) {
    let mut rng = Rng::new(seed);
    let visit = |(sum, sum2): (f64, f64), point: Vec<UnitFraction>| {
        let fx = disc(&point);
        (sum + fx, sum2 + fx * fx)
    };
    let (sum, sum2) = fold_uniform_points(&mut rng, 2, samples, (0.0, 0.0), visit).unwrap();
    let n = samples as f64;
    let mean = sum / n;
    let variance = sum2 / n - mean * mean;
    (mean, f64::sqrt(variance / n))
}

fn halton(samples: u32, seed: u32) -> (f64, f64) {
    let visit = |(one, two): (f64, f64), first: Vec<UnitFraction>, second: Vec<UnitFraction>| {
        (one + disc(&first), two + disc(&second))
    };
    let ((one, two), half) = fold_sequence_pairs(samples, seed, 2, (0.0, 0.0), visit).unwrap();
    let first = one / half as f64;
    let second = two / half as f64;
    (first, (first - second).abs())
}

#[test]
fn plain_estimate_of_the_disc_is_within_one_sigma() {
    let (value, error) = plain(1000, 1234);
    assert!((value - std::f64::consts::PI / 4.0).abs() < error);
}

#[test]
fn plain_estimate_covers_the_truth_for_most_seeds() {
    let mut covered = 0;
    for seed in 0..100u64 {
        let (value, error) = plain(1000, seed);
        if (value - std::f64::consts::PI / 4.0).abs() < error {
            covered += 1;
        }
    }
    assert!(covered > 50);
}

#[test]
fn plain_sampling_draws_once_per_axis_and_sample() {
    let mut rng = Rng::new(7);
    let mut reference = Rng::new(7);
    let count =
        fold_uniform_points(&mut rng, 3, 10, 0u32, |n: u32, _p: Vec<UnitFraction>| n + 1).unwrap();
    assert_eq!(count, 10);
    for _ in 0..30 {
        reference.u64();
    }
    assert_eq!(rng.u64(), reference.u64());
}

#[test]
fn plain_sampling_refuses_zero_samples() {
    let mut rng = Rng::new(7);
    let mut reference = Rng::new(7);
    let result = fold_uniform_points(&mut rng, 3, 0, 0u32, |n: u32, _p: Vec<UnitFraction>| n + 1);
    assert_eq!(result, Err(IntegrationError::NoSamples));
    assert_eq!(rng.u64(), reference.u64());
}

#[test]
fn low_discrepancy_estimate_of_the_disc() {
    let (value, _) = halton(10000, 0);
    assert!((value - std::f64::consts::PI / 4.0).abs() < 0.01);
}

#[test]
fn low_discrepancy_error_shrinks_faster_than_plain() {
    // A smooth integrand: x * y over the unit square, exactly one quarter.
    let smooth = |p: &[UnitFraction]| coordinate(&p[0]) * coordinate(&p[1]);
    let deviation = |samples: u32| {
        let visit = |sum: f64, first: Vec<UnitFraction>, _second: Vec<UnitFraction>| {
            sum + smooth(&first)
        };
        let (sum, half) = fold_sequence_pairs(samples, 1, 2, 0.0, visit).unwrap();
        (sum / half as f64 - 0.25).abs()
    };
    let small = deviation(2000);
    let large = deviation(32000);
    // Sixteen times the points: plain sampling would gain a factor of four.
    assert!(large * 4.0 < small);
}

#[test]
fn low_discrepancy_refusals() {
    let visit = |n: u32, _a: Vec<UnitFraction>, _b: Vec<UnitFraction>| n + 1;
    assert_eq!(fold_sequence_pairs(0, 0, 2, 0u32, visit), Err(IntegrationError::NoSamples));
    assert_eq!(
        fold_sequence_pairs(10, 0, 19, 0u32, visit),
        Err(IntegrationError::TooManyDimensions)
    );
    assert_eq!(
        fold_sequence_pairs(10, u32::MAX, 2, 0u32, visit),
        Err(IntegrationError::IndexOutOfRange)
    );
    assert_eq!(fold_sequence_pairs(11, 5, 2, 0u32, visit), Ok((5, 5)));
    assert_eq!(fold_sequence_pairs(1, 5, 2, 0u32, visit), Ok((0, 0)));
}
