use scientific::error::IntegrationError;
use scientific::fraction::UnitFraction;
use scientific::halton::{
    base, corput_number, halton_number, halton_point, plan_sequences, sequence_pair, SequencePlan,
    BASE_COUNT,
};

fn fraction(numerator: u64, denominator: u64) -> UnitFraction {
    UnitFraction { numerator, denominator }
}

#[test]
fn radical_inverse_in_base_two() {
    assert_eq!(corput_number(0, 2), fraction(0, 1));
    assert_eq!(corput_number(1, 2), fraction(1, 2));
    assert_eq!(corput_number(2, 2), fraction(1, 4));
    assert_eq!(corput_number(3, 2), fraction(3, 4));
    assert_eq!(corput_number(4, 2), fraction(1, 8));
    assert_eq!(corput_number(6, 2), fraction(3, 8));
}

#[test]
fn radical_inverse_in_other_bases() {
    assert_eq!(corput_number(5, 3), fraction(7, 9));
    assert_eq!(corput_number(1234, 7), fraction(766, 2401));
    assert_eq!(corput_number(9, 10), fraction(9, 10));
    assert_eq!(corput_number(10, 10), fraction(1, 100));
    assert_eq!(corput_number(120, 10), fraction(21, 1000));
}

#[test]
fn radical_inverse_of_the_largest_index_fits() {
    assert_eq!(corput_number(u32::MAX, 2), fraction(4294967295, 4294967296));
    assert_eq!(corput_number(u32::MAX, 3), fraction(2132907247, 10460353203));
    assert_eq!(corput_number(u32::MAX, 67), fraction(44498227821, 90458382169));
    assert_eq!(corput_number(u32::MAX, u32::MAX), fraction(1, 18446744065119617025));
}

#[test]
fn radical_inverse_ignores_trailing_zero_digit() {
    for n in 1..200u32 {
        let once = corput_number(n, 3);
        let shifted = corput_number(3 * n, 3);
        assert_eq!(shifted.numerator, once.numerator);
        assert_eq!(shifted.denominator, 3 * once.denominator);
    }
}

#[test]
fn radical_inverse_matches_digit_sum() {
    for base in [2u32, 3, 5, 7, 67] {
        for n in 0..500u32 {
            let r = corput_number(n, base);
            assert!(r.numerator < r.denominator);
            let mut sum = 0.0;
            let mut denom = 1u64;
            let mut rest = n;
            while rest > 0 {
                denom *= base as u64;
                sum += (rest % base) as f64 / denom as f64;
                rest /= base;
            }
            let exact = r.numerator as f64 / r.denominator as f64;
            assert!((exact - sum).abs() < 1e-12);
        }
    }
}

#[test]
fn bases_are_the_first_primes() {
    let expected = [2, 3, 5, 7, 11, 13, 17, 19, 23, 29, 31, 37, 41, 43, 47, 53, 59, 61, 67];
    assert_eq!(BASE_COUNT, expected.len());
    for (axis, prime) in expected.iter().enumerate() {
        assert_eq!(base(axis), *prime);
    }
}

#[test]
fn halton_point_uses_one_base_per_axis() {
    assert_eq!(halton_number(7, 3), Ok(vec![fraction(7, 8), fraction(5, 9), fraction(11, 25)]));
    assert_eq!(halton_point(7, 3), vec![fraction(7, 8), fraction(5, 9), fraction(11, 25)]);
    assert_eq!(halton_number(0, 2), Ok(vec![fraction(0, 1), fraction(0, 1)]));
    assert_eq!(halton_number(5, 0), Ok(vec![]));
}

#[test]
fn halton_point_in_eighteen_axes_is_the_widest() {
    let point = halton_number(1, 18).unwrap();
    assert_eq!(point.len(), 18);
    assert_eq!(point[17], fraction(1, 61));
}

#[test]
fn halton_refuses_too_many_dimensions() {
    assert_eq!(halton_number(1, 19), Err(IntegrationError::TooManyDimensions));
    assert_eq!(halton_number(1, 20), Err(IntegrationError::TooManyDimensions));
    assert_eq!(halton_number(1, usize::MAX), Err(IntegrationError::TooManyDimensions));
}

#[test]
fn sequence_plan_splits_the_budget_in_two_runs() {
    assert_eq!(
        plan_sequences(1000, 0, 2),
        Ok(SequencePlan { dimension: 2, half: 500, first: 0, second: 500 })
    );
    assert_eq!(
        plan_sequences(10000, 1111, 2),
        Ok(SequencePlan { dimension: 2, half: 5000, first: 1111, second: 6111 })
    );
    assert_eq!(
        plan_sequences(7, 3, 1),
        Ok(SequencePlan { dimension: 1, half: 3, first: 3, second: 6 })
    );
    assert_eq!(
        plan_sequences(1, 9, 1),
        Ok(SequencePlan { dimension: 1, half: 0, first: 9, second: 9 })
    );
}

#[test]
fn sequence_plan_refusals() {
    assert_eq!(plan_sequences(0, 0, 2), Err(IntegrationError::NoSamples));
    assert_eq!(plan_sequences(0, 0, 40), Err(IntegrationError::NoSamples));
    assert_eq!(plan_sequences(10, 0, 19), Err(IntegrationError::TooManyDimensions));
    assert_eq!(plan_sequences(10, u32::MAX, 2), Err(IntegrationError::IndexOutOfRange));
    assert_eq!(plan_sequences(4, u32::MAX - 2, 2), Err(IntegrationError::IndexOutOfRange));
}

#[test]
fn sequence_plan_reaches_the_last_index() {
    assert_eq!(
        plan_sequences(4, u32::MAX - 3, 2),
        Ok(SequencePlan { dimension: 2, half: 2, first: u32::MAX - 3, second: u32::MAX - 1 })
    );
    let plan = plan_sequences(4, u32::MAX - 3, 2).unwrap();
    let (one, two) = sequence_pair(&plan, 1);
    assert_eq!(one, halton_point(u32::MAX - 2, 2));
    assert_eq!(two, halton_point(u32::MAX, 2));
    assert_eq!(
        plan_sequences(1, u32::MAX, 2),
        Ok(SequencePlan { dimension: 2, half: 0, first: u32::MAX, second: u32::MAX })
    );
}

#[test]
fn sequence_pairs_are_halton_points_of_both_runs() {
    let plan = plan_sequences(10, 100, 3).unwrap();
    for i in 0..plan.half {
        let (one, two) = sequence_pair(&plan, i);
        assert_eq!(one, halton_point(100 + i, 3));
        assert_eq!(two, halton_point(105 + i, 3));
    }
}
