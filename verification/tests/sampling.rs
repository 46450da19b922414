use scientific::error::IntegrationError;
use scientific::rand::Rng;
use scientific::sampling::{check_samples, unit_point};

#[test]
fn zero_samples_are_refused() {
    assert_eq!(check_samples(0), Err(IntegrationError::NoSamples));
    assert_eq!(check_samples(1), Ok(1));
    assert_eq!(check_samples(u32::MAX), Ok(u32::MAX));
}

#[test]
fn point_takes_one_draw_per_axis() {
    let mut rng = Rng::new(1234);
    let mut reference = Rng::new(1234);
    let point = unit_point(&mut rng, 3);
    assert_eq!(point.len(), 3);
    for coordinate in &point {
        assert_eq!(*coordinate, reference.fraction());
    }
    assert_eq!(rng.u64(), reference.u64());
}

#[test]
fn point_of_known_seed() {
    let mut rng = Rng::new(1234);
    let point = unit_point(&mut rng, 2);
    assert_eq!(point[0].numerator, 2227983293633734);
    assert_eq!(point[1].numerator, 4297880304039562);
    assert_eq!(point[0].denominator, 1 << 52);
}

#[test]
fn point_without_axes_leaves_the_generator_alone() {
    let mut rng = Rng::new(5);
    let mut reference = Rng::new(5);
    assert!(unit_point(&mut rng, 0).is_empty());
    assert_eq!(rng.u64(), reference.u64());
}

#[test]
fn disc_indicator_average_is_close_to_a_quarter_of_pi() {
    // One thousand points of the unit square, counted when inside the disc.
    let mut rng = Rng::new(1234);
    let samples = 1000u32;
    let mut inside = 0u32;
    for _ in 0..samples {
        let point = unit_point(&mut rng, 2);
        let x = point[0].numerator as f64 / point[0].denominator as f64;
        let y = point[1].numerator as f64 / point[1].denominator as f64;
        if x * x + y * y <= 1.0 {
            inside += 1;
        }
    }
    let mean = inside as f64 / samples as f64;
    let sigma = ((mean - mean * mean) / samples as f64).sqrt();
    assert!((mean - std::f64::consts::PI / 4.0).abs() < sigma);
}
