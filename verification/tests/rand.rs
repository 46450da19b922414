use scientific::fraction::UnitFraction;
use scientific::rand::Rng;

#[test]
fn words_from_seed_zero() {
    let mut rng = Rng::new(0);
    assert_eq!(rng.u64(), 0x111c_b3a7_8f59_a58e);
    assert_eq!(rng.u64(), 0xceab_d938_ff4e_856d);
    assert_eq!(rng.u64(), 0x61fb_5131_8f47_d2a4);
}

#[test]
fn words_from_seed_1234() {
    let mut rng = Rng::new(1234);
    assert_eq!(rng.u64(), 0x7ea5_6c8c_854c_647f);
    assert_eq!(rng.u64(), 0xf44e_63cc_f368_a953);
    assert_eq!(rng.u64(), 0xb001_d159_9654_b742);
}

#[test]
fn words_from_largest_seed_wrap_around() {
    let mut rng = Rng::new(u64::MAX);
    assert_eq!(rng.u64(), 0xba1d_c814_e82d_5d44);
    assert_eq!(rng.u64(), 0x57ac_cfe8_5fe2_9d15);
}

#[test]
fn step_adds_the_increment() {
    let mut rng = Rng::new(0);
    assert_eq!(rng.step(), 0xA076_1D64_78BD_642F);
    assert_eq!(rng.step(), 0x40EC_3AC8_F17A_C85E);
    let mut rng = Rng::new(u64::MAX);
    assert_eq!(rng.step(), 0xA076_1D64_78BD_642E);
}

#[test]
fn fractions_are_the_top_bits_of_the_words() {
    let mut rng = Rng::new(1234);
    assert_eq!(rng.fraction(), UnitFraction { numerator: 2227983293633734, denominator: 1 << 52 });
    assert_eq!(rng.fraction(), UnitFraction { numerator: 4297880304039562, denominator: 1 << 52 });
    assert_eq!(rng.fraction(), UnitFraction { numerator: 3096349660243275, denominator: 1 << 52 });
}

#[test]
fn fraction_equals_shifted_word() {
    let mut words = Rng::new(2347);
    let mut fractions = Rng::new(2347);
    for _ in 0..100 {
        let word = words.u64();
        let draw = fractions.fraction();
        assert_eq!(draw.numerator, word >> 12);
        assert_eq!(draw.denominator, 0x10_0000_0000_0000);
        assert!(draw.numerator < draw.denominator);
    }
}

#[test]
fn fraction_as_float_lies_in_unit_interval() {
    let mut rng = Rng::new(1234);
    let expected = [0.4947116702144725, 0.954321134125538, 0.6875277370184729, 0.02217798327275];
    for value in expected {
        let draw = rng.fraction();
        let x = draw.numerator as f64 / draw.denominator as f64;
        assert!(0.0 <= x && x < 1.0);
        assert_eq!(x, value);
    }
}

#[test]
fn set_state_restarts_the_sequence() {
    let mut rng = Rng::new(99);
    let first = rng.u64();
    let second = rng.u64();
    assert_ne!(first, second);
    rng.set_state(99);
    assert_eq!(rng.u64(), first);
    assert_eq!(rng.u64(), second);
}

#[test]
fn same_seed_same_sequence() {
    let mut a = Rng::new(2347);
    let mut b = Rng::new(2347);
    for _ in 0..1000 {
        assert_eq!(a.u64(), b.u64());
    }
}

#[test]
fn above_half_is_strict() {
    assert!(!UnitFraction::new(1, 2).above_half());
    assert!(UnitFraction::new(2, 3).above_half());
    assert!(!UnitFraction::new(1, 3).above_half());
    assert!(!UnitFraction::new(0, 1).above_half());
    assert!(UnitFraction::new((1 << 51) + 1, 1 << 52).above_half());
    assert!(!UnitFraction::new(1 << 51, 1 << 52).above_half());
}
