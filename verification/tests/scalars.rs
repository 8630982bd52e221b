use raytracer::util::{
    degrees_to_radians, div_floor, fraction_of, int_sqrt, lerp, linear_to_gamma, push_decimal,
    quotient, radians_to_degrees, random_float_range, random_fraction, saturate, saturate64,
    wide_mul, Interval, INFINITY, LIMIT, PI, SCALE,
};

#[test]
fn integer_square_roots_round_down() {
    assert_eq!(int_sqrt(0), 0);
    assert_eq!(int_sqrt(1), 1);
    assert_eq!(int_sqrt(2), 1);
    assert_eq!(int_sqrt(3), 1);
    assert_eq!(int_sqrt(4), 2);
    assert_eq!(int_sqrt(24), 4);
    assert_eq!(int_sqrt(25), 5);
    assert_eq!(int_sqrt(1_000_000_000_000), 1_000_000);
    assert_eq!(int_sqrt(999_999_999_999), 999_999);
    assert_eq!(int_sqrt(u128::MAX), u64::MAX);
}

#[test]
fn floor_division_rounds_towards_minus_infinity() {
    assert_eq!(div_floor(7, 2), 3);
    assert_eq!(div_floor(-7, 2), -4);
    assert_eq!(div_floor(-8, 2), -4);
    assert_eq!(div_floor(-1, 1_000_000), -1);
    assert_eq!(div_floor(0, 5), 0);
    assert_eq!(div_floor(i128::MIN, 1), i128::MIN);
}

#[test]
fn quotient_takes_divisors_of_either_sign() {
    assert_eq!(quotient(7, 2), 3);
    assert_eq!(quotient(7, -2), -4);
    assert_eq!(quotient(-7, -2), 3);
    assert_eq!(quotient(-7, 2), -4);
    assert_eq!(quotient(5, 0), i128::MAX);
    assert_eq!(quotient(-5, 0), i128::MIN);
    assert_eq!(quotient(0, 0), 0);
}

#[test]
fn saturation_holds_values_at_the_boundary() {
    assert_eq!(saturate(5), 5);
    assert_eq!(saturate(LIMIT as i128 + 1), LIMIT);
    assert_eq!(saturate(-(LIMIT as i128) - 1), -LIMIT);
    assert_eq!(saturate64(i64::MAX as i128 + 1), i64::MAX);
    assert_eq!(saturate64(i64::MIN as i128 - 1), i64::MIN);
    assert_eq!(saturate64(-3), -3);
}

#[test]
fn wide_products_are_exact() {
    assert_eq!(wide_mul(i64::MAX, i64::MAX), (i64::MAX as i128) * (i64::MAX as i128));
    assert_eq!(wide_mul(i64::MIN, i64::MIN), (i64::MIN as i128) * (i64::MIN as i128));
    assert_eq!(wide_mul(-3, 4), -12);
}

#[test]
fn degrees_and_radians() {
    assert_eq!(PI, 3_141_593);
    assert_eq!(degrees_to_radians(180 * SCALE), PI);
    assert_eq!(degrees_to_radians(90 * SCALE), 1_570_796);
    assert_eq!(degrees_to_radians(0), 0);
    assert_eq!(degrees_to_radians(-180 * SCALE), -PI);
    assert_eq!(radians_to_degrees(PI), 180 * SCALE);
    assert_eq!(radians_to_degrees(SCALE), 57_295_773);
    assert_eq!(radians_to_degrees(i64::MAX), i64::MAX);
    assert_eq!(radians_to_degrees(i64::MIN), i64::MIN);
}

#[test]
fn gamma_is_the_square_root_of_positive_components() {
    assert_eq!(linear_to_gamma(0), 0);
    assert_eq!(linear_to_gamma(-5), 0);
    assert_eq!(linear_to_gamma(SCALE), SCALE);
    assert_eq!(linear_to_gamma(250_000), 500_000);
    assert_eq!(linear_to_gamma(4 * SCALE), 2 * SCALE);
    assert_eq!(linear_to_gamma(500_000), 707_106);
    assert_eq!(linear_to_gamma(1), 1_000);
}

#[test]
fn lerp_picks_the_point_of_the_range() {
    assert_eq!(lerp(-SCALE, SCALE, 0), -SCALE);
    assert_eq!(lerp(-SCALE, SCALE, 500_000), 0);
    assert_eq!(lerp(-SCALE, SCALE, 999_999), 999_998);
    assert_eq!(lerp(10, 20, 250_000), 12);
    assert_eq!(lerp(20, 10, 250_000), 17);
    assert_eq!(lerp(i64::MIN, i64::MAX, 500_000), -1);
}

#[test]
fn random_numbers_stay_in_their_range() {
    let mut below_half = 0;
    for _ in 0..2_000 {
        let u = random_fraction();
        assert!(0 <= u && u < SCALE);
        if u < SCALE / 2 {
            below_half += 1;
        }
        let r = random_float_range(-3 * SCALE, 5 * SCALE);
        assert!(-3 * SCALE <= r && r < 5 * SCALE);
    }
    assert!(below_half > 0 && below_half < 2_000);
}

#[test]
fn intervals() {
    let iv = Interval::new(1_000, 5_000);
    assert_eq!((iv.min, iv.max), (1_000, 5_000));
    assert_eq!(iv.size(), 4_000);
    assert!(iv.contains(1_000));
    assert!(iv.contains(5_000));
    assert!(!iv.contains(999));
    assert!(!iv.surrounds(1_000));
    assert!(iv.surrounds(1_001));
    assert!(!iv.surrounds(5_000));
    assert_eq!(iv.clamp(0), 1_000);
    assert_eq!(iv.clamp(9_000), 5_000);
    assert_eq!(iv.clamp(3_000), 3_000);
}

#[test]
fn crossed_and_unbounded_intervals() {
    let crossed = Interval::new(5, 1);
    assert!(!crossed.contains(3));
    assert!(!crossed.surrounds(3));
    assert_eq!(crossed.size(), -4);
    assert_eq!(crossed.clamp(3), 5);
    assert_eq!(crossed.clamp(7), 1);
    let all = Interval::new(i64::MIN, INFINITY);
    assert_eq!(all.size(), i64::MAX);
    assert!(all.surrounds(0));
    assert!(!all.surrounds(INFINITY));
    assert_eq!(Interval::new(INFINITY, i64::MIN).size(), i64::MIN);
}

#[test]
fn decimal_digits() {
    let mut out = vec![b'#'];
    push_decimal(&mut out, 0);
    out.push(b' ');
    push_decimal(&mut out, 7);
    out.push(b' ');
    push_decimal(&mut out, 255);
    out.push(b' ');
    push_decimal(&mut out, 1_000);
    out.push(b' ');
    push_decimal(&mut out, u32::MAX);
    assert_eq!(out, b"#0 7 255 1000 4294967295".to_vec());
}

#[test]
fn words_stand_for_fractions() {
    assert_eq!(fraction_of(0), 0);
    assert_eq!(fraction_of(999_999), 999_999);
    assert_eq!(fraction_of(1_000_000), 0);
    assert_eq!(fraction_of(123_456_789), 456_789);
    assert_eq!(fraction_of(u64::MAX), 551_615);
}
