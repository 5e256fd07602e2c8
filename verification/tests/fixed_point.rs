use mix_economy::fixed::{div_floor, isqrt, mul_fixed, sqrt_fixed, UNIT};

#[test]
fn isqrt_rounds_down() {
    assert_eq!(isqrt(0), 0);
    assert_eq!(isqrt(1), 1);
    assert_eq!(isqrt(2), 1);
    assert_eq!(isqrt(3), 1);
    assert_eq!(isqrt(4), 2);
    assert_eq!(isqrt(99), 9);
    assert_eq!(isqrt(100), 10);
    assert_eq!(isqrt(200_000_000_000), 447_213);
    assert_eq!(isqrt(1_000_000_000_000_000_000), 1_000_000_000);
    assert_eq!(isqrt(999_999_999_999_999_999), 999_999_999);
}

#[test]
fn isqrt_covers_the_whole_range() {
    assert_eq!(isqrt(u64::MAX as u128), 4_294_967_295);
    assert_eq!(isqrt(4_294_967_295 * 4_294_967_295), 4_294_967_295);
    assert_eq!(isqrt(4_294_967_295 * 4_294_967_295 - 1), 4_294_967_294);
    assert_eq!(isqrt(u128::MAX), u64::MAX as u128);
    assert_eq!(isqrt(1 << 126), 1 << 63);
    assert_eq!(isqrt((1 << 126) - 1), (1 << 63) - 1);
}

#[test]
fn isqrt_squares_enclose_the_argument() {
    for v in 0..5_000u128 {
        let r = isqrt(v);
        assert!(r * r <= v && v < (r + 1) * (r + 1));
    }
}

#[test]
fn div_floor_rounds_toward_minus_infinity() {
    assert_eq!(div_floor(7, 2), 3);
    assert_eq!(div_floor(-7, 2), -4);
    assert_eq!(div_floor(-8, 2), -4);
    assert_eq!(div_floor(-1, 1_000_000), -1);
    assert_eq!(div_floor(0, 5), 0);
    assert_eq!(div_floor(-3, 1), -3);
    assert_eq!(div_floor(i128::MIN, 1), i128::MIN);
    assert_eq!(div_floor(i128::MIN, 2), i128::MIN / 2);
    assert_eq!(div_floor(i128::MAX, 3), i128::MAX / 3);
}

#[test]
fn mul_fixed_is_the_product_in_units() {
    let one = UNIT as i128;
    assert_eq!(mul_fixed(one, one), one);
    assert_eq!(mul_fixed(500_000, 500_000), 250_000);
    assert_eq!(mul_fixed(3, 333_333), 0);
    assert_eq!(mul_fixed(-3, 333_333), -1);
    assert_eq!(mul_fixed(2 * one, -one / 2), -one);
    assert_eq!(mul_fixed(0, 12345), 0);
}

#[test]
fn sqrt_fixed_is_the_root_in_units() {
    assert_eq!(sqrt_fixed(0), 0);
    assert_eq!(sqrt_fixed(UNIT), UNIT);
    assert_eq!(sqrt_fixed(4 * UNIT), 2 * UNIT);
    assert_eq!(sqrt_fixed(200_000), 447_213);
    assert_eq!(sqrt_fixed(1), 1_000);
    assert_eq!(sqrt_fixed(2), 1_414);
    assert_eq!(sqrt_fixed(1_000_000_000_000), 1_000_000_000);
    assert_eq!(sqrt_fixed(i64::MAX), 3_037_000_499_976);
}
