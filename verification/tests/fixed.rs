use soft_body_simulation::utils::fixed::{
    div_fixed, div_toward_zero, isqrt, mul_fixed, sat_abs, sat_add, sat_neg, sat_sub,
    saturate_i128, saturate_i64, UNIT,
};

#[test]
fn unit_is_a_thousand() {
    assert_eq!(UNIT, 1000);
}

#[test]
fn saturate_keeps_what_fits() {
    assert_eq!(saturate_i64(0), 0);
    assert_eq!(saturate_i64(-123_456), -123_456);
    assert_eq!(saturate_i64(i32::MAX as i64), i32::MAX);
    assert_eq!(saturate_i64(i32::MIN as i64), i32::MIN);
    assert_eq!(saturate_i128(77), 77);
}

#[test]
fn saturate_stops_at_the_ends() {
    assert_eq!(saturate_i64(i32::MAX as i64 + 1), i32::MAX);
    assert_eq!(saturate_i64(i32::MIN as i64 - 1), i32::MIN);
    assert_eq!(saturate_i64(i64::MAX), i32::MAX);
    assert_eq!(saturate_i64(i64::MIN), i32::MIN);
    assert_eq!(saturate_i128(i128::MAX), i32::MAX);
    assert_eq!(saturate_i128(i128::MIN), i32::MIN);
}

#[test]
fn sums_and_differences_saturate() {
    assert_eq!(sat_add(2, 3), 5);
    assert_eq!(sat_add(i32::MAX, 1), i32::MAX);
    assert_eq!(sat_add(i32::MIN, -1), i32::MIN);
    assert_eq!(sat_sub(2, 3), -1);
    assert_eq!(sat_sub(i32::MIN, 1), i32::MIN);
    assert_eq!(sat_sub(i32::MAX, -1), i32::MAX);
}

#[test]
fn negation_and_size_saturate() {
    assert_eq!(sat_neg(5), -5);
    assert_eq!(sat_neg(i32::MIN), i32::MAX);
    assert_eq!(sat_abs(-5), 5);
    assert_eq!(sat_abs(5), 5);
    assert_eq!(sat_abs(i32::MIN), i32::MAX);
}

#[test]
fn division_rounds_toward_zero() {
    assert_eq!(div_toward_zero(7, 2), 3);
    assert_eq!(div_toward_zero(-7, 2), -3);
    assert_eq!(div_toward_zero(6, 3), 2);
    assert_eq!(div_toward_zero(-1, 1000), 0);
    assert_eq!(div_toward_zero(0, 5), 0);
}

#[test]
fn products_are_scaled_by_the_unit() {
    // 2.450 * 0.250 = 0.6125, rounded toward zero
    assert_eq!(mul_fixed(2450, 250), 612);
    assert_eq!(mul_fixed(-2450, 250), -612);
    assert_eq!(mul_fixed(1000, 1000), 1000);
    assert_eq!(mul_fixed(0, 123), 0);
    assert_eq!(mul_fixed(999, 1), 0);
}

#[test]
fn products_saturate() {
    assert_eq!(mul_fixed(i32::MAX, i32::MAX), i32::MAX);
    assert_eq!(mul_fixed(i32::MAX, i32::MIN), i32::MIN);
    assert_eq!(mul_fixed(i32::MIN, i32::MIN), i32::MAX);
}

#[test]
fn quotients_are_scaled_by_the_unit() {
    // 0.007 / 0.002 = 3.5
    assert_eq!(div_fixed(7, 2), 3500);
    assert_eq!(div_fixed(-7, 2), -3500);
    // 1 / 3 = 0.333
    assert_eq!(div_fixed(1000, 3000), 333);
    assert_eq!(div_fixed(-1000, 3000), -333);
    // dividing by a quarter multiplies by four
    assert_eq!(div_fixed(1500, 250), 6000);
}

#[test]
fn quotients_by_a_negative_divisor() {
    assert_eq!(div_fixed(7, -2), -3500);
    assert_eq!(div_fixed(-7, -2), 3500);
    assert_eq!(div_fixed(1000, -3000), -333);
    assert_eq!(div_fixed(-1000, -3000), 333);
    assert_eq!(div_fixed(0, -5), 0);
    assert_eq!(div_fixed(i32::MIN, -1), i32::MAX);
    assert_eq!(div_fixed(i32::MAX, i32::MIN), -999);
    assert_eq!(div_fixed(i32::MIN, i32::MIN), 1000);
}

#[test]
fn quotients_saturate() {
    assert_eq!(div_fixed(i32::MAX, 1), i32::MAX);
    assert_eq!(div_fixed(i32::MIN, 1), i32::MIN);
}

#[test]
fn isqrt_rounds_down() {
    assert_eq!(isqrt(0), 0);
    assert_eq!(isqrt(1), 1);
    assert_eq!(isqrt(2), 1);
    assert_eq!(isqrt(3), 1);
    assert_eq!(isqrt(4), 2);
    assert_eq!(isqrt(24), 4);
    assert_eq!(isqrt(25), 5);
    assert_eq!(isqrt(200_000_000), 14142);
}

#[test]
fn isqrt_of_the_largest_numbers() {
    assert_eq!(isqrt(u64::MAX), 4_294_967_295);
    assert_eq!(isqrt(4_294_967_295 * 4_294_967_295), 4_294_967_295);
    assert_eq!(isqrt(4_294_967_295 * 4_294_967_295 - 1), 4_294_967_294);
}

#[test]
fn isqrt_brackets_its_argument() {
    let mut n: u64 = 0;
    while n < 5000 {
        let r = isqrt(n) as u64;
        assert!(r * r <= n && n < (r + 1) * (r + 1));
        n += 1;
    }
}
