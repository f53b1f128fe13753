use alife::fixed::{fx_abs, fx_add, fx_mul, fx_neg, fx_sub, isqrt, saturate, wrap_angle, UNIT};

#[test]
fn unit_is_a_million() {
    assert_eq!(UNIT, 1_000_000);
}

#[test]
fn sums_saturate() {
    assert_eq!(fx_add(1, 2), 3);
    assert_eq!(fx_add(i64::MAX, 1), i64::MAX);
    assert_eq!(fx_add(i64::MIN, -1), i64::MIN);
    assert_eq!(fx_sub(5, 7), -2);
    assert_eq!(fx_sub(i64::MIN, 1), i64::MIN);
    assert_eq!(fx_sub(i64::MAX, -1), i64::MAX);
}

#[test]
fn negation_saturates() {
    assert_eq!(fx_neg(5), -5);
    assert_eq!(fx_neg(-5), 5);
    assert_eq!(fx_neg(i64::MIN), i64::MAX);
    assert_eq!(fx_abs(-7), 7);
    assert_eq!(fx_abs(7), 7);
    assert_eq!(fx_abs(i64::MIN), i64::MAX);
}

#[test]
fn saturate_narrows() {
    assert_eq!(saturate(12), 12);
    assert_eq!(saturate(i64::MAX as i128 + 10), i64::MAX);
    assert_eq!(saturate(i64::MIN as i128 - 10), i64::MIN);
}

#[test]
fn products_are_fixed_point() {
    // 1.5 * 2.0 = 3.0
    assert_eq!(fx_mul(1_500_000, 2_000_000), 3_000_000);
    // 0.5 * 0.5 = 0.25
    assert_eq!(fx_mul(500_000, 500_000), 250_000);
    // -1 * 0.3 = -0.3
    assert_eq!(fx_mul(-UNIT, 300_000), -300_000);
    assert_eq!(fx_mul(0, 123), 0);
}

#[test]
fn products_round_toward_zero() {
    // 0.000001 * 0.5 = 0.0000005, which rounds to 0 from either side
    assert_eq!(fx_mul(1, 500_000), 0);
    assert_eq!(fx_mul(-1, 500_000), 0);
    // 0.000003 * 0.5 = 0.0000015
    assert_eq!(fx_mul(3, 500_000), 1);
    assert_eq!(fx_mul(-3, 500_000), -1);
}

#[test]
fn products_saturate() {
    assert_eq!(fx_mul(i64::MAX, i64::MAX), i64::MAX);
    assert_eq!(fx_mul(i64::MAX, i64::MIN), i64::MIN);
    assert_eq!(fx_mul(i64::MIN, i64::MIN), i64::MAX);
}

#[test]
fn angles_wrap_into_a_turn() {
    assert_eq!(wrap_angle(0), 0);
    assert_eq!(wrap_angle(UNIT), UNIT);
    assert_eq!(wrap_angle(-UNIT), UNIT);
    assert_eq!(wrap_angle(UNIT + 1), -UNIT + 1);
    assert_eq!(wrap_angle(-UNIT - 1), UNIT - 1);
    assert_eq!(wrap_angle(3 * UNIT), UNIT);
    assert_eq!(wrap_angle(2 * UNIT), 0);
    assert_eq!(wrap_angle(-2 * UNIT), 0);
    assert_eq!(wrap_angle(1_500_000), -500_000);
    assert_eq!(wrap_angle(-1_500_000), 500_000);
    assert_eq!(wrap_angle(250_000), 250_000);
}

#[test]
fn angles_wrap_at_the_ends_of_the_range() {
    let high = wrap_angle(i64::MAX);
    assert!(-UNIT < high && high <= UNIT);
    assert_eq!((i64::MAX as i128 - high as i128) % (2 * UNIT as i128), 0);
    let low = wrap_angle(i64::MIN);
    assert!(-UNIT < low && low <= UNIT);
    assert_eq!((i64::MIN as i128 - low as i128) % (2 * UNIT as i128), 0);
}

#[test]
fn square_roots_round_down() {
    assert_eq!(isqrt(0), 0);
    assert_eq!(isqrt(1), 1);
    assert_eq!(isqrt(2), 1);
    assert_eq!(isqrt(3), 1);
    assert_eq!(isqrt(4), 2);
    assert_eq!(isqrt(15), 3);
    assert_eq!(isqrt(16), 4);
    assert_eq!(isqrt(1_000_000), 1_000);
    assert_eq!(isqrt(999_999), 999);
    assert_eq!(isqrt(u64::MAX as u128), 0xffff_ffff);
    assert_eq!(isqrt(u128::MAX), u64::MAX);
    assert_eq!(isqrt(1 << 126), 1 << 63);
    assert_eq!(isqrt((1 << 126) - 1), (1 << 63) - 1);
    assert_eq!(isqrt(11_600_000_000_000_000), 107_703_296);
}
