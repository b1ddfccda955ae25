use disc_arena::fixed::{abs, add_capped, cap, clamp, div_toward_zero, isqrt, scale, SCALE, SPEED_LIMIT};

#[test]
fn isqrt_of_small_numbers() {
    assert_eq!(isqrt(0), 0);
    assert_eq!(isqrt(1), 1);
    assert_eq!(isqrt(3), 1);
    assert_eq!(isqrt(4), 2);
    assert_eq!(isqrt(99), 9);
    assert_eq!(isqrt(100), 10);
}

#[test]
fn isqrt_of_large_numbers() {
    assert_eq!(isqrt(1_000_000_000_000), 1_000_000);
    assert_eq!(isqrt(999_999_999_999), 999_999);
    assert_eq!(isqrt(2_000_000_000_000_000_000_000_000), 1_414_213_562_373);
}

#[test]
fn isqrt_brackets_its_argument() {
    let mut n: u128 = 7;
    for _ in 0..60 {
        let r = isqrt(n) as u128;
        assert!(r * r <= n);
        assert!(n < (r + 1) * (r + 1));
        n = n * 3 + 1;
    }
}

#[test]
fn division_rounds_toward_zero() {
    assert_eq!(div_toward_zero(7, 2), 3);
    assert_eq!(div_toward_zero(-7, 2), -3);
    assert_eq!(div_toward_zero(-1, 2), 0);
    assert_eq!(div_toward_zero(0, 5), 0);
    assert_eq!(div_toward_zero(-10, 5), -2);
}

#[test]
fn scale_rounds_toward_zero_on_both_sides() {
    assert_eq!(scale(15, 9, 10), 13);
    assert_eq!(scale(-15, 9, 10), -13);
    assert_eq!(scale(1_000_000, 9, 10), 900_000);
    assert_eq!(scale(1, 9, 10), 0);
    assert_eq!(scale(-1, 9, 10), 0);
}

#[test]
fn sums_of_speeds_are_held_to_the_limit() {
    assert_eq!(add_capped(3, 4), 7);
    assert_eq!(add_capped(SPEED_LIMIT, 5), SPEED_LIMIT);
    assert_eq!(add_capped(-SPEED_LIMIT, -5), -SPEED_LIMIT);
    assert_eq!(add_capped(i64::MAX, i64::MAX), SPEED_LIMIT);
    assert_eq!(cap(-(SPEED_LIMIT as i128) - 1), -SPEED_LIMIT);
    assert_eq!(cap(12), 12);
}

#[test]
fn clamp_and_abs() {
    assert_eq!(clamp(5, 0, 10), 5);
    assert_eq!(clamp(-5, 0, 10), 0);
    assert_eq!(clamp(15, 0, 10), 10);
    assert_eq!(abs(-3 * SCALE), 3 * SCALE);
    assert_eq!(abs(3), 3);
    assert_eq!(abs(0), 0);
}
