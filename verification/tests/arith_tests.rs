use raytrace2d::arith::div_round;
use raytrace2d::arith::isqrt;

#[test]
fn isqrt_of_small_numbers() {
    assert_eq!(isqrt(0), 0);
    assert_eq!(isqrt(1), 1);
    assert_eq!(isqrt(2), 1);
    assert_eq!(isqrt(3), 1);
    assert_eq!(isqrt(4), 2);
    assert_eq!(isqrt(15), 3);
    assert_eq!(isqrt(16), 4);
    assert_eq!(isqrt(17), 4);
}

#[test]
fn isqrt_is_the_floor_of_the_root() {
    let mut n: u128 = 0;
    while n < 5000 {
        let r = isqrt(n);
        assert!(r * r <= n);
        assert!(n < (r + 1) * (r + 1));
        n += 1;
    }
}

#[test]
fn isqrt_of_large_numbers() {
    assert_eq!(isqrt(u128::MAX), 0xffff_ffff_ffff_ffff);
    assert_eq!(isqrt(1u128 << 126), 1u128 << 63);
    assert_eq!(isqrt((1u128 << 126) - 1), (1u128 << 63) - 1);
    assert_eq!(isqrt(1_000_000_000_000u128 * 1_000_000_000_000u128), 1_000_000_000_000);
}

#[test]
fn div_round_rounds_to_nearest() {
    assert_eq!(div_round(5, 3), 2);
    assert_eq!(div_round(4, 3), 1);
    assert_eq!(div_round(-5, 3), -2);
    assert_eq!(div_round(-4, 3), -1);
    assert_eq!(div_round(0, 7), 0);
    assert_eq!(div_round(21, 7), 3);
    assert_eq!(div_round(-21, 7), -3);
}

#[test]
fn div_round_rounds_halves_up() {
    assert_eq!(div_round(7, 2), 4);
    assert_eq!(div_round(1, 2), 1);
    assert_eq!(div_round(-1, 2), 0);
    assert_eq!(div_round(-3, 2), -1);
    assert_eq!(div_round(-7, 2), -3);
}

#[test]
fn div_round_is_within_half_of_the_quotient() {
    let mut n: i128 = -200;
    while n <= 200 {
        let mut d: i128 = 1;
        while d <= 17 {
            let q = div_round(n, d);
            assert!(-d <= 2 * (n - q * d));
            assert!(2 * (n - q * d) < d);
            d += 1;
        }
        n += 1;
    }
}
