//! Exact integer arithmetic behind the geometry: bounded products, division
//! rounded to the nearest integer, and the integer square root.

use vstd::arithmetic::div_mod::lemma_fundamental_div_mod;
use vstd::arithmetic::div_mod::lemma_fundamental_div_mod_converse;
use vstd::prelude::*;

verus! {

/// Largest magnitude of a numerator, and largest denominator, that
/// [`div_round`] accepts: two to the power 125.
pub const DIV_LIMIT: i128 = 0x2000_0000_0000_0000_0000_0000_0000_0000;

/// The quotient `n / d` rounded to the nearest integer, halves rounded up.
pub open spec fn div_nearest(n: int, d: int) -> int {
    (2 * n + d) / (2 * d)
}

/// `r` is the integer square root of `n`: the largest natural number whose
/// square does not exceed `n`.
pub open spec fn is_sqrt_floor(n: int, r: int) -> bool {
    0 <= r && r * r <= n && n < (r + 1) * (r + 1)
}

/// The integer square root of `n`, for `n >= 0`.
pub open spec fn sqrt_floor(n: int) -> int {
    choose|r: int| is_sqrt_floor(n, r)
}

/// A product of two bounded factors is bounded by the product of the bounds.
pub proof fn lemma_mul_magnitude(x: int, y: int, bx: int, by: int)
    by (nonlinear_arith)
    requires
        -bx <= x <= bx,
        -by <= y <= by,
    ensures
        -(bx * by) <= x * y <= bx * by,
{
}

/// Squares are monotone in the magnitude.
pub proof fn lemma_square_le(x: int, b: int)
    by (nonlinear_arith)
    requires
        -b <= x <= b,
    ensures
        0 <= x * x <= b * b,
{
}

/// `(x * y) * (z * w)` is `(x * z) * (y * w)`.
pub proof fn lemma_mul_regroup(x: int, y: int, z: int, w: int)
    by (nonlinear_arith)
    ensures
        (x * y) * (z * w) == (x * z) * (y * w),
{
}

/// A number whose square, with another square added, is at most the square
/// of `b` has magnitude at most `b`.
pub proof fn lemma_square_sum_bounds(u: int, v: int, b: int)
    by (nonlinear_arith)
    requires
        u * u + v * v <= b * b,
        b >= 0,
    ensures
        -b <= u <= b,
{
    assert(v * v >= 0);
    if u > b {
        assert(u * u > b * b);
    }
    if u < -b {
        assert(u * u > b * b);
    }
}

/// The rounded quotient is at most half a unit away from the exact one:
/// `-d <= 2 * (n - q * d) < d`.
pub proof fn lemma_div_nearest_error(n: int, d: int)
    requires
        d > 0,
    ensures
        -d <= 2 * (n - div_nearest(n, d) * d) < d,
{
    let q = div_nearest(n, d);
    lemma_fundamental_div_mod(2 * n + d, 2 * d);
    assert((2 * d) * q == 2 * (q * d)) by (nonlinear_arith);
}

/// Rounding keeps a quotient inside any symmetric integer bound that holds
/// of the exact quotient.
pub proof fn lemma_div_nearest_bound(n: int, d: int, b: int)
    requires
        d > 0,
        b >= 0,
        -(b * d) <= n <= b * d,
    ensures
        -b <= div_nearest(n, d) <= b,
{
    let q = div_nearest(n, d);
    lemma_div_nearest_error(n, d);
    assert(q <= b) by (nonlinear_arith)
        requires
            d > 0,
            n <= b * d,
            -d <= 2 * (n - q * d),
    {
        if q >= b + 1 {
            assert(q * d >= (b + 1) * d);
        }
    }
    assert(-b <= q) by (nonlinear_arith)
        requires
            d > 0,
            -(b * d) <= n,
            2 * (n - q * d) < d,
    {
        if q <= -b - 1 {
            assert(q * d <= (-b - 1) * d);
        }
    }
}

/// At most one number is the integer square root of `n`.
pub proof fn lemma_sqrt_floor_unique(n: int, r: int, s: int)
    by (nonlinear_arith)
    requires
        is_sqrt_floor(n, r),
        is_sqrt_floor(n, s),
    ensures
        r == s,
{
    if r < s {
        assert((r + 1) * (r + 1) <= s * s);
    }
    if s < r {
        assert((s + 1) * (s + 1) <= r * r);
    }
}

/// Every natural number has an integer square root, and `sqrt_floor` is it.
pub proof fn lemma_sqrt_floor_exists(n: int)
    requires
        0 <= n,
    ensures
        is_sqrt_floor(n, sqrt_floor(n)),
    decreases n,
{
    if n == 0 {
        assert(is_sqrt_floor(0, 0));
    } else {
        lemma_sqrt_floor_exists(n - 1);
        let r = sqrt_floor(n - 1);
        if (r + 1) * (r + 1) <= n {
            assert(is_sqrt_floor(n, r + 1)) by (nonlinear_arith)
                requires
                    0 <= r,
                    (r + 1) * (r + 1) <= n,
                    n - 1 < (r + 1) * (r + 1),
            ;
        } else {
            assert(is_sqrt_floor(n, r));
        }
    }
}

/// Whatever satisfies the definition is the integer square root.
pub proof fn lemma_sqrt_floor_is(n: int, r: int)
    requires
        is_sqrt_floor(n, r),
    ensures
        sqrt_floor(n) == r,
{
    lemma_sqrt_floor_unique(n, r, sqrt_floor(n));
}

/// Divides `n` by the positive `d` and rounds to the nearest integer, halves
/// up.
pub fn div_round(n: i128, d: i128) -> (q: i128)
    requires
        0 < d <= DIV_LIMIT,
        -DIV_LIMIT <= n <= DIV_LIMIT,
    ensures
        q == div_nearest(n as int, d as int),
{
    let den: i128 = 2 * d;
    let num: i128 = 2 * n + d;
    if num >= 0 {
        num / den
    } else {
        let m: i128 = -num;
        let t: i128 = (m + den - 1) / den;
        proof {
            let s: int = m + den - 1;
            let rem: int = s % (den as int);
            lemma_fundamental_div_mod(s, den as int);
            assert(num == (-t) * den + (den - 1 - rem)) by (nonlinear_arith)
                requires
                    s == den * t + rem,
                    s == -num + den - 1,
            ;
            lemma_fundamental_div_mod_converse(num as int, den as int, -t, den - 1 - rem);
        }
        -t
    }
}

/// The integer square root of `n`.
pub fn isqrt(n: u128) -> (r: u128)
    ensures
        r == sqrt_floor(n as int),
        is_sqrt_floor(n as int, r as int),
{
    let mut lo: u128 = 0;
    let mut hi: u128 = 0x1_0000_0000_0000_0000;
    assert(n < hi * hi) by {
        assert(0x1_0000_0000_0000_0000int * 0x1_0000_0000_0000_0000int
            == 0x1_0000_0000_0000_0000_0000_0000_0000_0000int);
    }
    while hi - lo > 1
        invariant
            lo < hi <= 0x1_0000_0000_0000_0000,
            lo * lo <= n < hi * hi,
        decreases hi - lo,
    {
        let mid: u128 = lo + (hi - lo) / 2;
        assert(mid * mid <= 0xffff_ffff_ffff_ffff * 0xffff_ffff_ffff_ffff) by (nonlinear_arith)
            requires
                mid <= 0xffff_ffff_ffff_ffff,
        ;
        if mid * mid <= n {
            lo = mid;
        } else {
            hi = mid;
        }
    }
    proof {
        assert(hi == lo + 1);
        lemma_sqrt_floor_is(n as int, lo as int);
    }
    lo
}

} // verus!
