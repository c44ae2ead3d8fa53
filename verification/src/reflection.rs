//! Specular reflection off a circle.
//!
//! A ray that travels along `d` and strikes a circle at a point whose offset
//! from the centre is `n` leaves along `d - 2 * (d . n) / (n . n) * n`. The
//! reflected leg starts at the point struck and is aimed at the point that
//! lies [`REFLECTION_REACH`] from the origin of the plane in that direction.

use crate::arith::div_nearest;
use crate::arith::div_round;
use crate::arith::is_sqrt_floor;
use crate::arith::isqrt;
use crate::arith::lemma_div_nearest_bound;
use crate::arith::lemma_mul_magnitude;
use crate::arith::lemma_mul_regroup;
use crate::arith::lemma_sqrt_floor_exists;
use crate::arith::lemma_square_le;
use crate::arith::lemma_square_sum_bounds;
use crate::arith::sqrt_floor;
use crate::geometry::Point;
use crate::geometry::Pos;
use crate::geometry::LEG_LIMIT;
use crate::geometry::SLOPE_LIMIT;
use crate::geometry::UNIT;
use vstd::prelude::*;

verus! {

/// How far from the origin of the plane a reflected leg is aimed: the
/// length one thousand.
pub const REFLECTION_REACH: i64 = 1000 * UNIT;

/// The direction `d` mirrored at the tangent whose normal is `n`, scaled by
/// the squared length of `n`: `(n . n) * d - 2 * (d . n) * n`.
pub open spec fn mirrored(d: Pos, n: Pos) -> Pos {
    let nn = n.x * n.x + n.y * n.y;
    let p = d.x * n.x + d.y * n.y;
    Pos { x: nn * d.x - 2 * (p * n.x), y: nn * d.y - 2 * (p * n.y) }
}

/// The point at which the leg is aimed that leaves `hit` after the leg from
/// `start` towards `end` has struck the circle round `center` there.
///
/// It is the mirrored direction, brought to the length
/// [`REFLECTION_REACH`] with the integer square root of the squared length
/// of `end - start` and rounded to the nearest point of the grid. There is
/// none where `hit` is the centre itself, which has no normal, or where
/// `start` and `end` coincide.
pub open spec fn reflected_end(start: Pos, end: Pos, center: Pos, hit: Pos) -> Option<Pos> {
    let d = Pos { x: end.x - start.x, y: end.y - start.y };
    let n = Pos { x: hit.x - center.x, y: hit.y - center.y };
    let nn = n.x * n.x + n.y * n.y;
    let len = sqrt_floor(d.x * d.x + d.y * d.y);
    let m = mirrored(d, n);
    if nn == 0 || len == 0 {
        None
    } else {
        Some(
            Pos {
                x: div_nearest(REFLECTION_REACH * m.x, nn * len),
                y: div_nearest(REFLECTION_REACH * m.y, nn * len),
            },
        )
    }
}

/// Mirroring keeps the length: the mirrored direction is as long as `d`
/// times the squared length of `n`.
pub proof fn lemma_mirrored_length(d: Pos, n: Pos)
    ensures
        mirrored(d, n).x * mirrored(d, n).x + mirrored(d, n).y * mirrored(d, n).y == ((n.x * n.x
            + n.y * n.y) * (n.x * n.x + n.y * n.y)) * (d.x * d.x + d.y * d.y),
{
    let nn = n.x * n.x + n.y * n.y;
    let p = d.x * n.x + d.y * n.y;
    let dd = d.x * d.x + d.y * d.y;
    let ax = nn * d.x;
    let bx = p * n.x;
    let ay = nn * d.y;
    let by = p * n.y;
    let mx = ax - 2 * bx;
    let my = ay - 2 * by;
    assert(mx * mx == ax * ax - 4 * (ax * bx) + 4 * (bx * bx)) by (nonlinear_arith)
        requires
            mx == ax - 2 * bx,
    ;
    assert(my * my == ay * ay - 4 * (ay * by) + 4 * (by * by)) by (nonlinear_arith)
        requires
            my == ay - 2 * by,
    ;
    lemma_mul_regroup(nn, d.x, nn, d.x);
    lemma_mul_regroup(nn, d.y, nn, d.y);
    lemma_mul_regroup(nn, d.x, p, n.x);
    lemma_mul_regroup(nn, d.y, p, n.y);
    lemma_mul_regroup(p, n.x, p, n.x);
    lemma_mul_regroup(p, n.y, p, n.y);
    let np = nn * p;
    let pp = p * p;
    let nsq = nn * nn;
    assert(ax * bx + ay * by == np * p) by (nonlinear_arith)
        requires
            ax * bx == np * (d.x * n.x),
            ay * by == np * (d.y * n.y),
            p == d.x * n.x + d.y * n.y,
    ;
    assert(bx * bx + by * by == pp * nn) by (nonlinear_arith)
        requires
            bx * bx == pp * (n.x * n.x),
            by * by == pp * (n.y * n.y),
            nn == n.x * n.x + n.y * n.y,
    ;
    assert(ax * ax + ay * ay == nsq * dd) by (nonlinear_arith)
        requires
            ax * ax == nsq * (d.x * d.x),
            ay * ay == nsq * (d.y * d.y),
            dd == d.x * d.x + d.y * d.y,
    ;
    assert(np * p == pp * nn) by (nonlinear_arith)
        requires
            np == nn * p,
            pp == p * p,
    ;
}

/// Each coordinate of the mirrored direction is below twice the product of
/// the squared length of `n` and the integer length of `d`.
pub proof fn lemma_mirrored_bound(d: Pos, n: Pos, len: int)
    requires
        is_sqrt_floor(d.x * d.x + d.y * d.y, len),
        len >= 1,
    ensures
        -(2 * ((n.x * n.x + n.y * n.y) * len)) <= mirrored(d, n).x <= 2 * ((n.x * n.x + n.y * n.y)
            * len),
        -(2 * ((n.x * n.x + n.y * n.y) * len)) <= mirrored(d, n).y <= 2 * ((n.x * n.x + n.y * n.y)
            * len),
{
    let nn = n.x * n.x + n.y * n.y;
    let dd = d.x * d.x + d.y * d.y;
    let m = mirrored(d, n);
    let b = 2 * (nn * len);
    lemma_mirrored_length(d, n);
    assert(nn >= 0) by (nonlinear_arith)
        requires
            nn == n.x * n.x + n.y * n.y,
    ;
    assert(dd <= 4 * (len * len)) by (nonlinear_arith)
        requires
            dd < (len + 1) * (len + 1),
            len >= 1,
    ;
    assert((nn * nn) * dd <= b * b) by (nonlinear_arith)
        requires
            dd <= 4 * (len * len),
            b == 2 * (nn * len),
            nn >= 0,
    {
        assert(nn * nn >= 0);
        assert((nn * nn) * dd <= (nn * nn) * (4 * (len * len)));
        assert((nn * nn) * (4 * (len * len)) == (2 * (nn * len)) * (2 * (nn * len)));
    }
    assert(b >= 0) by (nonlinear_arith)
        requires
            b == 2 * (nn * len),
            nn >= 0,
            len >= 1,
    ;
    lemma_square_sum_bounds(m.x, m.y, b);
    lemma_square_sum_bounds(m.y, m.x, b);
}

/// A reflected leg is aimed at a point within twice [`REFLECTION_REACH`] of
/// the origin of the plane in each coordinate, and so within [`LEG_LIMIT`].
pub proof fn lemma_reflected_end_in_range(start: Pos, end: Pos, center: Pos, hit: Pos)
    ensures
        reflected_end(start, end, center, hit) matches Some(far) ==> far.within(
            2 * REFLECTION_REACH,
        ) && far.within(LEG_LIMIT as int),
{
    let d = Pos { x: end.x - start.x, y: end.y - start.y };
    let n = Pos { x: hit.x - center.x, y: hit.y - center.y };
    let nn = n.x * n.x + n.y * n.y;
    let dd = d.x * d.x + d.y * d.y;
    assert(dd >= 0 && nn >= 0) by (nonlinear_arith)
        requires
            dd == d.x * d.x + d.y * d.y,
            nn == n.x * n.x + n.y * n.y,
    ;
    lemma_sqrt_floor_exists(dd);
    let len = sqrt_floor(dd);
    if nn != 0 && len != 0 {
        let m = mirrored(d, n);
        let den = nn * len;
        lemma_mirrored_bound(d, n, len);
        assert(den > 0) by (nonlinear_arith)
            requires
                den == nn * len,
                nn >= 1,
                len >= 1,
        ;
        lemma_scaled_bound(m.x, den);
        lemma_scaled_bound(m.y, den);
        lemma_div_nearest_bound(REFLECTION_REACH * m.x, den, 2 * REFLECTION_REACH);
        lemma_div_nearest_bound(REFLECTION_REACH * m.y, den, 2 * REFLECTION_REACH);
    }
}

/// A number of magnitude at most `2 * den`, scaled by the reach, has
/// magnitude at most `2 * reach * den`.
proof fn lemma_scaled_bound(m: int, den: int)
    by (nonlinear_arith)
    requires
        -(2 * den) <= m <= 2 * den,
    ensures
        -((2 * REFLECTION_REACH) * den) <= REFLECTION_REACH * m <= (2 * REFLECTION_REACH) * den,
{
}

/// The point at which the reflected leg is aimed, after the leg from
/// `start` towards `end` has struck the circle round `center` at `hit`.
/// `None` where `hit` is the centre itself or `start` and `end` coincide.
pub fn reflect(start: &Point, end: &Point, center: &Point, hit: &Point) -> (far: Option<Point>)
    requires
        start@.within(LEG_LIMIT as int),
        end@.within(LEG_LIMIT as int),
        center@.within(LEG_LIMIT as int),
        hit@.within(LEG_LIMIT as int),
    ensures
        match far {
            Some(p) => reflected_end(start@, end@, center@, hit@) == Some(p@),
            None => reflected_end(start@, end@, center@, hit@) is None,
        },
        far matches Some(p) ==> p@.within(LEG_LIMIT as int),
{
    let dx: i128 = (end.x - start.x) as i128;
    let dy: i128 = (end.y - start.y) as i128;
    let nx: i128 = (hit.x - center.x) as i128;
    let ny: i128 = (hit.y - center.y) as i128;
    proof {
        lemma_square_le(dx as int, SLOPE_LIMIT as int);
        lemma_square_le(dy as int, SLOPE_LIMIT as int);
        lemma_square_le(nx as int, SLOPE_LIMIT as int);
        lemma_square_le(ny as int, SLOPE_LIMIT as int);
        lemma_mul_magnitude(dx as int, nx as int, SLOPE_LIMIT as int, SLOPE_LIMIT as int);
        lemma_mul_magnitude(dy as int, ny as int, SLOPE_LIMIT as int, SLOPE_LIMIT as int);
    }
    let nn: i128 = nx * nx + ny * ny;
    let dd: i128 = dx * dx + dy * dy;
    let p: i128 = dx * nx + dy * ny;
    let root_of_dd: u128 = isqrt(dd as u128);
    proof {
        assert(root_of_dd <= 0x800_0000) by (nonlinear_arith)
            requires
                0 <= root_of_dd,
                root_of_dd * root_of_dd <= dd,
                dd <= 0x8_0000_0000_0000,
        {
            if root_of_dd > 0x800_0000 {
                assert(root_of_dd * root_of_dd > 0x800_0000 * 0x800_0000);
            }
        }
    }
    let len: i128 = root_of_dd as i128;
    if nn == 0 || len == 0 {
        return None;
    }
    proof {
        lemma_mul_magnitude(nn as int, dx as int, 0x8_0000_0000_0000, SLOPE_LIMIT as int);
        lemma_mul_magnitude(nn as int, dy as int, 0x8_0000_0000_0000, SLOPE_LIMIT as int);
        lemma_mul_magnitude(p as int, nx as int, 0x8_0000_0000_0000, SLOPE_LIMIT as int);
        lemma_mul_magnitude(p as int, ny as int, 0x8_0000_0000_0000, SLOPE_LIMIT as int);
        lemma_mul_magnitude(nn as int, len as int, 0x8_0000_0000_0000, 0x800_0000);
        assert(nn * len > 0) by (nonlinear_arith)
            requires
                nn >= 1,
                len >= 1,
        ;
    }
    let mx: i128 = nn * dx - 2 * (p * nx);
    let my: i128 = nn * dy - 2 * (p * ny);
    let den: i128 = nn * len;
    proof {
        let d = Pos { x: dx as int, y: dy as int };
        let n = Pos { x: nx as int, y: ny as int };
        assert(mirrored(d, n) == Pos { x: mx as int, y: my as int });
        lemma_mul_magnitude(
            REFLECTION_REACH as int,
            mx as int,
            REFLECTION_REACH as int,
            0x30_0000_0000_0000_0000_0000,
        );
        lemma_mul_magnitude(
            REFLECTION_REACH as int,
            my as int,
            REFLECTION_REACH as int,
            0x30_0000_0000_0000_0000_0000,
        );
        lemma_reflected_end_in_range(start@, end@, center@, hit@);
    }
    let reach: i128 = REFLECTION_REACH as i128;
    let far = Point {
        x: div_round(reach * mx, den) as i64,
        y: div_round(reach * my, den) as i64,
    };
    Some(far)
}

} // verus!
