//! Where a line meets a circle.
//!
//! A line with coefficients `dx`, `dy`, `k` and a circle with centre `c` and
//! radius `r` meet in two points exactly when the squared distance from `c`
//! to the line is below `r * r`. With `e` the line's offset at `c`, `a` the
//! line's `dx * dx + dy * dy` and `q` the square root of the discriminant
//! `r * r * a - e * e`, the two points are
//! `c + (-e * dy ± q * dx, e * dx ± q * dy) / a`.
//! Here `q` is the integer square root and each quotient is rounded to the
//! nearest integer.

use crate::arith::div_nearest;
use crate::arith::div_round;
use crate::arith::isqrt;
use crate::arith::lemma_div_nearest_bound;
use crate::arith::lemma_div_nearest_error;
use crate::arith::lemma_mul_magnitude;
use crate::arith::lemma_mul_regroup;
use crate::arith::lemma_sqrt_floor_exists;
use crate::arith::lemma_square_le;
use crate::arith::lemma_square_sum_bounds;
use crate::arith::sqrt_floor;
use crate::geometry::dist_sq;
use crate::geometry::Circle;
use crate::geometry::Line;
use crate::geometry::LineModel;
use crate::geometry::Point;
use crate::geometry::Pos;
use crate::geometry::SCENE_LIMIT;
use crate::geometry::SLOPE_LIMIT;
use vstd::prelude::*;

verus! {

/// The line passes through the inside of the circle: its squared distance
/// from the centre is below the squared radius.
pub open spec fn meets(line: LineModel, c: Circle) -> bool {
    line.offset(c.center@) * line.offset(c.center@) < c.radius * c.radius * line.norm_sq()
}

/// The discriminant of the quadratic that the line's equation makes of the
/// circle's, scaled by `dx * dx`. It is positive exactly when the two meet.
pub open spec fn discriminant(line: LineModel, c: Circle) -> int {
    c.radius * c.radius * line.norm_sq() - line.offset(c.center@) * line.offset(c.center@)
}

/// One of the two points in which the line meets the circle: with `sign`
/// -1 the one that comes first along the line's direction, with `sign` 1 the
/// other.
pub open spec fn root(line: LineModel, c: Circle, sign: int) -> Pos {
    let e = line.offset(c.center@);
    let q = sqrt_floor(discriminant(line, c));
    let a = line.norm_sq();
    Pos {
        x: c.center.x + div_nearest(sign * (q * line.dx) - e * line.dy, a),
        y: c.center.y + div_nearest(sign * (q * line.dy) + e * line.dx, a),
    }
}

/// The point `p` of the line lies behind `start`: it has the smaller `x`,
/// or, on a vertical line, the smaller `y`.
pub open spec fn behind(line: LineModel, p: Pos, start: Pos) -> bool {
    if line.is_vertical() {
        p.y < start.y
    } else {
        p.x < start.x
    }
}

/// The point in which a ray that travels along `line` from `start` strikes
/// the circle: of the two points of intersection the one with the smaller
/// `x` (on a vertical line, the smaller `y`), unless that one lies behind
/// `start`, in which case the other. `None` where the line does not meet
/// the circle.
pub open spec fn intersection(line: LineModel, c: Circle, start: Pos) -> Option<Pos> {
    if !meets(line, c) {
        None
    } else if behind(line, root(line, c, -1), start) {
        Some(root(line, c, 1))
    } else {
        Some(root(line, c, -1))
    }
}

/// The vector `(t * dx - e * dy, t * dy + e * dx)` has squared length
/// `(t * t + e * e) * (dx * dx + dy * dy)`.
pub proof fn lemma_chord_length(dx: int, dy: int, e: int, t: int)
    ensures
        (t * dx - e * dy) * (t * dx - e * dy) + (t * dy + e * dx) * (t * dy + e * dx) == (t * t + e
            * e) * (dx * dx + dy * dy),
{
    let a = dx * dx + dy * dy;
    let u = t * dx - e * dy;
    let v = t * dy + e * dx;
    let p = t * dx;
    let s = e * dy;
    let m = t * dy;
    let n = e * dx;
    assert(u * u == p * p - 2 * (p * s) + s * s) by (nonlinear_arith)
        requires
            u == p - s,
    ;
    assert(v * v == m * m + 2 * (m * n) + n * n) by (nonlinear_arith)
        requires
            v == m + n,
    ;
    lemma_mul_regroup(t, dx, e, dy);
    lemma_mul_regroup(t, dy, e, dx);
    assert((t * e) * (dx * dy) == (t * e) * (dy * dx)) by (nonlinear_arith);
    lemma_mul_regroup(t, dx, t, dx);
    lemma_mul_regroup(e, dy, e, dy);
    lemma_mul_regroup(t, dy, t, dy);
    lemma_mul_regroup(e, dx, e, dx);
    assert((t * t + e * e) * a == (t * t) * (dx * dx) + (t * t) * (dy * dy) + (e * e) * (dx * dx)
        + (e * e) * (dy * dy)) by (nonlinear_arith)
        requires
            a == dx * dx + dy * dy,
    ;
}

/// The exact offsets of a point of intersection from the centre have
/// magnitude at most `r * a`, where `a` is `dx * dx + dy * dy` and
/// `t * t + e * e <= r * r * a`.
pub proof fn lemma_chord_offsets(dx: int, dy: int, e: int, t: int, r: int)
    requires
        0 <= r,
        t * t + e * e <= r * r * (dx * dx + dy * dy),
    ensures
        -(r * (dx * dx + dy * dy)) <= t * dx - e * dy <= r * (dx * dx + dy * dy),
        -(r * (dx * dx + dy * dy)) <= t * dy + e * dx <= r * (dx * dx + dy * dy),
{
    let a = dx * dx + dy * dy;
    let u = t * dx - e * dy;
    let v = t * dy + e * dx;
    let b = r * a;
    assert(a >= 0) by (nonlinear_arith)
        requires
            a == dx * dx + dy * dy,
    ;
    lemma_chord_length(dx, dy, e, t);
    assert((t * t + e * e) * a <= b * b) by (nonlinear_arith)
        requires
            a >= 0,
            t * t + e * e <= r * r * a,
            b == r * a,
    {
        assert((t * t + e * e) * a <= (r * r * a) * a);
        assert((r * r * a) * a == (r * a) * (r * a));
    }
    assert(b >= 0) by (nonlinear_arith)
        requires
            b == r * a,
            r >= 0,
            a >= 0,
    ;
    lemma_square_sum_bounds(u, v, b);
    lemma_square_sum_bounds(v, u, b);
}

/// Both points of intersection lie in the square that bounds the circle.
pub proof fn lemma_root_in_box(line: LineModel, c: Circle, sign: int)
    requires
        meets(line, c),
        0 <= c.radius,
        sign == 1 || sign == -1,
    ensures
        c.center.x - c.radius <= root(line, c, sign).x <= c.center.x + c.radius,
        c.center.y - c.radius <= root(line, c, sign).y <= c.center.y + c.radius,
{
    let e = line.offset(c.center@);
    let a = line.norm_sq();
    let r = c.radius as int;
    let d = discriminant(line, c);
    lemma_sqrt_floor_exists(d);
    let q = sqrt_floor(d);
    lemma_meets_norm_positive(line, c);
    let t = sign * q;
    assert(t * t == q * q) by (nonlinear_arith)
        requires
            t == sign * q,
            sign == 1 || sign == -1,
    ;
    lemma_chord_offsets(line.dx, line.dy, e, t, r);
    assert(t * line.dx == sign * (q * line.dx)) by (nonlinear_arith)
        requires
            t == sign * q,
    ;
    assert(t * line.dy == sign * (q * line.dy)) by (nonlinear_arith)
        requires
            t == sign * q,
    ;
    lemma_div_nearest_bound(sign * (q * line.dx) - e * line.dy, a, r);
    lemma_div_nearest_bound(sign * (q * line.dy) + e * line.dx, a, r);
}

/// A line that meets a circle is the line of two distinct points.
pub proof fn lemma_meets_norm_positive(line: LineModel, c: Circle)
    requires
        meets(line, c),
    ensures
        line.norm_sq() > 0,
        discriminant(line, c) > 0,
{
    let e = line.offset(c.center@);
    let r = c.radius as int;
    let a = line.norm_sq();
    assert(a > 0) by (nonlinear_arith)
        requires
            e * e < r * r * a,
            a == line.dx * line.dx + line.dy * line.dy,
    {
        assert(e * e >= 0);
        assert(a >= 0);
        if a == 0 {
            assert(r * r * a == 0);
        }
    }
}

/// The point lies on the circumference of the circle as nearly as the grid
/// allows: its squared distance from the centre is between `r * r - 4 * r`
/// and `r * r + 2 * r`.
pub open spec fn on_circumference(c: Circle, p: Pos) -> bool {
    c.radius * c.radius - 4 * c.radius <= dist_sq(p, c.center@) <= c.radius * c.radius + 2
        * c.radius
}

/// Of two products with the same positive factor the smaller has the
/// smaller other factor.
proof fn lemma_cancel(m: int, n: int, a: int)
    by (nonlinear_arith)
    requires
        a > 0,
        m * a <= n * a,
    ensures
        m <= n,
{
    if m > n {
        assert(m * a >= (n + 1) * a);
    }
}

/// A point whose exact offsets `(u / a, v / a)` from a centre lie on a
/// chord of the circle of radius `r`, shortened by the rounding of the
/// square root `q`, and whose coordinates `(x, y)` are those offsets
/// rounded, is within the bounds of [`on_circumference`].
proof fn lemma_rounded_offsets_near_circle(
    a: int,
    r: int,
    q: int,
    w: int,
    u: int,
    v: int,
    x: int,
    y: int,
)
    requires
        a > 0,
        r >= 0,
        0 <= q <= r * a,
        u * u + v * v == w * a,
        r * r * a - 2 * q <= w <= r * r * a,
        -(r * a) <= u <= r * a,
        -(r * a) <= v <= r * a,
        -a <= 2 * (u - x * a) < a,
        -a <= 2 * (v - y * a) < a,
    ensures
        r * r - 4 * r <= x * x + y * y <= r * r + 2 * r,
{
    let aa = a * a;
    let sx = x * a - u;
    let sy = y * a - v;
    let norm = u * u + v * v;
    let raa = r * aa;
    let rraa = (r * r) * aa;
    assert(aa > 0) by (nonlinear_arith)
        requires
            a > 0,
            aa == a * a,
    ;
    assert((r * a) * a == raa) by (nonlinear_arith)
        requires
            raa == r * (a * a),
    ;
    assert((r * r * a) * a == rraa) by (nonlinear_arith)
        requires
            rraa == (r * r) * (a * a),
    ;
    // The exact point is on the chord: its squared length is at most that
    // of the radius and falls short of it by at most `2 * q * a`.
    assert(norm <= rraa) by (nonlinear_arith)
        requires
            norm == w * a,
            w <= r * r * a,
            a > 0,
            (r * r * a) * a == rraa,
    ;
    assert(q * a <= raa) by (nonlinear_arith)
        requires
            q <= r * a,
            a > 0,
            (r * a) * a == raa,
    ;
    assert(norm >= rraa - 2 * raa) by (nonlinear_arith)
        requires
            norm == w * a,
            w >= r * r * a - 2 * q,
            a > 0,
            (r * r * a) * a == rraa,
            q * a <= raa,
    {
        assert(w * a >= (r * r * a - 2 * q) * a);
        assert((r * r * a - 2 * q) * a == (r * r * a) * a - 2 * (q * a));
    }
    // Rounding moves each coordinate by at most half a unit.
    lemma_mul_magnitude(u, 2 * sx, r * a, a);
    lemma_mul_magnitude(v, 2 * sy, r * a, a);
    lemma_square_le(2 * sx, a);
    lemma_square_le(2 * sy, a);
    assert((2 * sx) * (2 * sx) == 4 * (sx * sx)) by (nonlinear_arith);
    assert((2 * sy) * (2 * sy) == 4 * (sy * sy)) by (nonlinear_arith);
    assert(u * (2 * sx) == 2 * (u * sx)) by (nonlinear_arith);
    assert(v * (2 * sy) == 2 * (v * sy)) by (nonlinear_arith);
    assert((x * a) * (x * a) == u * u + 2 * (u * sx) + sx * sx) by (nonlinear_arith)
        requires
            sx == x * a - u,
    ;
    assert((y * a) * (y * a) == v * v + 2 * (v * sy) + sy * sy) by (nonlinear_arith)
        requires
            sy == y * a - v,
    ;
    lemma_mul_regroup(x, a, x, a);
    lemma_mul_regroup(y, a, y, a);
    let sum = x * x + y * y;
    assert(sum * aa == (x * x) * aa + (y * y) * aa) by (nonlinear_arith)
        requires
            sum == x * x + y * y,
    ;
    assert(4 * (sum * aa) <= (4 * (r * r) + 8 * r + 2) * aa) by (nonlinear_arith)
        requires
            sum * aa == norm + 2 * (u * sx) + 2 * (v * sy) + sx * sx + sy * sy,
            norm <= rraa,
            2 * (u * sx) <= raa,
            2 * (v * sy) <= raa,
            4 * (sx * sx) <= aa,
            4 * (sy * sy) <= aa,
            raa == r * aa,
            rraa == (r * r) * aa,
    ;
    assert((4 * sum) * aa == 4 * (sum * aa)) by (nonlinear_arith);
    lemma_cancel(4 * sum, 4 * (r * r) + 8 * r + 2, aa);
    assert((r * r - 4 * r) * aa <= sum * aa) by (nonlinear_arith)
        requires
            sum * aa == norm + 2 * (u * sx) + 2 * (v * sy) + sx * sx + sy * sy,
            norm >= rraa - 2 * raa,
            2 * (u * sx) >= -raa,
            2 * (v * sy) >= -raa,
            sx * sx >= 0,
            sy * sy >= 0,
            raa == r * aa,
            rraa == (r * r) * aa,
    ;
    lemma_cancel(r * r - 4 * r, sum, aa);
}

/// Both points of intersection lie on the circumference as nearly as the
/// grid allows.
pub proof fn lemma_root_on_circumference(line: LineModel, c: Circle, sign: int)
    requires
        meets(line, c),
        0 <= c.radius,
        sign == 1 || sign == -1,
    ensures
        on_circumference(c, root(line, c, sign)),
{
    let e = line.offset(c.center@);
    let a = line.norm_sq();
    let r = c.radius as int;
    let d = discriminant(line, c);
    lemma_meets_norm_positive(line, c);
    lemma_sqrt_floor_exists(d);
    let q = sqrt_floor(d);
    let t = sign * q;
    assert(t * t == q * q) by (nonlinear_arith)
        requires
            t == sign * q,
            sign == 1 || sign == -1,
    ;
    assert(t * line.dx == sign * (q * line.dx)) by (nonlinear_arith)
        requires
            t == sign * q,
    ;
    assert(t * line.dy == sign * (q * line.dy)) by (nonlinear_arith)
        requires
            t == sign * q,
    ;
    let u = t * line.dx - e * line.dy;
    let v = t * line.dy + e * line.dx;
    let x = div_nearest(u, a);
    let y = div_nearest(v, a);
    let w = q * q + e * e;
    lemma_chord_length(line.dx, line.dy, e, t);
    lemma_chord_offsets(line.dx, line.dy, e, t, r);
    lemma_div_nearest_error(u, a);
    lemma_div_nearest_error(v, a);
    assert(w >= r * r * a - 2 * q) by (nonlinear_arith)
        requires
            w == q * q + e * e,
            d == r * r * a - e * e,
            d < (q + 1) * (q + 1),
    ;
    assert(q * q <= r * r * a) by (nonlinear_arith)
        requires
            q * q <= d,
            d == r * r * a - e * e,
    {
        assert(e * e >= 0);
    }
    assert(q <= r * a) by (nonlinear_arith)
        requires
            0 <= q,
            0 <= r,
            a >= 1,
            q * q <= r * r * a,
    {
        assert(r * r * a <= (r * a) * (r * a)) by {
            assert((r * a) * (r * a) == (r * r * a) * a);
            assert(r * r * a >= 0);
        }
        if q > r * a {
            assert(q * q > (r * a) * (r * a));
        }
    }
    lemma_rounded_offsets_near_circle(a, r, q, w, u, v, x, y);
    let p = root(line, c, sign);
    assert(p.x - c.center.x == x);
    assert(p.y - c.center.y == y);
}

/// The point in which a ray strikes a circle lies on the circumference as
/// nearly as the grid allows.
pub proof fn lemma_intersection_on_circumference(line: LineModel, c: Circle, start: Pos)
    requires
        0 <= c.radius,
    ensures
        intersection(line, c, start) matches Some(p) ==> on_circumference(c, p),
{
    if meets(line, c) {
        lemma_root_on_circumference(line, c, -1);
        lemma_root_on_circumference(line, c, 1);
    }
}

/// The point in which a ray that travels along `line` from `start` strikes
/// `circle`, if the line meets the circle.
pub fn intersect(line: &Line, circle: &Circle, start: &Point) -> (hit: Option<Point>)
    requires
        line.wf(),
        circle.wf(),
    ensures
        match hit {
            Some(p) => intersection(line@, *circle, start@) == Some(p@),
            None => intersection(line@, *circle, start@) is None,
        },
        hit is Some <==> meets(line@, *circle),
{
    let dx: i128 = line.dx as i128;
    let dy: i128 = line.dy as i128;
    let cx: i128 = circle.center.x as i128;
    let cy: i128 = circle.center.y as i128;
    let r: i128 = circle.radius as i128;
    proof {
        lemma_mul_magnitude(dy as int, cx as int, SLOPE_LIMIT as int, SCENE_LIMIT as int);
        lemma_mul_magnitude(dx as int, cy as int, SLOPE_LIMIT as int, SCENE_LIMIT as int);
        lemma_square_le(dx as int, SLOPE_LIMIT as int);
        lemma_square_le(dy as int, SLOPE_LIMIT as int);
        lemma_square_le(r as int, SCENE_LIMIT as int);
    }
    let a: i128 = dx * dx + dy * dy;
    let e: i128 = dy * cx - dx * cy + (line.k as i128);
    proof {
        lemma_square_le(e as int, 0x8_0000_0000_0000);
        lemma_mul_magnitude(
            (r * r) as int,
            a as int,
            0x1000_0000_0000,
            0x8_0000_0000_0000,
        );
        assert(r * r * a == (r * r) * a);
    }
    let ee: i128 = e * e;
    let rra: i128 = (r * r) * a;
    if !(ee < rra) {
        return None;
    }
    let disc: i128 = rra - ee;
    let root_of_disc: u128 = isqrt(disc as u128);
    proof {
        lemma_meets_norm_positive(line@, *circle);
        assert(disc == discriminant(line@, *circle));
        assert(root_of_disc <= 0x1_0000_0000_0000) by (nonlinear_arith)
            requires
                0 <= root_of_disc,
                root_of_disc * root_of_disc <= disc,
                disc <= 0x1000_0000_0000 * 0x8_0000_0000_0000,
        {
            if root_of_disc > 0x1_0000_0000_0000 {
                assert(root_of_disc * root_of_disc > 0x1_0000_0000_0000 * 0x1_0000_0000_0000);
            }
        }
    }
    let q: i128 = root_of_disc as i128;
    let qdx: i128 = mul_within(q, dx);
    let qdy: i128 = mul_within(q, dy);
    let edx: i128 = mul_within(e, dx);
    let edy: i128 = mul_within(e, dy);
    proof {
        assert(q == sqrt_floor(discriminant(line@, *circle)));
        assert(-1 * (q * dx) == -qdx);
        assert(-1 * (q * dy) == -qdy);
        assert(1 * (q * dx) == qdx);
        assert(1 * (q * dy) == qdy);
        lemma_root_in_box(line@, *circle, -1);
        lemma_root_in_box(line@, *circle, 1);
    }
    let lower = Point {
        x: (cx + div_round(-qdx - edy, a)) as i64,
        y: (cy + div_round(-qdy + edx, a)) as i64,
    };
    assert(lower@ == root(line@, *circle, -1));
    let is_behind = if line.dx == 0 {
        lower.y < start.y
    } else {
        lower.x < start.x
    };
    if is_behind {
        let upper = Point {
            x: (cx + div_round(qdx - edy, a)) as i64,
            y: (cy + div_round(qdy + edx, a)) as i64,
        };
        assert(upper@ == root(line@, *circle, 1));
        Some(upper)
    } else {
        Some(lower)
    }
}

/// The product of two factors of magnitude at most two to the power 51.
fn mul_within(x: i128, y: i128) -> (p: i128)
    requires
        -0x8_0000_0000_0000 <= x <= 0x8_0000_0000_0000,
        -0x8_0000_0000_0000 <= y <= 0x8_0000_0000_0000,
    ensures
        p == x * y,
        -0x40_0000_0000_0000_0000_0000_0000 <= p <= 0x40_0000_0000_0000_0000_0000_0000,
{
    proof {
        lemma_mul_magnitude(x as int, y as int, 0x8_0000_0000_0000, 0x8_0000_0000_0000);
    }
    x * y
}

} // verus!
