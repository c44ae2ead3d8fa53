//! Points, circles and lines on the integer grid.
//!
//! Every length is a fixed-point number: the integer [`UNIT`] stands for the
//! length one. Contracts are stated over the mathematical models [`Pos`] and
//! [`LineModel`], whose coordinates are unbounded integers.

use crate::arith::lemma_mul_magnitude;
use crate::arith::lemma_square_le;
use vstd::prelude::*;

verus! {

/// The integer that stands for the length one.
pub const UNIT: i64 = 1024;

/// Bound on the coordinates of a circle's centre, on its radius and on the
/// half-extents of the viewport: two to the power 22.
pub const SCENE_LIMIT: i64 = 0x40_0000;

/// Bound on the coordinates of the end points of a leg: two to the power 24.
pub const LEG_LIMIT: i64 = 0x100_0000;

/// Bound on the coordinate differences `dx` and `dy` of a line.
pub const SLOPE_LIMIT: i64 = 0x200_0000;

/// Bound on the constant term `k` of a line.
pub const INTERCEPT_LIMIT: i64 = 0x4_0000_0000_0000;

/// A point of the plane with integer coordinates: the model of [`Point`].
pub struct Pos {
    pub x: int,
    pub y: int,
}

impl Pos {
    /// Both coordinates have magnitude at most `limit`.
    pub open spec fn within(self, limit: int) -> bool {
        &&& -limit <= self.x <= limit
        &&& -limit <= self.y <= limit
    }
}

/// A point of the plane.
#[derive(Clone, Copy, Debug, PartialEq, Eq, Structural)]
pub struct Point {
    pub x: i64,
    pub y: i64,
}

impl Point {
    /// Tells whether both coordinates are within [`LEG_LIMIT`].
    pub fn in_range(&self) -> (ok: bool)
        ensures
            ok == self@.within(LEG_LIMIT as int),
    {
        -LEG_LIMIT <= self.x && self.x <= LEG_LIMIT && -LEG_LIMIT <= self.y && self.y <= LEG_LIMIT
    }
}

impl View for Point {
    type V = Pos;

    open spec fn view(&self) -> Pos {
        Pos { x: self.x as int, y: self.y as int }
    }
}

/// The identity of an obstacle, unique among the obstacles of a scene.
#[derive(Clone, Copy, Debug, PartialEq, Eq, Structural)]
pub struct ObstacleId(pub u64);

/// A circle. Its `id` tells obstacles apart; on the emitter it is not read.
#[derive(Clone, Copy, Debug, PartialEq, Eq, Structural)]
pub struct Circle {
    pub center: Point,
    pub radius: i64,
    pub id: ObstacleId,
}

impl Circle {
    /// The centre lies within [`SCENE_LIMIT`] and the radius is between zero
    /// and [`SCENE_LIMIT`].
    pub open spec fn wf(&self) -> bool {
        &&& self.center@.within(SCENE_LIMIT as int)
        &&& 0 <= self.radius <= SCENE_LIMIT
    }

    /// The point lies inside the circle, off its circumference.
    pub open spec fn covers(&self, p: Pos) -> bool {
        dist_sq(p, self.center@) < self.radius * self.radius
    }

    /// Tells whether the point lies inside the circle.
    pub fn contains(&self, p: &Point) -> (inside: bool)
        requires
            self.wf(),
            p@.within(LEG_LIMIT as int),
        ensures
            inside == self.covers(p@),
    {
        proof {
            lemma_square_le(self.radius as int, SCENE_LIMIT as int);
        }
        distance_sq(p, &self.center) < self.radius * self.radius
    }

    /// Tells whether the circle is well formed.
    pub fn is_valid(&self) -> (ok: bool)
        ensures
            ok == self.wf(),
    {
        -SCENE_LIMIT <= self.center.x && self.center.x <= SCENE_LIMIT && -SCENE_LIMIT
            <= self.center.y && self.center.y <= SCENE_LIMIT && 0 <= self.radius && self.radius
            <= SCENE_LIMIT
    }
}

/// One straight piece of a ray's path.
#[derive(Clone, Copy, Debug, PartialEq, Eq, Structural)]
pub struct Segment {
    pub start: Point,
    pub end: Point,
}

/// The model of a [`Segment`].
pub struct SegmentModel {
    pub start: Pos,
    pub end: Pos,
}

impl View for Segment {
    type V = SegmentModel;

    open spec fn view(&self) -> SegmentModel {
        SegmentModel { start: self.start@, end: self.end@ }
    }
}

/// The squared Euclidean distance between two points.
pub open spec fn dist_sq(a: Pos, b: Pos) -> int {
    (a.x - b.x) * (a.x - b.x) + (a.y - b.y) * (a.y - b.y)
}

/// The line of all points `(x, y)` with `dx * y == dy * x + k`: the model of
/// [`Line`].
///
/// Where `dx` is not zero this is the line of slope `dy / dx` and intercept
/// `k / dx`. Where `dx` is zero and `dy` is not, it is the vertical line at
/// `x == -k / dy`, which the slope and intercept cannot express.
pub struct LineModel {
    pub dx: int,
    pub dy: int,
    pub k: int,
}

impl LineModel {
    /// The point lies on the line.
    pub open spec fn contains(self, p: Pos) -> bool {
        self.dx * p.y == self.dy * p.x + self.k
    }

    /// The direction `(dx, dy)` points towards larger `x`, or, on a vertical
    /// line, towards larger `y`.
    pub open spec fn oriented(self) -> bool {
        self.dx > 0 || (self.dx == 0 && self.dy >= 0)
    }

    /// The line is vertical: it has no slope.
    pub open spec fn is_vertical(self) -> bool {
        self.dx == 0
    }

    /// `dx * dx + dy * dy`, which is `slope * slope + 1` scaled by `dx * dx`.
    pub open spec fn norm_sq(self) -> int {
        self.dx * self.dx + self.dy * self.dy
    }

    /// `dy * x - dx * y + k`, which is `slope * x - y + intercept` scaled by
    /// `dx`. It is zero exactly on the line.
    pub open spec fn offset(self, p: Pos) -> int {
        self.dy * p.x - self.dx * p.y + self.k
    }
}

/// The line through `p1` and `p2`, oriented. Where the two points coincide
/// all three coefficients are zero.
pub open spec fn line_between(p1: Pos, p2: Pos) -> LineModel {
    let dx = p2.x - p1.x;
    let dy = p2.y - p1.y;
    let k = dx * p1.y - dy * p1.x;
    if dx > 0 || (dx == 0 && dy >= 0) {
        LineModel { dx: dx, dy: dy, k: k }
    } else {
        LineModel { dx: -dx, dy: -dy, k: -k }
    }
}

/// A line in the plane, held by the coefficients of `dx * y == dy * x + k`.
#[derive(Clone, Copy, Debug, PartialEq, Eq, Structural)]
pub struct Line {
    pub dx: i64,
    pub dy: i64,
    pub k: i64,
}

impl View for Line {
    type V = LineModel;

    open spec fn view(&self) -> LineModel {
        LineModel { dx: self.dx as int, dy: self.dy as int, k: self.k as int }
    }
}

impl Line {
    /// The line is oriented and its coefficients are within their limits.
    pub open spec fn wf(&self) -> bool {
        &&& self@.oriented()
        &&& -SLOPE_LIMIT <= self.dx <= SLOPE_LIMIT
        &&& -SLOPE_LIMIT <= self.dy <= SLOPE_LIMIT
        &&& -INTERCEPT_LIMIT <= self.k <= INTERCEPT_LIMIT
    }
}

/// The line through two points passes through both of them.
pub proof fn lemma_line_contains_its_points(p1: Pos, p2: Pos)
    ensures
        line_between(p1, p2).contains(p1),
        line_between(p1, p2).contains(p2),
        line_between(p1, p2).oriented(),
{
    let dx = p2.x - p1.x;
    let dy = p2.y - p1.y;
    assert(dx * p2.y == dy * p2.x + (dx * p1.y - dy * p1.x)) by (nonlinear_arith)
        requires
            dx == p2.x - p1.x,
            dy == p2.y - p1.y,
    ;
    assert((-dx) * p2.y == (-dy) * p2.x + -(dx * p1.y - dy * p1.x)) by (nonlinear_arith)
        requires
            dx * p2.y == dy * p2.x + (dx * p1.y - dy * p1.x),
    ;
    assert((-dx) * p1.y == (-dy) * p1.x + -(dx * p1.y - dy * p1.x)) by (nonlinear_arith);
}

/// The squared Euclidean distance between `a` and `b`.
pub fn distance_sq(a: &Point, b: &Point) -> (d: i64)
    requires
        a@.within(LEG_LIMIT as int),
        b@.within(LEG_LIMIT as int),
    ensures
        d == dist_sq(a@, b@),
{
    let dx: i64 = a.x - b.x;
    let dy: i64 = a.y - b.y;
    proof {
        lemma_square_le(dx as int, SLOPE_LIMIT as int);
        lemma_square_le(dy as int, SLOPE_LIMIT as int);
    }
    dx * dx + dy * dy
}

/// The line through `p1` and `p2`.
pub fn line_through(p1: &Point, p2: &Point) -> (line: Line)
    requires
        p1@.within(LEG_LIMIT as int),
        p2@.within(LEG_LIMIT as int),
    ensures
        line@ == line_between(p1@, p2@),
        line@.contains(p1@),
        line@.contains(p2@),
        line.wf(),
{
    let dx: i64 = p2.x - p1.x;
    let dy: i64 = p2.y - p1.y;
    proof {
        lemma_line_contains_its_points(p1@, p2@);
        lemma_mul_magnitude(dx as int, p1.y as int, SLOPE_LIMIT as int, LEG_LIMIT as int);
        lemma_mul_magnitude(dy as int, p1.x as int, SLOPE_LIMIT as int, LEG_LIMIT as int);
    }
    let k: i64 = dx * p1.y - dy * p1.x;
    if dx > 0 || (dx == 0 && dy >= 0) {
        Line { dx: dx, dy: dy, k: k }
    } else {
        Line { dx: -dx, dy: -dy, k: -k }
    }
}

/// The squared distance from `center` to the line, as the fraction
/// `num / den`: `num` is the square of the line's offset at `center` and
/// `den` is `dx * dx + dy * dy`. On the line through a single point both are
/// zero.
pub fn perp_distance_sq(line: &Line, center: &Point) -> (ratio: (i128, i128))
    requires
        line.wf(),
        center@.within(SCENE_LIMIT as int),
    ensures
        ratio.0 == line@.offset(center@) * line@.offset(center@),
        ratio.1 == line@.norm_sq(),
{
    let dx: i128 = line.dx as i128;
    let dy: i128 = line.dy as i128;
    proof {
        lemma_mul_magnitude(dy as int, center.x as int, SLOPE_LIMIT as int, SCENE_LIMIT as int);
        lemma_mul_magnitude(dx as int, center.y as int, SLOPE_LIMIT as int, SCENE_LIMIT as int);
        lemma_square_le(dx as int, SLOPE_LIMIT as int);
        lemma_square_le(dy as int, SLOPE_LIMIT as int);
    }
    let e: i128 = dy * (center.x as i128) - dx * (center.y as i128) + (line.k as i128);
    proof {
        lemma_square_le(e as int, 0x8_0000_0000_0000);
    }
    (e * e, dx * dx + dy * dy)
}

} // verus!
