//! Casting rays from the emitter: where a ray leaves the emitter and where
//! it is first aimed, the path of one ray, and the segments of all rays of
//! a pass.

use crate::arith::div_nearest;
use crate::arith::div_round;
use crate::arith::lemma_div_nearest_bound;
use crate::arith::lemma_mul_magnitude;
use crate::geometry::line_between;
use crate::geometry::Circle;
use crate::geometry::Point;
use crate::geometry::Pos;
use crate::geometry::Segment;
use crate::geometry::SegmentModel;
use crate::geometry::LEG_LIMIT;
use crate::geometry::SCENE_LIMIT;
use crate::scene::Scene;
use crate::scene::SceneModel;
use crate::scene::Viewport;
use crate::solver::meets;
use crate::solver::on_circumference;
use crate::tracer::escaping_leg;
use crate::tracer::lemma_clear_path_escapes;
use crate::tracer::lemma_ray_path_len;
use crate::tracer::lemma_trace_chain;
use crate::tracer::lemma_trace_in_range;
use crate::tracer::legs_model;
use crate::tracer::ray_path;
use crate::tracer::trace_ray;
use crate::tracer::Leg;
use crate::tracer::LegModel;
use crate::tracer::MAX_LEGS;
use vstd::prelude::*;

verus! {

/// The integer that stands for one in the components of a [`Direction`]:
/// two to the power 20.
pub const DIRECTION_ONE: i64 = 0x10_0000;

/// The angle of a full turn in the unit of [`ray_angles`]: two to the
/// power 32.
pub const FULL_TURN: u64 = 0x1_0000_0000;

/// The direction of a ray at the angle `t`, measured from the `y` axis
/// towards the `x` axis: `sin` stands for the sine of `t` and `cos` for its
/// cosine, each scaled by [`DIRECTION_ONE`].
#[derive(Clone, Copy, Debug, PartialEq, Eq, Structural)]
pub struct Direction {
    pub sin: i64,
    pub cos: i64,
}

impl Direction {
    /// Neither component exceeds one in magnitude.
    pub open spec fn wf(&self) -> bool {
        &&& -DIRECTION_ONE <= self.sin <= DIRECTION_ONE
        &&& -DIRECTION_ONE <= self.cos <= DIRECTION_ONE
    }

    /// Tells whether the direction is well formed.
    pub fn is_valid(&self) -> (ok: bool)
        ensures
            ok == self.wf(),
    {
        -DIRECTION_ONE <= self.sin && self.sin <= DIRECTION_ONE && -DIRECTION_ONE <= self.cos
            && self.cos <= DIRECTION_ONE
    }
}

/// Every direction of the sequence is well formed.
pub open spec fn directions_wf(directions: Seq<Direction>) -> bool {
    forall|i: int| 0 <= i < directions.len() ==> (#[trigger] directions[i]).wf()
}

/// The point of the emitter's circumference at which the ray of this
/// direction leaves: the centre plus the radius times `(sin, cos)`.
pub open spec fn emission_origin(emitter: Circle, direction: Direction) -> Pos {
    Pos {
        x: emitter.center.x + div_nearest(emitter.radius * direction.sin, DIRECTION_ONE as int),
        y: emitter.center.y + div_nearest(emitter.radius * direction.cos, DIRECTION_ONE as int),
    }
}

/// The point at which the ray of this direction is first aimed: one and a
/// half times the half-extents of the viewport times `(sin, cos)`.
pub open spec fn emission_far(viewport: Viewport, direction: Direction) -> Pos {
    Pos {
        x: div_nearest(3 * (viewport.half_width * direction.sin), 2 * DIRECTION_ONE),
        y: div_nearest(3 * (viewport.half_height * direction.cos), 2 * DIRECTION_ONE),
    }
}

/// The legs of the ray that the emitter sends in this direction.
pub open spec fn cast_path(scene: SceneModel, direction: Direction, reflection_enabled: bool) -> Seq<
    LegModel,
> {
    ray_path(
        scene,
        emission_origin(scene.emitter, direction),
        emission_far(scene.viewport, direction),
        reflection_enabled,
    )
}

/// The segments of a sequence of legs.
pub open spec fn segments_of(legs: Seq<LegModel>) -> Seq<SegmentModel> {
    legs.map_values(|leg: LegModel| leg.segment)
}

/// The models of a sequence of segments.
pub open spec fn segments_model(segments: Seq<Segment>) -> Seq<SegmentModel> {
    segments.map_values(|segment: Segment| segment@)
}

/// The segments of all rays of a pass: those of the first direction first,
/// each ray's in the order of its legs.
pub open spec fn cast_all(scene: SceneModel, directions: Seq<Direction>, reflection_enabled: bool) -> Seq<
    SegmentModel,
>
    decreases directions.len(),
{
    if directions.len() == 0 {
        Seq::empty()
    } else {
        cast_all(scene, directions.drop_last(), reflection_enabled) + segments_of(
            cast_path(scene, directions.last(), reflection_enabled),
        )
    }
}

/// The angle of ray `i` of `ray_count`: the fraction `i / ray_count` of a
/// full turn.
pub open spec fn ray_angle(i: int, ray_count: int) -> int {
    (i * FULL_TURN) / ray_count
}

/// A pass has at least one segment for each ray and at most [`MAX_LEGS`].
/// Without reflection it has exactly one for each.
pub proof fn lemma_cast_all_len(
    scene: SceneModel,
    directions: Seq<Direction>,
    reflection_enabled: bool,
)
    ensures
        directions.len() <= cast_all(scene, directions, reflection_enabled).len() <= MAX_LEGS
            * directions.len(),
        !reflection_enabled ==> cast_all(scene, directions, reflection_enabled).len()
            == directions.len(),
    decreases directions.len(),
{
    if directions.len() > 0 {
        lemma_cast_all_len(scene, directions.drop_last(), reflection_enabled);
        let direction = directions.last();
        lemma_ray_path_len(
            scene,
            emission_origin(scene.emitter, direction),
            emission_far(scene.viewport, direction),
            reflection_enabled,
        );
    }
}

/// Without reflection the segment of each ray is the one leg of its path.
pub proof fn lemma_cast_all_one_leg_each(scene: SceneModel, directions: Seq<Direction>, i: int)
    requires
        0 <= i < directions.len(),
    ensures
        cast_all(scene, directions, false).len() == directions.len(),
        cast_path(scene, directions[i], false).len() == 1,
        cast_all(scene, directions, false)[i] == cast_path(scene, directions[i], false)[0].segment,
    decreases directions.len(),
{
    lemma_cast_all_len(scene, directions, false);
    lemma_cast_all_len(scene, directions.drop_last(), false);
    let direction = directions.last();
    lemma_ray_path_len(
        scene,
        emission_origin(scene.emitter, direction),
        emission_far(scene.viewport, direction),
        false,
    );
    if i < directions.len() - 1 {
        lemma_cast_all_one_leg_each(scene, directions.drop_last(), i);
    }
}

/// A pass is a function of the scene, the directions and the switch alone:
/// two scenes with the same emitter, obstacles and viewport, cast along the
/// same directions, give the same segments.
pub proof fn lemma_cast_all_repeats(
    first: SceneModel,
    second: SceneModel,
    first_directions: Seq<Direction>,
    second_directions: Seq<Direction>,
    reflection_enabled: bool,
)
    requires
        first.emitter == second.emitter,
        first.viewport == second.viewport,
        first.obstacles =~= second.obstacles,
        first_directions =~= second_directions,
    ensures
        cast_all(first, first_directions, reflection_enabled) == cast_all(
            second,
            second_directions,
            reflection_enabled,
        ),
{
}

/// A ray whose first line meets no obstacle has one leg, which ends exactly
/// at the point it was aimed at, with or without reflection.
pub proof fn lemma_cast_path_escapes(
    scene: SceneModel,
    direction: Direction,
    reflection_enabled: bool,
)
    requires
        forall|j: int|
            0 <= j < scene.obstacles.len() ==> !meets(
                line_between(
                    emission_origin(scene.emitter, direction),
                    emission_far(scene.viewport, direction),
                ),
                #[trigger] scene.obstacles[j],
            ),
    ensures
        cast_path(scene, direction, reflection_enabled) == seq![
            escaping_leg(
                emission_origin(scene.emitter, direction),
                emission_far(scene.viewport, direction),
            ),
        ],
{
    lemma_clear_path_escapes(
        scene,
        emission_origin(scene.emitter, direction),
        emission_far(scene.viewport, direction),
        reflection_enabled,
    );
}

/// Every leg of a cast ray that strikes a circle ends on its circumference,
/// as nearly as the grid allows.
pub proof fn lemma_cast_path_ends_on_circles(
    scene: SceneModel,
    direction: Direction,
    reflection_enabled: bool,
    k: int,
)
    requires
        scene.wf(),
        direction.wf(),
        0 <= k < cast_path(scene, direction, reflection_enabled).len(),
    ensures
        cast_path(scene, direction, reflection_enabled)[k].hit matches Some(h) ==> {
            &&& cast_path(scene, direction, reflection_enabled)[k].segment.end == h.point
            &&& on_circumference(h.circle, h.point)
        },
{
    lemma_emission_in_range(scene, direction);
    lemma_trace_in_range(
        scene,
        emission_origin(scene.emitter, direction),
        emission_far(scene.viewport, direction),
        true,
        None,
        reflection_enabled,
        MAX_LEGS as nat,
        k,
    );
}

/// A cast ray never strikes the reflector that it has just left: of two
/// legs in a row the first ends on a circle, the second starts there and
/// does not end on the same reflector.
pub proof fn lemma_cast_path_leaves_its_reflector(
    scene: SceneModel,
    direction: Direction,
    reflection_enabled: bool,
    k: int,
)
    requires
        0 <= k,
        k + 1 < cast_path(scene, direction, reflection_enabled).len(),
    ensures
        ({
            let legs = cast_path(scene, direction, reflection_enabled);
            &&& legs[k].hit matches Some(h)
            &&& legs[k + 1].segment.start == h.point
            &&& (legs[k + 1].hit matches Some(next) ==> next.reflector != h.reflector)
        }),
{
    lemma_trace_chain(
        scene,
        emission_origin(scene.emitter, direction),
        emission_far(scene.viewport, direction),
        true,
        None,
        reflection_enabled,
        MAX_LEGS as nat,
        k,
    );
}

/// The starting point and the first aim of every ray lie within
/// [`LEG_LIMIT`].
pub proof fn lemma_emission_in_range(scene: SceneModel, direction: Direction)
    requires
        scene.wf(),
        direction.wf(),
    ensures
        emission_origin(scene.emitter, direction).within(LEG_LIMIT as int),
        emission_far(scene.viewport, direction).within(LEG_LIMIT as int),
{
    let r = scene.emitter.radius as int;
    let one = DIRECTION_ONE as int;
    lemma_mul_magnitude(r, direction.sin as int, r, one);
    lemma_mul_magnitude(r, direction.cos as int, r, one);
    lemma_div_nearest_bound(r * direction.sin, one, r);
    lemma_div_nearest_bound(r * direction.cos, one, r);
    let w = scene.viewport.half_width as int;
    let h = scene.viewport.half_height as int;
    lemma_mul_magnitude(w, direction.sin as int, SCENE_LIMIT as int, one);
    lemma_mul_magnitude(h, direction.cos as int, SCENE_LIMIT as int, one);
    lemma_div_nearest_bound(3 * (w * direction.sin), 2 * one, 0x60_0000);
    lemma_div_nearest_bound(3 * (h * direction.cos), 2 * one, 0x60_0000);
}

/// Where the ray of this direction leaves the emitter, and where it is
/// first aimed.
pub fn emit(scene: &Scene, direction: &Direction) -> (ends: (Point, Point))
    requires
        scene.wf(),
        direction.wf(),
    ensures
        ends.0@ == emission_origin(scene.emitter, *direction),
        ends.1@ == emission_far(scene.viewport, *direction),
        ends.0@.within(LEG_LIMIT as int),
        ends.1@.within(LEG_LIMIT as int),
{
    let r: i128 = scene.emitter.radius as i128;
    let w: i128 = scene.viewport.half_width as i128;
    let h: i128 = scene.viewport.half_height as i128;
    let sin: i128 = direction.sin as i128;
    let cos: i128 = direction.cos as i128;
    let one: i128 = DIRECTION_ONE as i128;
    proof {
        lemma_emission_in_range(scene@, *direction);
        lemma_mul_magnitude(r as int, sin as int, SCENE_LIMIT as int, one as int);
        lemma_mul_magnitude(r as int, cos as int, SCENE_LIMIT as int, one as int);
        lemma_mul_magnitude(w as int, sin as int, SCENE_LIMIT as int, one as int);
        lemma_mul_magnitude(h as int, cos as int, SCENE_LIMIT as int, one as int);
    }
    let origin = Point {
        x: (scene.emitter.center.x as i128 + div_round(r * sin, one)) as i64,
        y: (scene.emitter.center.y as i128 + div_round(r * cos, one)) as i64,
    };
    let far = Point {
        x: div_round(3 * (w * sin), 2 * one) as i64,
        y: div_round(3 * (h * cos), 2 * one) as i64,
    };
    (origin, far)
}

/// Casts one ray in the given direction and returns its legs in order.
pub fn cast_ray(scene: &Scene, direction: &Direction, reflection_enabled: bool) -> (legs: Vec<Leg>)
    requires
        scene.wf(),
        direction.wf(),
    ensures
        legs_model(legs@) == cast_path(scene@, *direction, reflection_enabled),
        1 <= legs.len() <= MAX_LEGS,
        !reflection_enabled ==> legs.len() == 1,
{
    let (origin, far) = emit(scene, direction);
    trace_ray(scene, origin, far, reflection_enabled)
}

/// Casts one ray in each of the directions and returns the segments of
/// all of them: those of the first direction first, each ray's in the order
/// of its legs. With no direction there is no segment.
pub fn cast_rays(scene: &Scene, directions: &Vec<Direction>, reflection_enabled: bool) -> (segments:
    Vec<Segment>)
    requires
        scene.wf(),
        directions_wf(directions@),
    ensures
        segments_model(segments@) == cast_all(scene@, directions@, reflection_enabled),
        directions.len() <= segments.len() <= MAX_LEGS * directions.len(),
        !reflection_enabled ==> segments.len() == directions.len(),
        directions.len() == 0 ==> segments.len() == 0,
{
    let mut segments: Vec<Segment> = Vec::new();
    let mut i: usize = 0;
    proof {
        assert(directions@.subrange(0, 0) =~= Seq::<Direction>::empty());
        assert(segments_model(segments@) =~= Seq::<SegmentModel>::empty());
    }
    while i < directions.len()
        invariant
            0 <= i <= directions.len(),
            scene.wf(),
            directions_wf(directions@),
            segments_model(segments@) == cast_all(
                scene@,
                directions@.subrange(0, i as int),
                reflection_enabled,
            ),
        decreases directions.len() - i,
    {
        let legs: Vec<Leg> = cast_ray(scene, &directions[i], reflection_enabled);
        let ghost before = segments_model(segments@);
        let ghost path = cast_path(scene@, directions@[i as int], reflection_enabled);
        let mut k: usize = 0;
        while k < legs.len()
            invariant
                0 <= k <= legs.len(),
                legs_model(legs@) == path,
                segments_model(segments@) == before + segments_of(path).subrange(0, k as int),
            decreases legs.len() - k,
        {
            let ghost held = segments_model(segments@);
            segments.push(legs[k].segment);
            proof {
                assert(legs_model(legs@)[k as int] == legs@[k as int]@);
                assert(segments_model(segments@) =~= held.push(legs@[k as int].segment@));
                assert(segments_of(path).subrange(0, k as int + 1) =~= segments_of(path).subrange(
                    0,
                    k as int,
                ).push(path[k as int].segment));
                assert(held.push(path[k as int].segment) =~= before + segments_of(path).subrange(
                    0,
                    k as int + 1,
                ));
            }
            k = k + 1;
        }
        proof {
            let taken = directions@.subrange(0, i as int + 1);
            assert(legs@.len() == path.len());
            assert(segments_of(path).subrange(0, k as int) =~= segments_of(path));
            assert(taken.drop_last() =~= directions@.subrange(0, i as int));
            assert(taken.last() == directions@[i as int]);
        }
        i = i + 1;
    }
    proof {
        assert(directions@.subrange(0, i as int) =~= directions@);
        lemma_cast_all_len(scene@, directions@, reflection_enabled);
        assert(segments_model(segments@).len() == segments@.len());
    }
    segments
}

/// Tells whether every direction is well formed.
pub fn directions_valid(directions: &Vec<Direction>) -> (ok: bool)
    ensures
        ok == directions_wf(directions@),
{
    let mut i: usize = 0;
    while i < directions.len()
        invariant
            0 <= i <= directions.len(),
            forall|j: int| 0 <= j < i ==> (#[trigger] directions@[j]).wf(),
        decreases directions.len() - i,
    {
        if !directions[i].is_valid() {
            assert(!directions@[i as int].wf());
            return false;
        }
        i = i + 1;
    }
    true
}

/// Casts the rays of a pass into any scene: the segments of
/// [`cast_rays`] where the scene and the directions are well formed,
/// `None` where they are not.
pub fn try_cast_rays(scene: &Scene, directions: &Vec<Direction>, reflection_enabled: bool) -> (segments:
    Option<Vec<Segment>>)
    ensures
        segments is Some <==> scene.wf() && directions_wf(directions@),
        segments matches Some(s) ==> {
            &&& segments_model(s@) == cast_all(scene@, directions@, reflection_enabled)
            &&& directions.len() <= s.len() <= MAX_LEGS * directions.len()
            &&& (!reflection_enabled ==> s.len() == directions.len())
        },
{
    if scene.is_valid() && directions_valid(directions) {
        Some(cast_rays(scene, directions, reflection_enabled))
    } else {
        None
    }
}

/// The angles of the rays of a pass, evenly spaced over a full turn: ray
/// `i` of `ray_count` is at the fraction `i / ray_count` of a turn, in units
/// of which [`FULL_TURN`] make a turn. With no ray there is no angle.
pub fn ray_angles(ray_count: u32) -> (angles: Vec<u32>)
    ensures
        angles.len() == ray_count,
        forall|i: int| 0 <= i < ray_count ==> #[trigger] angles[i] == ray_angle(i, ray_count as int),
{
    let mut angles: Vec<u32> = Vec::new();
    let mut i: u32 = 0;
    while i < ray_count
        invariant
            0 <= i <= ray_count,
            angles.len() == i,
            forall|j: int| 0 <= j < i ==> #[trigger] angles[j] == ray_angle(j, ray_count as int),
        decreases ray_count - i,
    {
        let scaled: u64 = (i as u64) * FULL_TURN;
        let angle: u64 = scaled / (ray_count as u64);
        proof {
            assert(scaled == i * FULL_TURN);
            assert(angle < FULL_TURN) by (nonlinear_arith)
                requires
                    angle == scaled / (ray_count as u64),
                    scaled == i * FULL_TURN,
                    0 <= i < ray_count,
                    FULL_TURN > 0,
            {
                assert(scaled < ray_count * FULL_TURN);
                assert(scaled / (ray_count as u64) < FULL_TURN);
            }
        }
        angles.push(angle as u32);
        i = i + 1;
    }
    angles
}

} // verus!
