//! The path of one ray: a leg from the emitter, then, where reflection is
//! on, one more leg after each reflection, up to [`MAX_LEGS`] legs.

use crate::geometry::line_between;
use crate::geometry::Point;
use crate::geometry::Pos;
use crate::geometry::Segment;
use crate::geometry::SegmentModel;
use crate::geometry::LEG_LIMIT;
use crate::reflection::lemma_reflected_end_in_range;
use crate::reflection::reflect;
use crate::reflection::reflected_end;
use crate::scene::Scene;
use crate::scene::SceneModel;
use crate::selector::ahead;
use crate::selector::lemma_candidate_is_struck;
use crate::selector::lemma_nearest_excludes_last;
use crate::selector::lemma_nearest_in_range;
use crate::selector::lemma_nothing_met_nothing_struck;
use crate::selector::nearest;
use crate::selector::nearest_hit;
use crate::selector::Hit;
use crate::selector::HitModel;
use crate::selector::Reflector;
use crate::solver::meets;
use crate::solver::on_circumference;
use vstd::prelude::*;

verus! {

/// The largest number of legs of one ray.
pub const MAX_LEGS: usize = 10;

/// One leg of a ray's path: its segment and, where it ends on a circle,
/// the hit. A leg without a hit ends at the point it was aimed at.
#[derive(Clone, Copy, Debug, PartialEq, Eq, Structural)]
pub struct Leg {
    pub segment: Segment,
    pub hit: Option<Hit>,
}

/// The model of a [`Leg`].
pub struct LegModel {
    pub segment: SegmentModel,
    pub hit: Option<HitModel>,
}

impl View for Leg {
    type V = LegModel;

    open spec fn view(&self) -> LegModel {
        LegModel {
            segment: self.segment@,
            hit: match self.hit {
                Some(h) => Some(h@),
                None => None,
            },
        }
    }
}

/// The models of a sequence of legs.
pub open spec fn legs_model(legs: Seq<Leg>) -> Seq<LegModel> {
    legs.map_values(|leg: Leg| leg@)
}

/// The leg from `start` that was aimed at `end` and struck nothing.
pub open spec fn escaping_leg(start: Pos, end: Pos) -> LegModel {
    LegModel { segment: SegmentModel { start: start, end: end }, hit: None }
}

/// The leg from `start` that ends on a circle.
pub open spec fn striking_leg(start: Pos, hit: HitModel) -> LegModel {
    LegModel { segment: SegmentModel { start: start, end: hit.point }, hit: Some(hit) }
}

/// The legs of the ray that is at `start`, aimed at `end`, with `budget`
/// legs left.
///
/// A leg that strikes nothing ends at `end` and is the last. A leg that
/// strikes a circle ends there; it is the last where reflection is off,
/// where the budget is used up, or where the point struck is the circle's
/// centre. Otherwise the next leg starts at the point struck, aimed at the
/// reflected end, and cannot strike the circle it has just left.
pub open spec fn trace(
    scene: SceneModel,
    start: Pos,
    end: Pos,
    first_leg: bool,
    last: Option<Reflector>,
    reflection_enabled: bool,
    budget: nat,
) -> Seq<LegModel>
    decreases budget,
{
    if budget == 0 {
        Seq::empty()
    } else {
        match nearest(scene, start, end, first_leg, last) {
            None => seq![escaping_leg(start, end)],
            Some(h) => {
                let leg = striking_leg(start, h);
                if !reflection_enabled || budget == 1 {
                    seq![leg]
                } else {
                    match reflected_end(start, end, h.circle.center@, h.point) {
                        None => seq![leg],
                        Some(far) => seq![leg] + trace(
                            scene,
                            h.point,
                            far,
                            false,
                            Some(h.reflector),
                            reflection_enabled,
                            (budget - 1) as nat,
                        ),
                    }
                }
            },
        }
    }
}

/// The legs of the ray that leaves the emitter at `origin`, aimed at `far`.
pub open spec fn ray_path(scene: SceneModel, origin: Pos, far: Pos, reflection_enabled: bool) -> Seq<
    LegModel,
> {
    trace(scene, origin, far, true, None, reflection_enabled, MAX_LEGS as nat)
}

/// A ray has at least one leg and at most as many as its budget.
pub proof fn lemma_trace_len(
    scene: SceneModel,
    start: Pos,
    end: Pos,
    first_leg: bool,
    last: Option<Reflector>,
    reflection_enabled: bool,
    budget: nat,
)
    requires
        budget >= 1,
    ensures
        1 <= trace(scene, start, end, first_leg, last, reflection_enabled, budget).len() <= budget,
        !reflection_enabled ==> trace(
            scene,
            start,
            end,
            first_leg,
            last,
            reflection_enabled,
            budget,
        ).len() == 1,
    decreases budget,
{
    match nearest(scene, start, end, first_leg, last) {
        None => {},
        Some(h) => {
            if reflection_enabled && budget > 1 {
                match reflected_end(start, end, h.circle.center@, h.point) {
                    None => {},
                    Some(far) => {
                        lemma_trace_len(
                            scene,
                            h.point,
                            far,
                            false,
                            Some(h.reflector),
                            reflection_enabled,
                            (budget - 1) as nat,
                        );
                    },
                }
            }
        },
    }
}

/// No ray has more than [`MAX_LEGS`] legs, and without reflection every
/// ray has exactly one.
pub proof fn lemma_ray_path_len(scene: SceneModel, origin: Pos, far: Pos, reflection_enabled: bool)
    ensures
        1 <= ray_path(scene, origin, far, reflection_enabled).len() <= MAX_LEGS,
        !reflection_enabled ==> ray_path(scene, origin, far, reflection_enabled).len() == 1,
{
    lemma_trace_len(scene, origin, far, true, None, reflection_enabled, MAX_LEGS as nat);
}

/// The first leg starts at `start` and does not end on the reflector that
/// the ray has just left.
pub proof fn lemma_trace_first(
    scene: SceneModel,
    start: Pos,
    end: Pos,
    first_leg: bool,
    last: Option<Reflector>,
    reflection_enabled: bool,
    budget: nat,
)
    requires
        budget >= 1,
    ensures
        trace(scene, start, end, first_leg, last, reflection_enabled, budget).len() >= 1,
        trace(scene, start, end, first_leg, last, reflection_enabled, budget)[0].segment.start
            == start,
        trace(scene, start, end, first_leg, last, reflection_enabled, budget)[0].hit matches Some(
            h,
        ) ==> Some(h.reflector) != last,
{
    lemma_nearest_excludes_last(scene, start, end, first_leg, last);
}

/// Self-exclusion: every leg but the last ends on a circle, the next leg
/// starts at the point struck, and the next leg does not end on the same
/// reflector.
pub proof fn lemma_trace_chain(
    scene: SceneModel,
    start: Pos,
    end: Pos,
    first_leg: bool,
    last: Option<Reflector>,
    reflection_enabled: bool,
    budget: nat,
    k: int,
)
    requires
        0 <= k,
        k + 1 < trace(scene, start, end, first_leg, last, reflection_enabled, budget).len(),
    ensures
        ({
            let legs = trace(scene, start, end, first_leg, last, reflection_enabled, budget);
            &&& legs[k].hit matches Some(h)
            &&& legs[k].segment.end == h.point
            &&& legs[k + 1].segment.start == h.point
            &&& (legs[k + 1].hit matches Some(next) ==> next.reflector != h.reflector)
        }),
    decreases budget,
{
    let legs = trace(scene, start, end, first_leg, last, reflection_enabled, budget);
    if budget >= 1 {
        match nearest(scene, start, end, first_leg, last) {
            None => {},
            Some(h) => {
                if reflection_enabled && budget > 1 {
                    match reflected_end(start, end, h.circle.center@, h.point) {
                        None => {},
                        Some(far) => {
                            let rest = trace(
                                scene,
                                h.point,
                                far,
                                false,
                                Some(h.reflector),
                                reflection_enabled,
                                (budget - 1) as nat,
                            );
                            assert(legs == seq![striking_leg(start, h)] + rest);
                            assert(legs[0] == striking_leg(start, h));
                            assert(forall|i: int| 0 <= i < rest.len() ==> legs[i + 1] == rest[i]);
                            if k == 0 {
                                lemma_trace_first(
                                    scene,
                                    h.point,
                                    far,
                                    false,
                                    Some(h.reflector),
                                    reflection_enabled,
                                    (budget - 1) as nat,
                                );
                                assert(legs[1] == rest[0]);
                            } else {
                                lemma_trace_chain(
                                    scene,
                                    h.point,
                                    far,
                                    false,
                                    Some(h.reflector),
                                    reflection_enabled,
                                    (budget - 1) as nat,
                                    k - 1,
                                );
                                assert(legs[k] == rest[k - 1]);
                                assert(legs[k + 1] == rest[k]);
                            }
                        },
                    }
                }
            },
        }
    }
}

/// A ray whose first leg is on a line that meets no obstacle has that one
/// leg only, and it ends exactly at the point it was aimed at.
pub proof fn lemma_clear_path_escapes(
    scene: SceneModel,
    origin: Pos,
    far: Pos,
    reflection_enabled: bool,
)
    requires
        forall|j: int|
            0 <= j < scene.obstacles.len() ==> !meets(
                line_between(origin, far),
                #[trigger] scene.obstacles[j],
            ),
    ensures
        ray_path(scene, origin, far, reflection_enabled) == seq![escaping_leg(origin, far)],
{
    lemma_nothing_met_nothing_struck(scene, origin, far, true, None);
}

/// A ray whose first leg has an obstacle ahead on its line ends that leg on
/// an obstacle.
pub proof fn lemma_obstacle_in_path_is_struck(
    scene: SceneModel,
    origin: Pos,
    far: Pos,
    reflection_enabled: bool,
    j: int,
)
    requires
        0 <= j < scene.obstacles.len(),
        ahead(origin, scene.emitter.center@, scene.obstacles[j].center@),
        meets(line_between(origin, far), scene.obstacles[j]),
    ensures
        ray_path(scene, origin, far, reflection_enabled).len() >= 1,
        ray_path(scene, origin, far, reflection_enabled)[0].hit matches Some(h) && h.reflector
            is Obstacle,
{
    lemma_candidate_is_struck(scene, origin, far, true, None, j);
}

/// Every point of a ray's path lies within [`LEG_LIMIT`], and every leg
/// that strikes a circle ends on its circumference, as nearly as the grid
/// allows.
pub proof fn lemma_trace_in_range(
    scene: SceneModel,
    start: Pos,
    end: Pos,
    first_leg: bool,
    last: Option<Reflector>,
    reflection_enabled: bool,
    budget: nat,
    k: int,
)
    requires
        scene.wf(),
        start.within(LEG_LIMIT as int),
        end.within(LEG_LIMIT as int),
        0 <= k < trace(scene, start, end, first_leg, last, reflection_enabled, budget).len(),
    ensures
        ({
            let leg = trace(scene, start, end, first_leg, last, reflection_enabled, budget)[k];
            &&& leg.segment.start.within(LEG_LIMIT as int)
            &&& leg.segment.end.within(LEG_LIMIT as int)
            &&& (leg.hit matches Some(h) ==> {
                &&& leg.segment.end == h.point
                &&& h.circle.wf()
                &&& on_circumference(h.circle, h.point)
            })
        }),
    decreases budget,
{
    let legs = trace(scene, start, end, first_leg, last, reflection_enabled, budget);
    lemma_nearest_in_range(scene, start, end, first_leg, last);
    if budget >= 1 {
        match nearest(scene, start, end, first_leg, last) {
            None => {},
            Some(h) => {
                if reflection_enabled && budget > 1 {
                    match reflected_end(start, end, h.circle.center@, h.point) {
                        None => {},
                        Some(far) => {
                            let rest = trace(
                                scene,
                                h.point,
                                far,
                                false,
                                Some(h.reflector),
                                reflection_enabled,
                                (budget - 1) as nat,
                            );
                            lemma_reflected_end_in_range(start, end, h.circle.center@, h.point);
                            assert(legs == seq![striking_leg(start, h)] + rest);
                            if k > 0 {
                                lemma_trace_in_range(
                                    scene,
                                    h.point,
                                    far,
                                    false,
                                    Some(h.reflector),
                                    reflection_enabled,
                                    (budget - 1) as nat,
                                    k - 1,
                                );
                                assert(legs[k] == rest[k - 1]);
                            }
                        },
                    }
                }
            },
        }
    }
}

/// Follows the ray that leaves the emitter at `origin`, aimed at `far`,
/// and returns its legs in order.
pub fn trace_ray(scene: &Scene, origin: Point, far: Point, reflection_enabled: bool) -> (legs: Vec<
    Leg,
>)
    requires
        scene.wf(),
        origin@.within(LEG_LIMIT as int),
        far@.within(LEG_LIMIT as int),
    ensures
        legs_model(legs@) == ray_path(scene@, origin@, far@, reflection_enabled),
        1 <= legs.len() <= MAX_LEGS,
        !reflection_enabled ==> legs.len() == 1,
{
    let mut legs: Vec<Leg> = Vec::new();
    let mut start: Point = origin;
    let mut end: Point = far;
    let mut first_leg: bool = true;
    let mut last: Option<Reflector> = None;
    let mut budget: usize = MAX_LEGS;
    proof {
        lemma_ray_path_len(scene@, origin@, far@, reflection_enabled);
        assert(legs_model(legs@) =~= Seq::<LegModel>::empty());
    }
    loop
        invariant
            scene.wf(),
            1 <= budget <= MAX_LEGS,
            legs.len() + budget == MAX_LEGS,
            start@.within(LEG_LIMIT as int),
            end@.within(LEG_LIMIT as int),
            legs_model(legs@) + trace(
                scene@,
                start@,
                end@,
                first_leg,
                last,
                reflection_enabled,
                budget as nat,
            ) == ray_path(scene@, origin@, far@, reflection_enabled),
            1 <= ray_path(scene@, origin@, far@, reflection_enabled).len() <= MAX_LEGS,
            !reflection_enabled ==> ray_path(scene@, origin@, far@, reflection_enabled).len() == 1,
        decreases budget,
    {
        let ghost before = legs_model(legs@);
        let ghost rest = trace(
            scene@,
            start@,
            end@,
            first_leg,
            last,
            reflection_enabled,
            budget as nat,
        );
        let found: Option<Hit> = nearest_hit(scene, &start, &end, first_leg, last);
        match found {
            None => {
                let leg = Leg { segment: Segment { start: start, end: end }, hit: None };
                legs.push(leg);
                proof {
                    assert(leg@ == escaping_leg(start@, end@));
                    assert(legs_model(legs@) =~= before.push(leg@));
                    assert(before.push(leg@) =~= before + rest);
                }
                return legs;
            },
            Some(h) => {
                let leg = Leg { segment: Segment { start: start, end: h.point }, hit: Some(h) };
                legs.push(leg);
                proof {
                    assert(leg@ == striking_leg(start@, h@));
                    assert(legs_model(legs@) =~= before.push(leg@));
                    lemma_nearest_in_range(scene@, start@, end@, first_leg, last);
                }
                if !reflection_enabled || budget == 1 {
                    proof {
                        assert(before.push(leg@) =~= before + rest);
                    }
                    return legs;
                }
                let aimed: Option<Point> = reflect(&start, &end, &h.circle.center, &h.point);
                match aimed {
                    None => {
                        proof {
                            assert(before.push(leg@) =~= before + rest);
                        }
                        return legs;
                    },
                    Some(next_end) => {
                        proof {
                            let tail = trace(
                                scene@,
                                h.point@,
                                next_end@,
                                false,
                                Some(h.reflector),
                                reflection_enabled,
                                (budget - 1) as nat,
                            );
                            assert(rest == seq![leg@] + tail);
                            assert(before.push(leg@) + tail =~= before + rest);
                        }
                        start = h.point;
                        end = next_end;
                        first_leg = false;
                        last = Some(h.reflector);
                        budget = budget - 1;
                    },
                }
            },
        }
    }
}

} // verus!
