//! Which circle a leg strikes first.
//!
//! The obstacles are scanned in their order. One qualifies when it is not
//! the reflector that the ray has just left, lies ahead of the leg and is
//! met by the leg's line. Among those that qualify the one whose centre is
//! nearest to the leg's origin is chosen, the earlier one where two are
//! equally near. The emitter is a candidate on reflected legs only, and
//! only where it is nearer than the chosen obstacle.

use crate::geometry::dist_sq;
use crate::geometry::distance_sq;
use crate::geometry::line_between;
use crate::geometry::line_through;
use crate::geometry::Circle;
use crate::geometry::Line;
use crate::geometry::LineModel;
use crate::geometry::ObstacleId;
use crate::geometry::Point;
use crate::geometry::Pos;
use crate::geometry::LEG_LIMIT;
use crate::scene::Scene;
use crate::scene::SceneModel;
use crate::solver::intersect;
use crate::solver::intersection;
use crate::solver::lemma_intersection_on_circumference;
use crate::solver::lemma_root_in_box;
use crate::solver::meets;
use crate::solver::on_circumference;
use vstd::prelude::*;

verus! {

/// What a ray can reflect off.
#[derive(Clone, Copy, Debug, PartialEq, Eq, Structural)]
pub enum Reflector {
    Emitter,
    Obstacle(ObstacleId),
}

/// Where a leg ends on a circle.
#[derive(Clone, Copy, Debug, PartialEq, Eq, Structural)]
pub struct Hit {
    /// The point of the circle that the leg strikes.
    pub point: Point,
    /// The circle that is struck.
    pub circle: Circle,
    /// Which circle of the scene that is.
    pub reflector: Reflector,
}

/// The model of a [`Hit`].
pub struct HitModel {
    pub point: Pos,
    pub circle: Circle,
    pub reflector: Reflector,
}

impl View for Hit {
    type V = HitModel;

    open spec fn view(&self) -> HitModel {
        HitModel { point: self.point@, circle: self.circle, reflector: self.reflector }
    }
}

/// The point from which nearness is measured: the emitter's centre on the
/// first leg, the leg's own start on a reflected leg.
pub open spec fn leg_origin(emitter: Circle, start: Pos, first_leg: bool) -> Pos {
    if first_leg {
        emitter.center@
    } else {
        start
    }
}

/// The centre is at most as far from the leg's start as from its origin.
pub open spec fn ahead(start: Pos, origin: Pos, center: Pos) -> bool {
    dist_sq(start, center) <= dist_sq(origin, center)
}

/// The obstacle may be chosen: the ray has not just left it, it lies ahead
/// and the leg's line meets it.
pub open spec fn qualifies(
    c: Circle,
    line: LineModel,
    start: Pos,
    origin: Pos,
    last: Option<Reflector>,
) -> bool {
    &&& last != Some(Reflector::Obstacle(c.id))
    &&& ahead(start, origin, c.center@)
    &&& meets(line, c)
}

/// The index that the scan holds after the first `n` obstacles: an obstacle
/// that qualifies replaces the one held where it is strictly nearer to the
/// origin.
pub open spec fn scan(
    obstacles: Seq<Circle>,
    n: int,
    line: LineModel,
    start: Pos,
    origin: Pos,
    last: Option<Reflector>,
) -> Option<int>
    decreases n,
{
    if n <= 0 {
        None
    } else {
        let held = scan(obstacles, n - 1, line, start, origin, last);
        let c = obstacles[n - 1];
        if qualifies(c, line, start, origin, last) && (held is None || dist_sq(origin, c.center@)
            < dist_sq(origin, obstacles[held.unwrap()].center@)) {
            Some(n - 1)
        } else {
            held
        }
    }
}

/// The emitter takes the place of the obstacle that the scan chose: on a
/// reflected leg, where the ray has not just left the emitter, the leg's
/// line meets it and it is strictly nearer to the start than the chosen
/// obstacle, if there is one.
pub open spec fn emitter_wins(
    scene: SceneModel,
    line: LineModel,
    start: Pos,
    first_leg: bool,
    last: Option<Reflector>,
    held: Option<int>,
) -> bool {
    &&& !first_leg
    &&& last != Some(Reflector::Emitter)
    &&& meets(line, scene.emitter)
    &&& (held is None || dist_sq(start, scene.emitter.center@) < dist_sq(
        start,
        scene.obstacles[held.unwrap()].center@,
    ))
}

/// The circle that the leg from `start` towards `end` strikes, and which
/// one of the scene it is.
pub open spec fn struck(
    scene: SceneModel,
    start: Pos,
    end: Pos,
    first_leg: bool,
    last: Option<Reflector>,
) -> Option<(Circle, Reflector)> {
    let line = line_between(start, end);
    let origin = leg_origin(scene.emitter, start, first_leg);
    let held = scan(scene.obstacles, scene.obstacles.len() as int, line, start, origin, last);
    if emitter_wins(scene, line, start, first_leg, last, held) {
        Some((scene.emitter, Reflector::Emitter))
    } else if held is Some {
        let c = scene.obstacles[held.unwrap()];
        Some((c, Reflector::Obstacle(c.id)))
    } else {
        None
    }
}

/// Where the leg from `start` towards `end` ends on a circle of the scene,
/// or `None` where it strikes none.
pub open spec fn nearest(
    scene: SceneModel,
    start: Pos,
    end: Pos,
    first_leg: bool,
    last: Option<Reflector>,
) -> Option<HitModel> {
    match struck(scene, start, end, first_leg, last) {
        None => None,
        Some((c, who)) => match intersection(line_between(start, end), c, start) {
            None => None,
            Some(p) => Some(HitModel { point: p, circle: c, reflector: who }),
        },
    }
}

/// What the scan holds is the first of the nearest obstacles that qualify,
/// and it holds nothing only where none qualifies.
pub proof fn lemma_scan_first_nearest(
    obstacles: Seq<Circle>,
    n: int,
    line: LineModel,
    start: Pos,
    origin: Pos,
    last: Option<Reflector>,
)
    requires
        0 <= n <= obstacles.len(),
    ensures
        match scan(obstacles, n, line, start, origin, last) {
            None => forall|j: int|
                0 <= j < n ==> !qualifies(#[trigger] obstacles[j], line, start, origin, last),
            Some(i) => {
                &&& 0 <= i < n
                &&& qualifies(obstacles[i], line, start, origin, last)
                &&& forall|j: int|
                    0 <= j < n && qualifies(#[trigger] obstacles[j], line, start, origin, last)
                        ==> {
                        ||| dist_sq(origin, obstacles[i].center@) < dist_sq(
                            origin,
                            obstacles[j].center@,
                        )
                        ||| (dist_sq(origin, obstacles[i].center@) == dist_sq(
                            origin,
                            obstacles[j].center@,
                        ) && i <= j)
                    }
            },
        },
    decreases n,
{
    if n > 0 {
        lemma_scan_first_nearest(obstacles, n - 1, line, start, origin, last);
    }
}

/// The leg never ends on the reflector that the ray has just left.
pub proof fn lemma_nearest_excludes_last(
    scene: SceneModel,
    start: Pos,
    end: Pos,
    first_leg: bool,
    last: Option<Reflector>,
)
    ensures
        nearest(scene, start, end, first_leg, last) matches Some(h) ==> Some(h.reflector) != last,
{
    let line = line_between(start, end);
    let origin = leg_origin(scene.emitter, start, first_leg);
    lemma_scan_first_nearest(
        scene.obstacles,
        scene.obstacles.len() as int,
        line,
        start,
        origin,
        last,
    );
}

/// A leg whose line meets no obstacle ends on none. On the first leg, where
/// the emitter is no candidate, it strikes nothing at all.
pub proof fn lemma_nothing_met_nothing_struck(
    scene: SceneModel,
    start: Pos,
    end: Pos,
    first_leg: bool,
    last: Option<Reflector>,
)
    requires
        forall|j: int|
            0 <= j < scene.obstacles.len() ==> !meets(
                line_between(start, end),
                #[trigger] scene.obstacles[j],
            ),
    ensures
        nearest(scene, start, end, first_leg, last) matches Some(h) ==> h.reflector
            == Reflector::Emitter,
        first_leg ==> nearest(scene, start, end, first_leg, last) is None,
{
    let line = line_between(start, end);
    let origin = leg_origin(scene.emitter, start, first_leg);
    lemma_scan_first_nearest(
        scene.obstacles,
        scene.obstacles.len() as int,
        line,
        start,
        origin,
        last,
    );
}

/// Where an obstacle qualifies, the leg ends on a circle.
pub proof fn lemma_candidate_is_struck(
    scene: SceneModel,
    start: Pos,
    end: Pos,
    first_leg: bool,
    last: Option<Reflector>,
    j: int,
)
    requires
        0 <= j < scene.obstacles.len(),
        qualifies(
            scene.obstacles[j],
            line_between(start, end),
            start,
            leg_origin(scene.emitter, start, first_leg),
            last,
        ),
    ensures
        nearest(scene, start, end, first_leg, last) is Some,
{
    let line = line_between(start, end);
    let origin = leg_origin(scene.emitter, start, first_leg);
    lemma_scan_first_nearest(
        scene.obstacles,
        scene.obstacles.len() as int,
        line,
        start,
        origin,
        last,
    );
}

/// The point on which a leg ends lies on the circumference of the circle it
/// strikes, as nearly as the grid allows, and so in the square that bounds
/// the circle and within [`LEG_LIMIT`]. The circle is the emitter or an
/// obstacle of the scene.
pub proof fn lemma_nearest_in_range(
    scene: SceneModel,
    start: Pos,
    end: Pos,
    first_leg: bool,
    last: Option<Reflector>,
)
    requires
        scene.wf(),
    ensures
        nearest(scene, start, end, first_leg, last) matches Some(h) ==> {
            &&& h.circle.wf()
            &&& h.circle == scene.emitter || scene.obstacles.contains(h.circle)
            &&& meets(line_between(start, end), h.circle)
            &&& on_circumference(h.circle, h.point)
            &&& h.circle.center.x - h.circle.radius <= h.point.x <= h.circle.center.x
                + h.circle.radius
            &&& h.circle.center.y - h.circle.radius <= h.point.y <= h.circle.center.y
                + h.circle.radius
            &&& h.point.within(LEG_LIMIT as int)
        },
{
    let line = line_between(start, end);
    let origin = leg_origin(scene.emitter, start, first_leg);
    lemma_scan_first_nearest(
        scene.obstacles,
        scene.obstacles.len() as int,
        line,
        start,
        origin,
        last,
    );
    match nearest(scene, start, end, first_leg, last) {
        None => {},
        Some(h) => {
            lemma_root_in_box(line, h.circle, -1);
            lemma_root_in_box(line, h.circle, 1);
            lemma_intersection_on_circumference(line, h.circle, start);
        },
    }
}

/// Tells whether the ray has just left the obstacle with this identity.
fn is_last(last: &Option<Reflector>, id: &ObstacleId) -> (same: bool)
    ensures
        same == (*last == Some(Reflector::Obstacle(*id))),
{
    match last {
        Some(Reflector::Obstacle(other)) => other.0 == id.0,
        _ => false,
    }
}

/// Tells whether the ray has just left the emitter.
fn left_emitter(last: &Option<Reflector>) -> (same: bool)
    ensures
        same == (*last == Some(Reflector::Emitter)),
{
    match last {
        Some(Reflector::Emitter) => true,
        _ => false,
    }
}

/// Finds where the leg from `start` towards `end` ends on a circle of the
/// scene. `first_leg` tells whether the leg leaves the emitter; `last` is
/// the reflector that the ray has just left, if any.
pub fn nearest_hit(
    scene: &Scene,
    start: &Point,
    end: &Point,
    first_leg: bool,
    last: Option<Reflector>,
) -> (hit: Option<Hit>)
    requires
        scene.wf(),
        start@.within(LEG_LIMIT as int),
        end@.within(LEG_LIMIT as int),
    ensures
        match hit {
            Some(h) => nearest(scene@, start@, end@, first_leg, last) == Some(h@),
            None => nearest(scene@, start@, end@, first_leg, last) is None,
        },
{
    let line: Line = line_through(start, end);
    let origin: Point = if first_leg {
        scene.emitter.center
    } else {
        *start
    };
    let mut held: Option<usize> = None;
    let mut held_key: i64 = 0;
    let mut i: usize = 0;
    while i < scene.obstacles.len()
        invariant
            0 <= i <= scene.obstacles.len(),
            scene.wf(),
            line.wf(),
            line@ == line_between(start@, end@),
            origin@ == leg_origin(scene.emitter, start@, first_leg),
            origin@.within(LEG_LIMIT as int),
            start@.within(LEG_LIMIT as int),
            match held {
                Some(j) => {
                    &&& j < i
                    &&& scan(scene.obstacles@, i as int, line@, start@, origin@, last) == Some(
                        j as int,
                    )
                    &&& held_key == dist_sq(origin@, scene.obstacles@[j as int].center@)
                },
                None => scan(scene.obstacles@, i as int, line@, start@, origin@, last) is None,
            },
        decreases scene.obstacles.len() - i,
    {
        let c: &Circle = &scene.obstacles[i];
        assert(scene@.obstacles[i as int].wf());
        if !is_last(&last, &c.id) {
            let from_start: i64 = distance_sq(start, &c.center);
            let from_origin: i64 = distance_sq(&origin, &c.center);
            if from_start <= from_origin {
                let found: Option<Point> = intersect(&line, c, start);
                if found.is_some() {
                    let nearer = match held {
                        Some(_) => from_origin < held_key,
                        None => true,
                    };
                    if nearer {
                        held = Some(i);
                        held_key = from_origin;
                    }
                }
            }
        }
        i = i + 1;
    }
    let sun: &Circle = &scene.emitter;
    if !first_leg && !left_emitter(&last) {
        let found: Option<Point> = intersect(&line, sun, start);
        match found {
            Some(p) => {
                let from_start: i64 = distance_sq(start, &sun.center);
                let nearer = match held {
                    Some(_) => from_start < held_key,
                    None => true,
                };
                if nearer {
                    return Some(Hit { point: p, circle: *sun, reflector: Reflector::Emitter });
                }
            },
            None => {},
        }
    }
    match held {
        Some(j) => {
            let c: &Circle = &scene.obstacles[j];
            assert(scene@.obstacles[j as int].wf());
            proof {
                lemma_scan_first_nearest(
                    scene.obstacles@,
                    scene.obstacles.len() as int,
                    line@,
                    start@,
                    origin@,
                    last,
                );
            }
            let found: Option<Point> = intersect(&line, c, start);
            match found {
                Some(p) => Some(Hit { point: p, circle: *c, reflector: Reflector::Obstacle(c.id) }),
                None => None,
            }
        },
        None => None,
    }
}

} // verus!
