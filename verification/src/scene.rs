//! The scene that rays are cast into: the emitter, the obstacles and the
//! viewport.

use crate::geometry::Circle;
use crate::geometry::Point;
use crate::geometry::Pos;
use crate::geometry::LEG_LIMIT;
use crate::geometry::SCENE_LIMIT;
use vstd::prelude::*;

verus! {

/// Half the width and half the height of the visible area.
#[derive(Clone, Copy, Debug, PartialEq, Eq, Structural)]
pub struct Viewport {
    pub half_width: i64,
    pub half_height: i64,
}

/// `x` raised to at least `lo` and then lowered to at most `hi`.
pub open spec fn clamped(x: int, lo: int, hi: int) -> int {
    let raised = if x < lo {
        lo
    } else {
        x
    };
    if raised > hi {
        hi
    } else {
        raised
    }
}

impl Viewport {
    /// Both half-extents are between zero and [`SCENE_LIMIT`].
    pub open spec fn wf(&self) -> bool {
        &&& 0 <= self.half_width <= SCENE_LIMIT
        &&& 0 <= self.half_height <= SCENE_LIMIT
    }

    /// Tells whether the viewport is well formed.
    pub fn is_valid(&self) -> (ok: bool)
        ensures
            ok == self.wf(),
    {
        0 <= self.half_width && self.half_width <= SCENE_LIMIT && 0 <= self.half_height
            && self.half_height <= SCENE_LIMIT
    }

    /// The centre nearest to `center`, coordinate by coordinate, at which a
    /// circle of the given radius lies within the viewport.
    pub open spec fn kept_inside(&self, center: Pos, radius: int) -> Pos {
        Pos {
            x: clamped(center.x, radius - self.half_width, self.half_width - radius),
            y: clamped(center.y, radius - self.half_height, self.half_height - radius),
        }
    }

    /// Moves the centre of a circle of the given radius, coordinate by
    /// coordinate, so that the circle lies within the viewport. Where the
    /// circle is wider than the viewport its centre goes to the half-extent
    /// less the radius.
    pub fn keep_inside(&self, center: &Point, radius: i64) -> (kept: Point)
        requires
            self.wf(),
            0 <= radius <= SCENE_LIMIT,
        ensures
            kept@ == self.kept_inside(center@, radius as int),
            self.half_width >= radius ==> radius - self.half_width <= kept.x <= self.half_width
                - radius,
            self.half_height >= radius ==> radius - self.half_height <= kept.y <= self.half_height
                - radius,
    {
        Point {
            x: clamp_to(center.x, radius - self.half_width, self.half_width - radius),
            y: clamp_to(center.y, radius - self.half_height, self.half_height - radius),
        }
    }
}

/// `x` raised to at least `lo` and then lowered to at most `hi`.
fn clamp_to(x: i64, lo: i64, hi: i64) -> (y: i64)
    ensures
        y == clamped(x as int, lo as int, hi as int),
{
    let raised = if x < lo {
        lo
    } else {
        x
    };
    if raised > hi {
        hi
    } else {
        raised
    }
}

/// The emitter, the obstacles in the order in which they are scanned, and
/// the viewport.
#[derive(Clone, Debug)]
pub struct Scene {
    pub emitter: Circle,
    pub obstacles: Vec<Circle>,
    pub viewport: Viewport,
}

/// The model of a [`Scene`]: the obstacles as a sequence.
pub struct SceneModel {
    pub emitter: Circle,
    pub obstacles: Seq<Circle>,
    pub viewport: Viewport,
}

impl SceneModel {
    /// The emitter, every obstacle and the viewport are well formed.
    pub open spec fn wf(self) -> bool {
        &&& self.emitter.wf()
        &&& self.viewport.wf()
        &&& forall|i: int| 0 <= i < self.obstacles.len() ==> (#[trigger] self.obstacles[i]).wf()
    }
}

impl View for Scene {
    type V = SceneModel;

    open spec fn view(&self) -> SceneModel {
        SceneModel { emitter: self.emitter, obstacles: self.obstacles@, viewport: self.viewport }
    }
}

impl Scene {
    /// The emitter, every obstacle and the viewport are well formed.
    pub open spec fn wf(&self) -> bool {
        self@.wf()
    }

    /// The first obstacle, in the order of the scan, that the point lies
    /// inside.
    pub fn obstacle_at(&self, p: &Point) -> (found: Option<usize>)
        requires
            self.wf(),
            p@.within(LEG_LIMIT as int),
        ensures
            match found {
                Some(i) => {
                    &&& i < self.obstacles.len()
                    &&& self.obstacles@[i as int].covers(p@)
                    &&& forall|j: int| 0 <= j < i ==> !(#[trigger] self.obstacles@[j]).covers(p@)
                },
                None => forall|j: int|
                    0 <= j < self.obstacles.len() ==> !(#[trigger] self.obstacles@[j]).covers(p@),
            },
    {
        let mut i: usize = 0;
        while i < self.obstacles.len()
            invariant
                0 <= i <= self.obstacles.len(),
                self.wf(),
                p@.within(LEG_LIMIT as int),
                forall|j: int| 0 <= j < i ==> !(#[trigger] self.obstacles@[j]).covers(p@),
            decreases self.obstacles.len() - i,
        {
            assert(self@.obstacles[i as int].wf());
            if self.obstacles[i].contains(p) {
                return Some(i);
            }
            i = i + 1;
        }
        None
    }

    /// Tells whether the scene is well formed, that is, whether rays can be
    /// cast into it.
    pub fn is_valid(&self) -> (ok: bool)
        ensures
            ok == self.wf(),
    {
        if !self.emitter.is_valid() {
            return false;
        }
        if !self.viewport.is_valid() {
            return false;
        }
        let mut i: usize = 0;
        while i < self.obstacles.len()
            invariant
                0 <= i <= self.obstacles.len(),
                forall|j: int| 0 <= j < i ==> (#[trigger] self.obstacles@[j]).wf(),
            decreases self.obstacles.len() - i,
        {
            if !self.obstacles[i].is_valid() {
                assert(!self@.obstacles[i as int].wf());
                return false;
            }
            i = i + 1;
        }
        true
    }
}

} // verus!
