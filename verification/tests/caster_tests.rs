use raytrace2d::caster::cast_ray;
use raytrace2d::caster::cast_rays;
use raytrace2d::caster::directions_valid;
use raytrace2d::caster::emit;
use raytrace2d::caster::ray_angles;
use raytrace2d::caster::try_cast_rays;
use raytrace2d::caster::Direction;
use raytrace2d::caster::DIRECTION_ONE;
use raytrace2d::caster::FULL_TURN;
use raytrace2d::geometry::Circle;
use raytrace2d::geometry::ObstacleId;
use raytrace2d::geometry::Point;
use raytrace2d::geometry::Segment;
use raytrace2d::geometry::SCENE_LIMIT;
use raytrace2d::geometry::UNIT;
use raytrace2d::scene::Scene;
use raytrace2d::scene::Viewport;
use raytrace2d::selector::Reflector;
use raytrace2d::tracer::MAX_LEGS;

fn circle(x: i64, y: i64, radius: i64, id: u64) -> Circle {
    Circle { center: Point { x, y }, radius, id: ObstacleId(id) }
}

fn point(x: i64, y: i64) -> Point {
    Point { x, y }
}

fn facing_scene() -> Scene {
    Scene {
        emitter: circle(0, 0, 75 * UNIT, 0),
        obstacles: vec![circle(400 * UNIT, 0, 100 * UNIT, 7)],
        viewport: Viewport { half_width: 640 * UNIT, half_height: 360 * UNIT },
    }
}

fn crowded_scene() -> Scene {
    Scene {
        emitter: circle(0, 0, 75 * UNIT, 0),
        obstacles: vec![
            circle(400 * UNIT, 0, 100 * UNIT, 1),
            circle(300 * UNIT, 300 * UNIT, 80 * UNIT, 2),
            circle(0, -300 * UNIT, 60 * UNIT, 3),
        ],
        viewport: Viewport { half_width: 640 * UNIT, half_height: 360 * UNIT },
    }
}

fn quarter_turns() -> Vec<Direction> {
    vec![
        Direction { sin: 0, cos: DIRECTION_ONE },
        Direction { sin: DIRECTION_ONE, cos: 0 },
        Direction { sin: 0, cos: -DIRECTION_ONE },
        Direction { sin: -DIRECTION_ONE, cos: 0 },
    ]
}

fn fan(count: u32) -> Vec<Direction> {
    let mut out = Vec::new();
    for angle in ray_angles(count) {
        let t = (angle as f64) / (FULL_TURN as f64) * std::f64::consts::TAU;
        out.push(Direction {
            sin: (t.sin() * DIRECTION_ONE as f64).round() as i64,
            cos: (t.cos() * DIRECTION_ONE as f64).round() as i64,
        });
    }
    out
}

#[test]
fn ray_angles_of_no_ray_is_empty() {
    assert_eq!(ray_angles(0), Vec::<u32>::new());
}

#[test]
fn ray_angles_are_evenly_spaced() {
    assert_eq!(ray_angles(1), vec![0]);
    assert_eq!(ray_angles(4), vec![0, 0x4000_0000, 0x8000_0000, 0xc000_0000]);
    assert_eq!(ray_angles(3), vec![0, 1_431_655_765, 2_863_311_530]);
}

#[test]
fn ray_angles_has_one_angle_for_each_ray() {
    let angles = ray_angles(360);
    assert_eq!(angles.len(), 360);
    let mut i = 0;
    while i < angles.len() {
        assert_eq!(angles[i] as u64, (i as u64 * FULL_TURN) / 360);
        i += 1;
    }
}

#[test]
fn direction_validity() {
    assert!(Direction { sin: DIRECTION_ONE, cos: -DIRECTION_ONE }.is_valid());
    assert!(Direction { sin: 0, cos: 0 }.is_valid());
    assert!(!Direction { sin: DIRECTION_ONE + 1, cos: 0 }.is_valid());
    assert!(!Direction { sin: 0, cos: -DIRECTION_ONE - 1 }.is_valid());
}

#[test]
fn scene_validity() {
    assert!(facing_scene().is_valid());
    assert!(crowded_scene().is_valid());
    let mut scene = facing_scene();
    scene.obstacles.push(circle(SCENE_LIMIT + 1, 0, 5, 8));
    assert!(!scene.is_valid());
    let mut scene = facing_scene();
    scene.viewport.half_height = -1;
    assert!(!scene.is_valid());
    let mut scene = facing_scene();
    scene.emitter.radius = SCENE_LIMIT + 1;
    assert!(!scene.is_valid());
}

#[test]
fn emit_places_the_ray_on_the_circumference() {
    let scene = facing_scene();
    let (origin, far) = emit(&scene, &Direction { sin: DIRECTION_ONE, cos: 0 });
    assert_eq!(origin, point(76_800, 0));
    assert_eq!(far, point(983_040, 0));
    let (origin, far) = emit(&scene, &Direction { sin: 0, cos: -DIRECTION_ONE });
    assert_eq!(origin, point(0, -76_800));
    assert_eq!(far, point(0, -552_960));
}

#[test]
fn emit_starts_at_the_emitter_but_aims_from_the_middle() {
    let mut scene = facing_scene();
    scene.emitter.center = point(-200 * UNIT, 50 * UNIT);
    let (origin, far) = emit(&scene, &Direction { sin: DIRECTION_ONE, cos: 0 });
    assert_eq!(origin, point(-125 * UNIT, 50 * UNIT));
    assert_eq!(far, point(960 * UNIT, 0));
}

#[test]
fn emit_rounds_to_the_grid() {
    let scene = facing_scene();
    let (origin, far) = emit(&scene, &Direction { sin: 1_033_319, cos: 178_223 });
    assert_eq!(origin, point(75_683, 13_053));
    assert_eq!(far, point(968_737, 93_985));
}

#[test]
fn cast_rays_with_no_ray_gives_no_segment() {
    let scene = facing_scene();
    assert_eq!(cast_rays(&scene, &Vec::new(), false), Vec::<Segment>::new());
    assert_eq!(cast_rays(&scene, &Vec::new(), true), Vec::<Segment>::new());
    assert_eq!(cast_rays(&scene, &fan(0), true), Vec::<Segment>::new());
}

#[test]
fn cast_rays_four_rays_one_obstacle() {
    let scene = facing_scene();
    let segments = cast_rays(&scene, &quarter_turns(), false);
    assert_eq!(
        segments,
        vec![
            Segment { start: point(0, 76_800), end: point(0, 552_960) },
            Segment { start: point(76_800, 0), end: point(307_200, 0) },
            Segment { start: point(0, -76_800), end: point(0, -552_960) },
            Segment { start: point(-76_800, 0), end: point(-983_040, 0) },
        ]
    );
}

#[test]
fn cast_rays_four_rays_from_even_angles() {
    let scene = facing_scene();
    assert_eq!(fan(4), quarter_turns());
    assert_eq!(cast_rays(&scene, &fan(4), false), cast_rays(&scene, &quarter_turns(), false));
}

#[test]
fn cast_rays_the_ray_towards_the_obstacle_ends_on_it() {
    let scene = facing_scene();
    let segments = cast_rays(&scene, &quarter_turns(), false);
    let target = scene.obstacles[0];
    let end = segments[1].end;
    let dx = end.x - target.center.x;
    let dy = end.y - target.center.y;
    assert_eq!(dx * dx + dy * dy, target.radius * target.radius);
}

#[test]
fn cast_rays_the_ray_away_from_the_obstacle_escapes() {
    let scene = facing_scene();
    let segments = cast_rays(&scene, &quarter_turns(), false);
    let (_, far) = emit(&scene, &quarter_turns()[3]);
    assert_eq!(segments[3].end, far);
    assert_eq!(far, point(-983_040, 0));
}

#[test]
fn cast_rays_past_obstacles_off_the_path_reach_the_far_point() {
    let scene = crowded_scene();
    let directions = vec![
        Direction { sin: 309_875, cos: 1_001_743 },
        Direction { sin: 821_378, cos: 651_805 },
        Direction { sin: -793_565, cos: -685_395 },
    ];
    for reflection in [false, true] {
        let segments = cast_rays(&scene, &directions, reflection);
        assert_eq!(segments.len(), directions.len());
        let mut i = 0;
        while i < directions.len() {
            let (origin, far) = emit(&scene, &directions[i]);
            assert_eq!(segments[i], Segment { start: origin, end: far });
            i += 1;
        }
    }
}

#[test]
fn cast_rays_joins_the_paths_in_order() {
    let scene = crowded_scene();
    let directions = vec![
        Direction { sin: 1_033_319, cos: 178_223 },
        Direction { sin: 309_875, cos: 1_001_743 },
        Direction { sin: 43_600, cos: -1_047_669 },
    ];
    let segments = cast_rays(&scene, &directions, true);
    let mut expected = Vec::new();
    for direction in &directions {
        for leg in cast_ray(&scene, direction, true) {
            expected.push(leg.segment);
        }
    }
    assert_eq!(segments, expected);
    assert_eq!(segments.len(), 2 + 1 + 8);
}

#[test]
fn cast_rays_without_reflection_gives_one_segment_each() {
    let scene = crowded_scene();
    let directions = fan(97);
    let segments = cast_rays(&scene, &directions, false);
    assert_eq!(segments.len(), 97);
    let mut i = 0;
    while i < directions.len() {
        let legs = cast_ray(&scene, &directions[i], false);
        assert_eq!(legs.len(), 1);
        assert_eq!(segments[i], legs[0].segment);
        i += 1;
    }
}

#[test]
fn cast_rays_never_exceeds_the_bounce_limit() {
    let scene = crowded_scene();
    let directions = fan(720);
    let segments = cast_rays(&scene, &directions, true);
    assert!(segments.len() >= directions.len());
    assert!(segments.len() <= MAX_LEGS * directions.len());
    for direction in &directions {
        let legs = cast_ray(&scene, direction, true);
        assert!(1 <= legs.len() && legs.len() <= MAX_LEGS);
    }
}

#[test]
fn cast_rays_twice_gives_the_same_segments() {
    let scene = crowded_scene();
    let directions = fan(180);
    let first = cast_rays(&scene, &directions, true);
    let second = cast_rays(&scene, &directions, true);
    assert_eq!(first, second);
    let copy = scene.clone();
    assert_eq!(cast_rays(&copy, &directions.clone(), true), first);
}

#[test]
fn cast_rays_depends_on_the_order_of_equally_near_obstacles() {
    let mut scene = facing_scene();
    scene.obstacles = vec![circle(400 * UNIT, 50 * UNIT, 100 * UNIT, 1), circle(400 * UNIT, -50 * UNIT, 100 * UNIT, 2)];
    let direction = Direction { sin: DIRECTION_ONE, cos: 0 };
    let first = cast_ray(&scene, &direction, false);
    assert_eq!(first[0].hit.unwrap().reflector, Reflector::Obstacle(ObstacleId(1)));
    scene.obstacles.reverse();
    let second = cast_ray(&scene, &direction, false);
    assert_eq!(second[0].hit.unwrap().reflector, Reflector::Obstacle(ObstacleId(2)));
}

#[test]
fn cast_ray_hits_lie_on_their_circles() {
    let scene = crowded_scene();
    for direction in fan(360) {
        for leg in cast_ray(&scene, &direction, true) {
            if let Some(hit) = leg.hit {
                assert_eq!(leg.segment.end, hit.point);
                let r = hit.circle.radius;
                let dx = hit.point.x - hit.circle.center.x;
                let dy = hit.point.y - hit.circle.center.y;
                let d = dx * dx + dy * dy;
                assert!(r * r - 4 * r <= d && d <= (r + 1) * (r + 1));
            }
        }
    }
}

#[test]
fn cast_ray_never_strikes_the_same_reflector_twice_in_a_row() {
    let scene = crowded_scene();
    for direction in fan(360) {
        let legs = cast_ray(&scene, &direction, true);
        let mut k = 0;
        while k + 1 < legs.len() {
            let here = legs[k].hit.unwrap();
            assert_eq!(legs[k + 1].segment.start, here.point);
            if let Some(next) = legs[k + 1].hit {
                assert_ne!(next.reflector, here.reflector);
            }
            k += 1;
        }
    }
}

#[test]
fn try_cast_rays_agrees_with_cast_rays() {
    let scene = crowded_scene();
    let directions = fan(48);
    assert_eq!(try_cast_rays(&scene, &directions, true), Some(cast_rays(&scene, &directions, true)));
    assert_eq!(try_cast_rays(&scene, &Vec::new(), true), Some(Vec::new()));
}

#[test]
fn try_cast_rays_refuses_what_is_out_of_range() {
    let mut scene = crowded_scene();
    let directions = quarter_turns();
    scene.obstacles.push(circle(0, SCENE_LIMIT + 1, 5, 9));
    assert_eq!(try_cast_rays(&scene, &directions, false), None);
    let scene = crowded_scene();
    let mut directions = quarter_turns();
    directions.push(Direction { sin: 2 * DIRECTION_ONE, cos: 0 });
    assert!(!directions_valid(&directions));
    assert_eq!(try_cast_rays(&scene, &directions, false), None);
    assert!(directions_valid(&quarter_turns()));
    assert!(directions_valid(&Vec::new()));
}

#[test]
fn cast_rays_at_the_limits_of_the_scene() {
    let limit = SCENE_LIMIT;
    let scene = Scene {
        emitter: circle(-limit, limit, limit, 0),
        obstacles: vec![
            circle(limit, limit, limit, 1),
            circle(limit, -limit, limit, 2),
            circle(-limit, -limit, limit, 3),
            circle(0, 0, 1, 4),
            circle(17, -limit, 0, 5),
        ],
        viewport: Viewport { half_width: limit, half_height: limit },
    };
    assert!(scene.is_valid());
    let directions = fan(256);
    let segments = cast_rays(&scene, &directions, true);
    assert!(segments.len() >= directions.len());
    assert!(segments.len() <= MAX_LEGS * directions.len());
    for segment in &segments {
        assert!(segment.start.in_range());
        assert!(segment.end.in_range());
    }
}

#[test]
fn cast_rays_in_a_scene_of_tiny_circles() {
    let scene = Scene {
        emitter: circle(0, 0, 1, 0),
        obstacles: vec![circle(3, 0, 1, 1), circle(0, 3, 2, 2), circle(-2, -2, 1, 3)],
        viewport: Viewport { half_width: 4, half_height: 4 },
    };
    let directions = fan(64);
    for reflection in [false, true] {
        let segments = cast_rays(&scene, &directions, reflection);
        assert!(segments.len() >= directions.len());
        assert!(segments.len() <= MAX_LEGS * directions.len());
    }
}
