use raytrace2d::geometry::Circle;
use raytrace2d::geometry::ObstacleId;
use raytrace2d::geometry::Point;
use raytrace2d::scene::Scene;
use raytrace2d::scene::Viewport;
use raytrace2d::selector::nearest_hit;
use raytrace2d::selector::Hit;
use raytrace2d::selector::Reflector;

fn circle(x: i64, y: i64, radius: i64, id: u64) -> Circle {
    Circle { center: Point { x, y }, radius, id: ObstacleId(id) }
}

fn point(x: i64, y: i64) -> Point {
    Point { x, y }
}

fn small_scene(obstacles: Vec<Circle>) -> Scene {
    Scene {
        emitter: circle(0, 0, 10, 0),
        obstacles,
        viewport: Viewport { half_width: 1000, half_height: 1000 },
    }
}

#[test]
fn nearest_hit_takes_the_nearest_obstacle_whatever_the_order() {
    let scene = small_scene(vec![circle(100, 0, 10, 1), circle(60, 0, 10, 2), circle(60, 5, 10, 3)]);
    let hit = nearest_hit(&scene, &point(10, 0), &point(1000, 0), true, None);
    assert_eq!(
        hit,
        Some(Hit {
            point: point(50, 0),
            circle: circle(60, 0, 10, 2),
            reflector: Reflector::Obstacle(ObstacleId(2)),
        })
    );
}

#[test]
fn nearest_hit_skips_the_reflector_just_left() {
    let scene = small_scene(vec![circle(100, 0, 10, 1), circle(60, 0, 10, 2), circle(60, 5, 10, 3)]);
    let last = Some(Reflector::Obstacle(ObstacleId(2)));
    let hit = nearest_hit(&scene, &point(10, 0), &point(1000, 0), true, last).unwrap();
    assert_eq!(hit.reflector, Reflector::Obstacle(ObstacleId(3)));
    assert_eq!(hit.point, point(51, 0));
}

#[test]
fn nearest_hit_keeps_the_first_of_two_equally_near() {
    let scene = small_scene(vec![circle(60, 5, 10, 3), circle(60, -5, 10, 4)]);
    let hit = nearest_hit(&scene, &point(10, 0), &point(1000, 0), true, None).unwrap();
    assert_eq!(hit.reflector, Reflector::Obstacle(ObstacleId(3)));
    let swapped = small_scene(vec![circle(60, -5, 10, 4), circle(60, 5, 10, 3)]);
    let hit = nearest_hit(&swapped, &point(10, 0), &point(1000, 0), true, None).unwrap();
    assert_eq!(hit.reflector, Reflector::Obstacle(ObstacleId(4)));
}

#[test]
fn nearest_hit_of_an_empty_scene_is_none() {
    let scene = small_scene(vec![]);
    assert_eq!(nearest_hit(&scene, &point(10, 0), &point(1000, 0), true, None), None);
}

#[test]
fn nearest_hit_ignores_obstacles_off_the_line() {
    let scene = small_scene(vec![circle(60, 11, 10, 1), circle(500, -400, 100, 2)]);
    assert_eq!(nearest_hit(&scene, &point(10, 0), &point(1000, 0), true, None), None);
}

#[test]
fn nearest_hit_on_the_first_leg_ignores_what_lies_behind() {
    let scene = small_scene(vec![circle(-100, 0, 10, 5)]);
    assert_eq!(nearest_hit(&scene, &point(10, 0), &point(1000, 0), true, None), None);
}

#[test]
fn nearest_hit_considers_the_emitter_on_reflected_legs_only() {
    let scene = small_scene(vec![]);
    let start = point(50, 0);
    let end = point(-1000, 0);
    assert_eq!(nearest_hit(&scene, &start, &end, true, None), None);
    let hit = nearest_hit(&scene, &start, &end, false, None).unwrap();
    assert_eq!(hit.reflector, Reflector::Emitter);
    assert_eq!(hit.point, point(10, 0));
    assert_eq!(hit.circle.radius, 10);
}

#[test]
fn nearest_hit_skips_the_emitter_just_left() {
    let scene = small_scene(vec![]);
    let last = Some(Reflector::Emitter);
    assert_eq!(nearest_hit(&scene, &point(50, 0), &point(-1000, 0), false, last), None);
}

#[test]
fn nearest_hit_prefers_a_nearer_obstacle_to_the_emitter() {
    let scene = small_scene(vec![circle(30, 0, 10, 9)]);
    let hit = nearest_hit(&scene, &point(50, 0), &point(-1000, 0), false, None).unwrap();
    assert_eq!(hit.reflector, Reflector::Obstacle(ObstacleId(9)));
    assert_eq!(hit.point, point(40, 0));
}

#[test]
fn nearest_hit_prefers_the_emitter_to_a_farther_obstacle() {
    let scene = small_scene(vec![circle(-40, 0, 10, 9)]);
    let hit = nearest_hit(&scene, &point(50, 0), &point(-1000, 0), false, None).unwrap();
    assert_eq!(hit.reflector, Reflector::Emitter);
    assert_eq!(hit.point, point(10, 0));
}

#[test]
fn obstacle_at_finds_the_first_that_covers_the_point() {
    let scene = small_scene(vec![circle(100, 0, 10, 1), circle(60, 0, 10, 2), circle(65, 0, 10, 3)]);
    assert_eq!(scene.obstacle_at(&point(62, 3)), Some(1));
    assert_eq!(scene.obstacle_at(&point(72, 0)), Some(2));
    assert_eq!(scene.obstacle_at(&point(100, 9)), Some(0));
    assert_eq!(scene.obstacle_at(&point(0, 0)), None);
    assert_eq!(scene.obstacle_at(&point(50, 0)), None);
    assert_eq!(small_scene(vec![]).obstacle_at(&point(62, 3)), None);
}

#[test]
fn keep_inside_leaves_a_circle_that_fits() {
    let viewport = Viewport { half_width: 640, half_height: 360 };
    assert_eq!(viewport.keep_inside(&point(0, 0), 75), point(0, 0));
    assert_eq!(viewport.keep_inside(&point(565, -285), 75), point(565, -285));
}

#[test]
fn keep_inside_pulls_a_circle_back_into_the_viewport() {
    let viewport = Viewport { half_width: 640, half_height: 360 };
    assert_eq!(viewport.keep_inside(&point(600, 0), 75), point(565, 0));
    assert_eq!(viewport.keep_inside(&point(-600, 300), 75), point(-565, 285));
    assert_eq!(viewport.keep_inside(&point(9000, -9000), 100), point(540, -260));
}

#[test]
fn keep_inside_of_a_circle_wider_than_the_viewport() {
    let viewport = Viewport { half_width: 50, half_height: 360 };
    assert_eq!(viewport.keep_inside(&point(0, 0), 75), point(-25, 0));
    assert_eq!(viewport.keep_inside(&point(400, 0), 75), point(-25, 0));
}

#[test]
fn viewport_validity() {
    assert!(Viewport { half_width: 0, half_height: 0 }.is_valid());
    assert!(Viewport { half_width: 640, half_height: 360 }.is_valid());
    assert!(!Viewport { half_width: -1, half_height: 360 }.is_valid());
    assert!(!Viewport { half_width: 640, half_height: 1 << 23 }.is_valid());
}
