use raytrace2d::geometry::distance_sq;
use raytrace2d::geometry::line_through;
use raytrace2d::geometry::perp_distance_sq;
use raytrace2d::geometry::Circle;
use raytrace2d::geometry::Line;
use raytrace2d::geometry::ObstacleId;
use raytrace2d::geometry::Point;
use raytrace2d::geometry::LEG_LIMIT;
use raytrace2d::geometry::SCENE_LIMIT;

#[test]
fn distance_sq_is_exact() {
    assert_eq!(distance_sq(&Point { x: 3, y: 4 }, &Point { x: 0, y: 0 }), 25);
    assert_eq!(distance_sq(&Point { x: -3, y: 4 }, &Point { x: 3, y: -4 }), 100);
    assert_eq!(distance_sq(&Point { x: 7, y: 7 }, &Point { x: 7, y: 7 }), 0);
}

#[test]
fn distance_sq_at_the_limits() {
    let a = Point { x: LEG_LIMIT, y: LEG_LIMIT };
    let b = Point { x: -LEG_LIMIT, y: -LEG_LIMIT };
    assert_eq!(distance_sq(&a, &b), 8 * LEG_LIMIT * LEG_LIMIT);
}

#[test]
fn line_through_keeps_an_oriented_direction() {
    let line = line_through(&Point { x: 1, y: 2 }, &Point { x: 5, y: 5 });
    assert_eq!(line, Line { dx: 4, dy: 3, k: 5 });
}

#[test]
fn line_through_turns_a_leftward_direction() {
    let line = line_through(&Point { x: 5, y: 5 }, &Point { x: 1, y: 2 });
    assert_eq!(line, Line { dx: 4, dy: 3, k: 5 });
}

#[test]
fn line_through_passes_through_both_points() {
    let p1 = Point { x: -17, y: 230 };
    let p2 = Point { x: 99, y: -4 };
    let line = line_through(&p1, &p2);
    assert_eq!(line.dx * p1.y, line.dy * p1.x + line.k);
    assert_eq!(line.dx * p2.y, line.dy * p2.x + line.k);
}

#[test]
fn line_through_of_a_vertical_pair() {
    let down = line_through(&Point { x: 2, y: 7 }, &Point { x: 2, y: 1 });
    assert_eq!(down, Line { dx: 0, dy: 6, k: -12 });
    let up = line_through(&Point { x: 2, y: 1 }, &Point { x: 2, y: 7 });
    assert_eq!(up, Line { dx: 0, dy: 6, k: -12 });
}

#[test]
fn line_through_of_one_point_is_zero() {
    let line = line_through(&Point { x: 9, y: -9 }, &Point { x: 9, y: -9 });
    assert_eq!(line, Line { dx: 0, dy: 0, k: 0 });
}

#[test]
fn perp_distance_sq_is_a_fraction() {
    let line = line_through(&Point { x: 0, y: 0 }, &Point { x: 4, y: 0 });
    let (num, den) = perp_distance_sq(&line, &Point { x: 1, y: 3 });
    assert_eq!((num, den), (144, 16));
    let diagonal = line_through(&Point { x: 0, y: 0 }, &Point { x: 1, y: 1 });
    let (num, den) = perp_distance_sq(&diagonal, &Point { x: 2, y: 0 });
    assert_eq!((num, den), (4, 2));
}

#[test]
fn perp_distance_sq_from_a_vertical_line() {
    let line = line_through(&Point { x: 3, y: -20 }, &Point { x: 3, y: 40 });
    let (num, den) = perp_distance_sq(&line, &Point { x: 0, y: 0 });
    assert_eq!(num, 9 * den);
}

#[test]
fn circle_validity() {
    let id = ObstacleId(0);
    assert!(Circle { center: Point { x: 0, y: 0 }, radius: 0, id }.is_valid());
    assert!(Circle { center: Point { x: SCENE_LIMIT, y: -SCENE_LIMIT }, radius: SCENE_LIMIT, id }
        .is_valid());
    assert!(!Circle { center: Point { x: 0, y: 0 }, radius: -1, id }.is_valid());
    assert!(!Circle { center: Point { x: SCENE_LIMIT + 1, y: 0 }, radius: 1, id }.is_valid());
    assert!(!Circle { center: Point { x: 0, y: -SCENE_LIMIT - 1 }, radius: 1, id }.is_valid());
    assert!(!Circle { center: Point { x: 0, y: 0 }, radius: SCENE_LIMIT + 1, id }.is_valid());
}

#[test]
fn circle_contains_points_strictly_inside() {
    let c = Circle { center: Point { x: 10, y: -10 }, radius: 5, id: ObstacleId(0) };
    assert!(c.contains(&Point { x: 10, y: -10 }));
    assert!(c.contains(&Point { x: 13, y: -7 }));
    assert!(c.contains(&Point { x: 14, y: -10 }));
    assert!(!c.contains(&Point { x: 15, y: -10 }));
    assert!(!c.contains(&Point { x: 13, y: -6 }));
    assert!(!c.contains(&Point { x: 100, y: 100 }));
}

#[test]
fn circle_of_radius_zero_contains_nothing() {
    let c = Circle { center: Point { x: 0, y: 0 }, radius: 0, id: ObstacleId(0) };
    assert!(!c.contains(&Point { x: 0, y: 0 }));
}

#[test]
fn point_range() {
    assert!(Point { x: LEG_LIMIT, y: -LEG_LIMIT }.in_range());
    assert!(!Point { x: LEG_LIMIT + 1, y: 0 }.in_range());
    assert!(!Point { x: 0, y: -LEG_LIMIT - 1 }.in_range());
}
