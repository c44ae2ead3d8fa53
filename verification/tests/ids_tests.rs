use raytrace2d::geometry::ObstacleId;
use raytrace2d::ids::IdAllocator;

#[test]
fn next_obstacle_id_starts_at_zero() {
    let mut allocator = IdAllocator::new();
    assert!(allocator.has_next());
    assert_eq!(allocator.next_obstacle_id(), ObstacleId(0));
}

#[test]
fn next_obstacle_id_rises_by_one() {
    let mut allocator = IdAllocator::new();
    let mut expected: u64 = 0;
    while expected < 1000 {
        assert!(allocator.has_next());
        assert_eq!(allocator.next_obstacle_id(), ObstacleId(expected));
        expected += 1;
    }
}

#[test]
fn next_obstacle_id_never_repeats() {
    let mut allocator = IdAllocator::new();
    let mut seen: Vec<ObstacleId> = Vec::new();
    let mut i = 0;
    while i < 200 {
        let id = allocator.next_obstacle_id();
        assert!(!seen.contains(&id));
        if let Some(last) = seen.last() {
            assert!(last.0 < id.0);
        }
        seen.push(id);
        i += 1;
    }
}

#[test]
fn allocators_are_independent() {
    let mut first = IdAllocator::new();
    let mut second = IdAllocator::new();
    assert_eq!(first.next_obstacle_id(), ObstacleId(0));
    assert_eq!(first.next_obstacle_id(), ObstacleId(1));
    assert_eq!(second.next_obstacle_id(), ObstacleId(0));
}
