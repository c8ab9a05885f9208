use life_sim_core::pathfinding::astar::find_path;
use life_sim_core::geometry::{Entity, IVec2};
use life_sim_core::pathfinding::grid::PathfindingGrid;
use life_sim_core::pathfinding::queue::PathfindingQueue;
use life_sim_core::pathfinding::region_map::{build_region_map, extract_grid_bounds, RegionMap};
use life_sim_core::pathfinding::request::{
    PathFailureReason, PathPriority, PathReason, PathRequest, PathRequestId,
};

fn create_test_grid(width: i32, height: i32) -> PathfindingGrid {
    let mut grid = PathfindingGrid::new();
    for y in 0..height {
        for x in 0..width {
            grid.set_cost(IVec2::new(x, y), 1);
        }
    }
    grid
}

#[test]
fn test_single_connected_region() {
    let grid = create_test_grid(10, 10);
    let mut region_map = RegionMap::new();
    region_map.build_from_grid(&grid, (IVec2::zero(), IVec2::new(9, 9)));
    assert_eq!(region_map.region_count(), 1);
    assert_eq!(region_map.tile_count(), 100);
    assert!(region_map.are_connected(IVec2::new(0, 0), IVec2::new(9, 9)));
    assert!(region_map.are_connected(IVec2::new(5, 5), IVec2::new(0, 0)));
}

#[test]
fn test_two_disconnected_regions() {
    let mut grid = PathfindingGrid::new();
    for y in 0..3 {
        for x in 0..3 {
            grid.set_cost(IVec2::new(x, y), 1);
        }
    }
    for y in 5..8 {
        for x in 5..8 {
            grid.set_cost(IVec2::new(x, y), 1);
        }
    }
    let mut region_map = RegionMap::new();
    region_map.build_from_grid(&grid, (IVec2::zero(), IVec2::new(9, 9)));
    assert_eq!(region_map.region_count(), 2);
    assert_eq!(region_map.tile_count(), 18);
    assert!(region_map.are_connected(IVec2::new(0, 0), IVec2::new(2, 2)));
    assert!(region_map.are_connected(IVec2::new(5, 5), IVec2::new(7, 7)));
    assert!(!region_map.are_connected(IVec2::new(0, 0), IVec2::new(5, 5)));
    assert!(!region_map.are_connected(IVec2::new(2, 2), IVec2::new(7, 7)));
}

#[test]
fn test_unwalkable_positions_not_connected() {
    let grid = create_test_grid(5, 5);
    let mut region_map = RegionMap::new();
    region_map.build_from_grid(&grid, (IVec2::zero(), IVec2::new(4, 4)));
    assert!(!region_map.are_connected(IVec2::new(0, 0), IVec2::new(100, 100)));
    assert!(!region_map.are_connected(IVec2::new(100, 100), IVec2::new(200, 200)));
}

#[test]
fn test_wall_creates_disconnection() {
    let mut grid = PathfindingGrid::new();
    for y in 0..10 {
        for x in 0..10 {
            if x == 5 {
                grid.set_cost(IVec2::new(x, y), u32::MAX);
            } else {
                grid.set_cost(IVec2::new(x, y), 1);
            }
        }
    }
    let mut region_map = RegionMap::new();
    region_map.build_from_grid(&grid, (IVec2::zero(), IVec2::new(9, 9)));
    assert_eq!(region_map.region_count(), 2);
    assert!(region_map.are_connected(IVec2::new(0, 0), IVec2::new(4, 9)));
    assert!(region_map.are_connected(IVec2::new(6, 0), IVec2::new(9, 9)));
    assert!(!region_map.are_connected(IVec2::new(0, 0), IVec2::new(9, 9)));
}

#[test]
fn test_get_region() {
    let grid = create_test_grid(5, 5);
    let mut region_map = RegionMap::new();
    region_map.build_from_grid(&grid, (IVec2::zero(), IVec2::new(4, 4)));
    assert_eq!(region_map.get_region(IVec2::new(0, 0)), Some(0));
    assert_eq!(region_map.get_region(IVec2::new(4, 4)), Some(0));
    assert_eq!(region_map.get_region(IVec2::new(100, 100)), None);
}

#[test]
fn test_is_mapped() {
    let grid = create_test_grid(5, 5);
    let mut region_map = RegionMap::new();
    region_map.build_from_grid(&grid, (IVec2::zero(), IVec2::new(4, 4)));
    assert!(region_map.is_mapped(IVec2::new(0, 0)));
    assert!(region_map.is_mapped(IVec2::new(4, 4)));
    assert!(!region_map.is_mapped(IVec2::new(100, 100)));
}

#[test]
fn test_clear() {
    let grid = create_test_grid(5, 5);
    let mut region_map = RegionMap::new();
    region_map.build_from_grid(&grid, (IVec2::zero(), IVec2::new(4, 4)));
    assert!(region_map.tile_count() > 0);
    region_map.clear();
    assert_eq!(region_map.tile_count(), 0);
    assert_eq!(region_map.region_count(), 0);
}

#[test]
fn test_empty_grid() {
    let grid = PathfindingGrid::new();
    let mut region_map = RegionMap::new();
    region_map.build_from_grid(&grid, (IVec2::zero(), IVec2::new(9, 9)));
    assert_eq!(region_map.region_count(), 0);
    assert_eq!(region_map.tile_count(), 0);
}

#[test]
fn test_single_tile_region() {
    let mut grid = PathfindingGrid::new();
    grid.set_cost(IVec2::new(5, 5), 1);
    let mut region_map = RegionMap::new();
    region_map.build_from_grid(&grid, (IVec2::zero(), IVec2::new(9, 9)));
    assert_eq!(region_map.region_count(), 1);
    assert_eq!(region_map.tile_count(), 1);
    assert!(region_map.is_mapped(IVec2::new(5, 5)));
}

#[test]
fn test_diagonal_not_connected() {
    let mut grid = PathfindingGrid::new();
    grid.set_cost(IVec2::new(0, 0), 1);
    grid.set_cost(IVec2::new(1, 1), 1);
    let mut region_map = RegionMap::new();
    region_map.build_from_grid(&grid, (IVec2::zero(), IVec2::new(2, 2)));
    assert_eq!(region_map.region_count(), 2);
    assert!(!region_map.are_connected(IVec2::new(0, 0), IVec2::new(1, 1)));
}

#[test]
fn test_diagonal_connected_with_cardinals() {
    let mut grid = PathfindingGrid::new();
    grid.set_cost(IVec2::new(0, 0), 1);
    grid.set_cost(IVec2::new(1, 0), 1);
    grid.set_cost(IVec2::new(1, 1), 1);
    let mut region_map = RegionMap::new();
    region_map.build_from_grid(&grid, (IVec2::zero(), IVec2::new(2, 2)));
    assert_eq!(region_map.region_count(), 1);
    assert!(region_map.are_connected(IVec2::new(0, 0), IVec2::new(1, 1)));
}

#[test]
fn region_ids_follow_scan_order() {
    let mut grid = PathfindingGrid::new();
    grid.set_cost(IVec2::new(3, 0), 1);
    grid.set_cost(IVec2::new(0, 2), 1);
    let mut region_map = RegionMap::new();
    region_map.build_from_grid(&grid, (IVec2::zero(), IVec2::new(4, 4)));
    // Rows are scanned from the lowest y: (3, 0) is met first.
    assert_eq!(region_map.get_region(IVec2::new(3, 0)), Some(0));
    assert_eq!(region_map.get_region(IVec2::new(0, 2)), Some(1));
}

#[test]
fn flood_leaves_the_bounds_to_follow_a_region() {
    let mut grid = PathfindingGrid::new();
    for x in 0..6 {
        grid.set_cost(IVec2::new(x, 0), 1);
    }
    let mut region_map = RegionMap::new();
    region_map.build_from_grid(&grid, (IVec2::zero(), IVec2::new(1, 1)));
    assert_eq!(region_map.tile_count(), 6);
    assert!(region_map.are_connected(IVec2::new(0, 0), IVec2::new(5, 0)));
}

#[test]
fn grid_bounds_are_padded_extent() {
    let mut grid = PathfindingGrid::new();
    grid.set_cost(IVec2::new(-3, 2), 1);
    grid.set_cost(IVec2::new(4, 7), 1);
    grid.set_cost(IVec2::new(1, 1), u32::MAX);
    assert_eq!(extract_grid_bounds(&grid), (IVec2::new(-4, 1), IVec2::new(5, 8)));
    let empty = PathfindingGrid::new();
    assert_eq!(extract_grid_bounds(&empty), (IVec2::new(0, 0), IVec2::new(0, 0)));
}

#[test]
fn build_region_map_covers_grid() {
    let grid = create_test_grid(4, 3);
    let mut region_map = RegionMap::new();
    build_region_map(&mut region_map, &grid);
    assert_eq!(region_map.region_count(), 1);
    assert_eq!(region_map.tile_count(), 12);
    assert_eq!(region_map.tiles_mapped, 12);
}

#[test]
fn test_queue_creation() {
    let queue = PathfindingQueue::new(40);
    assert_eq!(queue.paths_per_tick(), 40);
    assert_eq!(queue.total_queued(), 0);
}

#[test]
fn test_priority_ordering() {
    let mut queue = PathfindingQueue::new(10);
    let entity1 = Entity::from_raw(1);
    let entity2 = Entity::from_raw(2);
    let entity3 = Entity::from_raw(3);
    queue.request_path(entity3, IVec2::new(0, 0), IVec2::new(10, 10), PathPriority::Lazy, PathReason::Wandering, 1);
    queue.request_path(entity1, IVec2::new(0, 0), IVec2::new(5, 5), PathPriority::Urgent, PathReason::FleeingPredator, 1);
    queue.request_path(entity2, IVec2::new(0, 0), IVec2::new(7, 7), PathPriority::Normal, PathReason::MovingToFood, 1);
    let requests = queue.drain(3);
    assert_eq!(requests.len(), 3);
    assert!(matches!(requests[0].priority, PathPriority::Urgent));
    assert!(matches!(requests[1].priority, PathPriority::Normal));
    assert!(matches!(requests[2].priority, PathPriority::Lazy));
}

#[test]
fn test_deduplication() {
    let mut queue = PathfindingQueue::new(10);
    let entity = Entity::from_raw(1);
    let from = IVec2::new(0, 0);
    let to = IVec2::new(10, 10);
    queue.request_path(entity, from, to, PathPriority::Normal, PathReason::MovingToFood, 1);
    queue.request_path(entity, from, to, PathPriority::Normal, PathReason::MovingToFood, 2);
    assert_eq!(queue.total_queued(), 1);
}

#[test]
fn ids_are_fresh_even_for_duplicates() {
    let mut queue = PathfindingQueue::default();
    let e = Entity::from_raw(4);
    let a = queue.request_path(e, IVec2::new(0, 0), IVec2::new(1, 1), PathPriority::Lazy, PathReason::Wandering, 0);
    let b = queue.request_path(e, IVec2::new(0, 0), IVec2::new(1, 1), PathPriority::Lazy, PathReason::Wandering, 0);
    assert_eq!(a.as_u64(), 1);
    assert_eq!(b.as_u64(), 2);
    assert_eq!(queue.queue_sizes(), (0, 0, 1));
}

#[test]
fn drain_respects_budget_and_frees_keys() {
    let mut queue = PathfindingQueue::new(2);
    let e = Entity::from_raw(9);
    for i in 0..3 {
        queue.request_path(e, IVec2::new(0, 0), IVec2::new(i, 0), PathPriority::Normal, PathReason::Hunting, 0);
    }
    let first = queue.drain(2);
    assert_eq!(first.len(), 2);
    assert_eq!(first[0].to, IVec2::new(0, 0));
    assert_eq!(first[1].to, IVec2::new(1, 0));
    assert_eq!(queue.total_queued(), 1);
    assert_eq!(queue.total_processed(), 2);
    // A drained request can be asked for again.
    queue.request_path(e, IVec2::new(0, 0), IVec2::new(0, 0), PathPriority::Urgent, PathReason::FleeingPredator, 3);
    let rest = queue.drain(10);
    assert_eq!(rest.len(), 2);
    assert_eq!(rest[0].priority, PathPriority::Urgent);
    assert_eq!(rest[1].to, IVec2::new(2, 0));
    assert_eq!(queue.total_processed(), 4);
    assert_eq!(queue.drain(5).len(), 0);
}

#[test]
fn reasons_have_default_priorities_and_names() {
    assert_eq!(PathReason::FleeingPredator.default_priority(), PathPriority::Urgent);
    assert_eq!(PathReason::MovingToWater.default_priority(), PathPriority::Normal);
    assert_eq!(PathReason::Wandering.default_priority(), PathPriority::Lazy);
    assert_eq!(PathReason::MovingToMate.to_string(), "MovingToMate");
    assert_eq!(PathFailureReason::InvalidGoal.to_string(), "InvalidGoal");
}

#[test]
fn request_keeps_its_fields() {
    let id = PathRequestId::new(42);
    let r = PathRequest::new(id, Entity::from_raw(3), IVec2::new(1, 2), IVec2::new(3, 4), PathPriority::Normal, PathReason::MovingToFood, 77);
    assert_eq!(r.id.as_u64(), 42);
    assert_eq!(r.entity, Entity::from_raw(3));
    assert_eq!(r.from, IVec2::new(1, 2));
    assert_eq!(r.to, IVec2::new(3, 4));
    assert_eq!(r.requested_tick, 77);
}

#[test]
fn region_ids_follow_the_row_by_row_scan() {
    let mut grid = PathfindingGrid::new();
    // Area met second in the scan (row 2), though it starts at a lower x.
    grid.set_cost(IVec2::new(0, 2), 1);
    grid.set_cost(IVec2::new(1, 2), 1);
    // Area met first (row 0).
    grid.set_cost(IVec2::new(4, 0), 1);
    grid.set_cost(IVec2::new(4, 1), 1);
    // Outside the bounds, reachable from the first area only.
    grid.set_cost(IVec2::new(5, 1), 1);
    grid.set_cost(IVec2::new(6, 1), 1);
    // Outside the bounds and unreachable: never recorded.
    grid.set_cost(IVec2::new(20, 20), 1);
    let mut region_map = RegionMap::new();
    region_map.build_from_grid(&grid, (IVec2::new(0, 0), IVec2::new(4, 3)));
    assert_eq!(region_map.get_region(IVec2::new(4, 0)), Some(0));
    assert_eq!(region_map.get_region(IVec2::new(6, 1)), Some(0));
    assert_eq!(region_map.get_region(IVec2::new(0, 2)), Some(1));
    assert_eq!(region_map.region_count(), 2);
    assert!(!region_map.is_mapped(IVec2::new(20, 20)));
    assert_eq!(region_map.tile_count(), 6);
}

#[test]
fn region_rejection_agrees_with_the_search() {
    let mut grid = PathfindingGrid::new();
    // Two open blocks joined only through a corner: (2, 2) and (3, 3).
    for x in 0..3 {
        for y in 0..3 {
            grid.set_cost(IVec2::new(x, y), 1);
            grid.set_cost(IVec2::new(x + 3, y + 3), 1);
        }
    }
    let mut region_map = RegionMap::new();
    region_map.build_from_grid(&grid, (IVec2::zero(), IVec2::new(5, 5)));
    let pairs = [
        (IVec2::new(0, 0), IVec2::new(2, 2)),
        (IVec2::new(0, 0), IVec2::new(5, 5)),
        (IVec2::new(3, 3), IVec2::new(4, 5)),
        (IVec2::new(2, 2), IVec2::new(3, 3)),
    ];
    for (a, b) in pairs {
        assert_eq!(region_map.are_connected(a, b), find_path(a, b, &grid, false, None).is_some());
    }
    // Opening one corner joins the blocks for both.
    grid.set_cost(IVec2::new(3, 2), 1);
    region_map.build_from_grid(&grid, (IVec2::zero(), IVec2::new(5, 5)));
    assert!(region_map.are_connected(IVec2::new(0, 0), IVec2::new(5, 5)));
    assert!(find_path(IVec2::new(0, 0), IVec2::new(5, 5), &grid, false, None).is_some());
}
