use life_sim_core::geometry::IVec2;
use life_sim_core::pathfinding::astar::{find_path, find_path_with_cache, manhattan_distance, PathNode};
use life_sim_core::pathfinding::cache::PathCache;
use life_sim_core::pathfinding::grid::PathfindingGrid;
use life_sim_core::pathfinding::path::Path;
use life_sim_core::pathfinding::service::{padded_tile_bounds, tile_cost_with_resource};

/// Share of lookups that found a valid route (0 before any lookup).
fn hit_rate(cache: &PathCache) -> f64 {
    let total = cache.hits + cache.misses;
    if total == 0 {
        0.0
    } else {
        cache.hits as f64 / total as f64
    }
}

fn open_grid(width: i32, height: i32) -> PathfindingGrid {
    let mut grid = PathfindingGrid::new();
    for y in 0..height {
        for x in 0..width {
            grid.set_cost(IVec2::new(x, y), 1);
        }
    }
    grid
}

#[test]
fn test_straight_line_path() {
    let grid = open_grid(5, 5);
    let path = find_path(IVec2::new(0, 0), IVec2::new(4, 0), &grid, false, None);
    assert!(path.is_some());
    let path = path.unwrap();
    assert_eq!(path.all_waypoints().len(), 4);
}

#[test]
fn test_obstacle_avoidance() {
    let mut grid = PathfindingGrid::new();
    for y in 0..5 {
        for x in 0..5 {
            if x == 2 && y != 4 {
                grid.set_cost(IVec2::new(x, y), u32::MAX);
            } else {
                grid.set_cost(IVec2::new(x, y), 1);
            }
        }
    }
    let path = find_path(IVec2::new(0, 0), IVec2::new(4, 0), &grid, false, None);
    assert!(path.is_some());
    let path = path.unwrap();
    assert!(path.all_waypoints().len() > 4);
}

#[test]
fn test_no_path_exists() {
    let mut grid = PathfindingGrid::new();
    grid.set_cost(IVec2::new(0, 0), 1);
    grid.set_cost(IVec2::new(5, 5), 1);
    let path = find_path(IVec2::new(0, 0), IVec2::new(5, 5), &grid, false, Some(100));
    assert!(path.is_none());
}

#[test]
fn test_manhattan_distance() {
    assert_eq!(manhattan_distance(IVec2::new(0, 0), IVec2::new(3, 4)), 7);
    assert_eq!(manhattan_distance(IVec2::new(5, 5), IVec2::new(2, 1)), 7);
}

#[test]
fn test_cache_stores_and_retrieves_path() {
    let mut cache = PathCache::default();
    let origin = IVec2::new(0, 0);
    let dest = IVec2::new(10, 10);
    let path = vec![IVec2::new(1, 1), IVec2::new(2, 2)];
    cache.insert(origin, dest, path.clone(), 0);
    let retrieved = cache.get(origin, dest, 0);
    assert!(retrieved.is_some());
    assert_eq!(retrieved.unwrap(), path);
}

#[test]
fn test_cache_miss_returns_none() {
    let mut cache = PathCache::default();
    let result = cache.get(IVec2::zero(), IVec2::new(10, 10), 0);
    assert!(result.is_none());
    assert_eq!(cache.misses, 1);
    assert_eq!(cache.hits, 0);
}

#[test]
fn test_cache_expires_after_ttl() {
    let mut cache = PathCache::new(1000, 100);
    let path = vec![IVec2::new(1, 1)];
    cache.insert(IVec2::zero(), IVec2::new(10, 10), path, 0);
    assert!(cache.get(IVec2::zero(), IVec2::new(10, 10), 50).is_some());
    assert!(cache.get(IVec2::zero(), IVec2::new(10, 10), 150).is_none());
}

#[test]
fn test_cache_cleanup_removes_expired() {
    let mut cache = PathCache::new(1000, 100);
    cache.insert(IVec2::zero(), IVec2::new(1, 1), vec![IVec2::new(0, 1)], 0);
    cache.insert(IVec2::zero(), IVec2::new(2, 2), vec![IVec2::new(0, 2)], 200);
    cache.cleanup(250);
    assert_eq!(cache.cache.len(), 1);
}

#[test]
fn test_cache_evicts_when_full() {
    let mut cache = PathCache::new(2, 1000);
    cache.insert(IVec2::zero(), IVec2::new(1, 1), vec![], 0);
    cache.insert(IVec2::zero(), IVec2::new(2, 2), vec![], 0);
    cache.insert(IVec2::zero(), IVec2::new(3, 3), vec![], 0);
    assert_eq!(cache.cache.len(), 2);
}

#[test]
fn test_find_path_with_cache_integration() {
    let grid = open_grid(10, 10);
    let mut cache = PathCache::default();
    let origin = IVec2::new(0, 0);
    let dest = IVec2::new(5, 5);
    let path1 = find_path_with_cache(origin, dest, &grid, &mut cache, 0, false, None);
    assert!(path1.is_some());
    assert_eq!(cache.cache.len(), 1);
    let path2 = find_path_with_cache(origin, dest, &grid, &mut cache, 10, false, None);
    assert!(path2.is_some());
    assert_eq!(path1.unwrap().all_waypoints(), path2.unwrap().all_waypoints());
}

#[test]
fn test_cache_clears_on_clear() {
    let mut cache = PathCache::default();
    cache.insert(IVec2::zero(), IVec2::new(1, 1), vec![IVec2::new(0, 1)], 0);
    cache.insert(IVec2::zero(), IVec2::new(2, 2), vec![IVec2::new(0, 2)], 0);
    assert_eq!(cache.cache.len(), 2);
    cache.clear();
    assert_eq!(cache.cache.len(), 0);
}

#[test]
fn test_cache_hit_rate_metrics() {
    let mut cache = PathCache::default();
    let path = vec![IVec2::new(1, 1)];
    assert_eq!(hit_rate(&cache), 0.0);
    cache.insert(IVec2::zero(), IVec2::new(10, 10), path.clone(), 0);
    assert!(cache.get(IVec2::zero(), IVec2::new(10, 10), 10).is_some());
    assert_eq!(cache.hits, 1);
    assert_eq!(cache.misses, 0);
    assert_eq!(hit_rate(&cache), 1.0);
    assert!(cache.get(IVec2::zero(), IVec2::new(20, 20), 10).is_none());
    assert_eq!(cache.hits, 1);
    assert_eq!(cache.misses, 1);
    assert_eq!(hit_rate(&cache), 0.5);
    assert!(cache.get(IVec2::zero(), IVec2::new(10, 10), 20).is_some());
    assert_eq!(cache.hits, 2);
    assert_eq!(cache.misses, 1);
    assert!((hit_rate(&cache) - 0.666).abs() < 0.01);
}

// ---------------------------------------------------------------------------
// Further cases of the library's own.
// ---------------------------------------------------------------------------

#[test]
fn route_steps_are_adjacent_and_end_at_destination() {
    let grid = open_grid(6, 6);
    let origin = IVec2::new(0, 0);
    let dest = IVec2::new(5, 3);
    let path = find_path(origin, dest, &grid, false, None).unwrap();
    let w = path.all_waypoints();
    assert_eq!(*w.last().unwrap(), dest);
    let mut prev = origin;
    for p in w {
        assert_eq!((p.x - prev.x).abs() + (p.y - prev.y).abs(), 1);
        prev = *p;
    }
    // On an open grid the route is a shortest one.
    assert_eq!(w.len(), 8);
}

#[test]
fn diagonal_route_on_open_grid() {
    let grid = open_grid(5, 5);
    let path = find_path(IVec2::new(0, 0), IVec2::new(4, 4), &grid, true, None).unwrap();
    let w = path.all_waypoints();
    assert_eq!(*w.last().unwrap(), IVec2::new(4, 4));
    let mut prev = IVec2::new(0, 0);
    for p in w {
        assert!((p.x - prev.x).abs() <= 1 && (p.y - prev.y).abs() <= 1);
        prev = *p;
    }
}

#[test]
fn unwalkable_endpoint_gives_no_path() {
    let grid = open_grid(3, 3);
    assert!(find_path(IVec2::new(0, 0), IVec2::new(10, 10), &grid, false, None).is_none());
    assert!(find_path(IVec2::new(10, 10), IVec2::new(0, 0), &grid, false, None).is_none());
}

#[test]
fn same_tile_gives_empty_path() {
    let grid = open_grid(3, 3);
    let path = find_path(IVec2::new(1, 1), IVec2::new(1, 1), &grid, false, None).unwrap();
    assert_eq!(path.all_waypoints().len(), 0);
    assert!(path.is_complete());
}

#[test]
fn step_limit_zero_finds_nothing() {
    let grid = open_grid(3, 3);
    assert!(find_path(IVec2::new(0, 0), IVec2::new(2, 0), &grid, false, Some(0)).is_none());
}

#[test]
fn grid_costs_and_removal() {
    let mut grid = PathfindingGrid::new();
    assert_eq!(grid.get_cost(IVec2::new(1, 2)), u32::MAX);
    assert!(!grid.is_walkable(IVec2::new(1, 2)));
    grid.set_cost(IVec2::new(1, 2), 7);
    assert_eq!(grid.get_cost(IVec2::new(1, 2)), 7);
    assert!(grid.is_walkable(IVec2::new(1, 2)));
    grid.remove(IVec2::new(1, 2));
    assert!(!grid.is_walkable(IVec2::new(1, 2)));
    grid.set_cost(IVec2::new(-4, 9), 3);
    grid.clear();
    assert_eq!(grid.get_cost(IVec2::new(-4, 9)), u32::MAX);
}

#[test]
fn path_walks_through_waypoints() {
    let mut path = Path::new(vec![IVec2::new(1, 0), IVec2::new(2, 0), IVec2::new(3, 0)]);
    assert_eq!(path.current_target(), Some(IVec2::new(1, 0)));
    assert_eq!(path.remaining().len(), 3);
    path.advance();
    assert_eq!(path.current_target(), Some(IVec2::new(2, 0)));
    assert_eq!(path.remaining(), &[IVec2::new(2, 0), IVec2::new(3, 0)]);
    path.advance();
    path.advance();
    assert!(path.is_complete());
    assert_eq!(path.current_target(), None);
    path.advance();
    assert!(path.is_complete());
    assert_eq!(path.all_waypoints().len(), 3);
}

#[test]
fn path_node_weight_and_order() {
    let a = PathNode::new(IVec2::new(0, 0), 3, IVec2::new(2, 2), 1);
    assert_eq!(a.weight(), 3 + 4);
    let b = PathNode::new(IVec2::new(1, 1), 1, IVec2::new(2, 2), 1);
    assert_eq!(b.weight(), 1 + 2);
    assert!(b.precedes(&a));
    assert!(!a.precedes(&b));
}

#[test]
fn cache_reset_metrics_and_default_limits() {
    let mut cache = PathCache::default();
    cache.get(IVec2::zero(), IVec2::new(1, 1), 0);
    assert_eq!(cache.misses, 1);
    cache.reset_metrics();
    assert_eq!(cache.hits, 0);
    assert_eq!(cache.misses, 0);
    // The default cache keeps a route for 300 ticks.
    cache.insert(IVec2::zero(), IVec2::new(1, 1), vec![IVec2::new(1, 1)], 0);
    assert!(cache.get(IVec2::zero(), IVec2::new(1, 1), 300).is_some());
    assert!(cache.get(IVec2::zero(), IVec2::new(1, 1), 301).is_none());
}

#[test]
fn cached_route_is_served_without_search() {
    let grid = PathfindingGrid::new();
    let mut cache = PathCache::default();
    let stored = vec![IVec2::new(7, 7)];
    cache.insert(IVec2::zero(), IVec2::new(7, 7), stored.clone(), 0);
    // The grid is empty, so only the cache can answer.
    let path = find_path_with_cache(IVec2::zero(), IVec2::new(7, 7), &grid, &mut cache, 5, false, None);
    assert_eq!(path.unwrap().all_waypoints(), &stored[..]);
    assert_eq!(cache.hits, 1);
}

#[test]
fn world_bounds_get_a_chunk_of_padding() {
    assert_eq!(padded_tile_bounds((-2, -1), (3, 4)), ((-48, -32), (80, 96)));
    assert_eq!(padded_tile_bounds((0, 0), (0, 0)), ((-16, -16), (32, 32)));
}

#[test]
fn resources_block_passable_tiles() {
    assert_eq!(tile_cost_with_resource(3, true), u32::MAX);
    assert_eq!(tile_cost_with_resource(3, false), 3);
    assert_eq!(tile_cost_with_resource(u32::MAX, true), u32::MAX);
    assert_eq!(tile_cost_with_resource(u32::MAX, false), u32::MAX);
}

#[test]
fn cheap_detour_beats_expensive_shortcut() {
    let mut grid = PathfindingGrid::new();
    for x in 0..3 {
        for y in 0..2 {
            grid.set_cost(IVec2::new(x, y), 1);
        }
    }
    grid.set_cost(IVec2::new(1, 0), 10);
    let path = find_path(IVec2::new(0, 0), IVec2::new(2, 0), &grid, false, None).expect("a route exists");
    assert_eq!(
        path.all_waypoints().to_vec(),
        vec![IVec2::new(0, 1), IVec2::new(1, 1), IVec2::new(2, 1), IVec2::new(2, 0)]
    );
}

#[test]
fn route_found_whenever_one_exists() {
    let mut grid = PathfindingGrid::new();
    // A winding corridor.
    let corridor = [(0, 0), (0, 1), (0, 2), (1, 2), (2, 2), (2, 1), (2, 0), (3, 0), (4, 0)];
    for (x, y) in corridor.iter() {
        grid.set_cost(IVec2::new(*x, *y), 1);
    }
    let path = find_path(IVec2::new(0, 0), IVec2::new(4, 0), &grid, false, None).expect("the corridor connects");
    assert_eq!(path.all_waypoints().len(), 8);
    grid.set_cost(IVec2::new(2, 1), u32::MAX);
    assert!(find_path(IVec2::new(0, 0), IVec2::new(4, 0), &grid, false, None).is_none());
}

#[test]
fn full_cache_evicts_the_oldest_entry() {
    let mut cache = PathCache::new(2, 1000);
    let a = IVec2::new(0, 0);
    cache.insert(a, IVec2::new(5, 0), vec![IVec2::new(5, 0)], 3);
    cache.insert(a, IVec2::new(1, 0), vec![IVec2::new(1, 0)], 1);
    cache.insert(a, IVec2::new(7, 0), vec![IVec2::new(7, 0)], 4);
    assert!(cache.get(a, IVec2::new(1, 0), 4).is_none());
    assert_eq!(cache.get(a, IVec2::new(5, 0), 4), Some(vec![IVec2::new(5, 0)]));
    assert_eq!(cache.get(a, IVec2::new(7, 0), 4), Some(vec![IVec2::new(7, 0)]));
}

#[test]
fn routes_repeat_no_tile_and_leave_out_the_origin() {
    let mut grid = open_grid(6, 6);
    for y in 0..6 {
        grid.set_cost(IVec2::new(2, y), 0);
    }
    let origin = IVec2::new(0, 0);
    let p = find_path(origin, IVec2::new(5, 5), &grid, true, None).unwrap();
    let w = p.all_waypoints();
    assert!(!w.contains(&origin));
    for i in 0..w.len() {
        for j in (i + 1)..w.len() {
            assert_ne!(w[i], w[j]);
        }
    }
    assert_eq!(w.last(), Some(&IVec2::new(5, 5)));
}

#[test]
fn zero_step_limit_finds_nothing() {
    let grid = open_grid(4, 4);
    assert!(find_path(IVec2::new(0, 0), IVec2::new(3, 3), &grid, false, Some(0)).is_none());
    assert!(find_path(IVec2::new(1, 1), IVec2::new(1, 1), &grid, false, Some(0)).is_none());
    assert!(find_path(IVec2::new(1, 1), IVec2::new(1, 1), &grid, false, Some(1)).is_some());
}

#[test]
fn advancing_k_times_reaches_waypoint_k() {
    let w = vec![IVec2::new(1, 0), IVec2::new(2, 0), IVec2::new(3, 0)];
    for k in 0..6usize {
        let mut p = Path::new(w.clone());
        for _ in 0..k {
            p.advance();
        }
        let i = k.min(w.len());
        assert_eq!(p.remaining(), &w[i..]);
        assert_eq!(p.current_target(), w.get(k).copied());
        assert_eq!(p.is_complete(), k >= w.len());
        assert_eq!(p.all_waypoints(), &w[..]);
    }
}

#[test]
fn a_large_enough_step_budget_always_finds_the_route() {
    // A winding corridor: 5 rows joined at alternate ends.
    let mut grid = PathfindingGrid::new();
    for y in 0..9 {
        for x in 0..12 {
            let open = y % 2 == 0 || (y % 4 == 1 && x == 11) || (y % 4 == 3 && x == 0);
            if open {
                grid.set_cost(IVec2::new(x, y), 1);
            }
        }
    }
    let p = find_path(IVec2::new(0, 0), IVec2::new(0, 8), &grid, false, Some(5000)).unwrap();
    assert_eq!(p.all_waypoints().last(), Some(&IVec2::new(0, 8)));
    assert!(find_path(IVec2::new(0, 0), IVec2::new(0, 8), &grid, false, Some(3)).is_none());
}
