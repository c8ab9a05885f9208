use vstd::prelude::*;
use crate::geometry::{IVec2, pair_key};
use crate::pathfinding::astar::{budget_suffices, find_path_with_cache, is_route, route_cost, route_exists};
use crate::pathfinding::cache::{PathCache, insert_outcome, stored_by};
use crate::pathfinding::grid::{PathfindingGrid, walkable_in, cost_in};
use crate::pathfinding::path::Path;
use crate::pathfinding::request::{PathFailureReason, PathPriority, PathRequestId};
use crate::entities::movement::{MoveOrder, MovementComponent};

verus! {

/// Steps the search of a move order may take.
pub const MOVE_ORDER_MAX_STEPS: u32 = 5000;

/// Ticks between two clean-ups of the path cache.
pub const CACHE_CLEANUP_INTERVAL: u64 = 100;

/// A creature wants a path computed on the grid.
#[derive(Debug, Clone, Copy, PartialEq, Eq, Structural)]
pub struct PathRequest {
    pub origin: IVec2,
    pub destination: IVec2,
    pub allow_diagonal: bool,
    pub max_steps: Option<u32>,
}

/// No path could be found to the destination.
#[derive(Debug, Clone, Copy, PartialEq, Eq, Structural)]
pub struct PathfindingFailed {
    pub attempted_destination: IVec2,
}

/// A queued request is waiting for its path.
#[derive(Debug, Clone, Copy, PartialEq, Eq, Structural)]
pub struct PathRequested {
    pub request_id: PathRequestId,
    pub target: IVec2,
    pub priority: PathPriority,
    pub requested_tick: u64,
}

/// A queued request failed.
#[derive(Debug, Clone, Copy, PartialEq, Eq, Structural)]
pub struct PathFailed {
    pub reason: PathFailureReason,
    pub retry_count: u32,
}

impl MoveOrder {
    /// The grid request a move order turns into for a creature at `origin`.
    pub fn to_path_request(&self, origin: IVec2) -> (r: PathRequest)
        ensures
            r == (PathRequest {
                origin,
                destination: self.destination,
                allow_diagonal: self.allow_diagonal,
                max_steps: Some(MOVE_ORDER_MAX_STEPS),
            }),
    {
        PathRequest {
            origin,
            destination: self.destination,
            allow_diagonal: self.allow_diagonal,
            max_steps: Some(MOVE_ORDER_MAX_STEPS),
        }
    }
}

/// An order to walk to `destination` without diagonal steps.
pub fn issue_move_order(destination: IVec2) -> (o: MoveOrder)
    ensures
        o == (MoveOrder { destination, allow_diagonal: false }),
{
    MoveOrder { destination, allow_diagonal: false }
}

/// Serves one grid request through the cache: the route found, or the
/// failure naming the destination.
pub fn process_path_request(
    request: &PathRequest,
    grid: &PathfindingGrid,
    cache: &mut PathCache,
    current_tick: u64,
) -> (r: Result<Path, PathfindingFailed>)
    requires
        old(cache).entries().contains_key(pair_key(request.origin, request.destination)) ==> old(
            cache,
        ).entries()[pair_key(request.origin, request.destination)].1 <= current_tick,
        old(cache).entries().len() >= old(cache).max_entries_view() ==> stored_by(old(cache).entries(), current_tick),
        old(cache).hit_count() < u64::MAX,
        old(cache).miss_count() < u64::MAX,
    ensures
        ({
            let k = pair_key(request.origin, request.destination);
            let m = old(cache).entries();
            let hit = m.contains_key(k) && current_tick - m[k].1 <= old(cache).duration_view();
            &&& hit ==> r is Ok && r->Ok_0.waypoints_view() == m[k].0@ && r->Ok_0.index_view() == 0
            &&& !hit && (!walkable_in(grid@, request.origin) || !walkable_in(grid@, request.destination))
                ==> r == Err::<Path, PathfindingFailed>(PathfindingFailed { attempted_destination: request.destination })
            &&& !hit && r is Ok ==> r->Ok_0.index_view() == 0 && is_route(
                grid@,
                request.allow_diagonal,
                request.origin,
                request.destination,
                r->Ok_0.waypoints_view(),
            ) && forall|w: Seq<IVec2>|
                #[trigger] is_route(grid@, request.allow_diagonal, request.origin, request.destination, w)
                    && route_cost(grid@, w) < u32::MAX ==> route_cost(grid@, r->Ok_0.waypoints_view())
                    <= route_cost(grid@, w)
            &&& !hit && budget_suffices(grid, request.max_steps) && walkable_in(grid@, request.origin) && walkable_in(
                grid@,
                request.destination,
            ) && route_exists(grid@, request.allow_diagonal, request.origin, request.destination) ==> r is Ok
            &&& r is Err ==> r->Err_0.attempted_destination == request.destination
            &&& !hit && r is Ok ==> r->Ok_0.waypoints_view().no_duplicates() && !r->Ok_0.waypoints_view().contains(
                request.origin,
            )
        }),
        final(cache).max_entries_view() == old(cache).max_entries_view(),
        final(cache).duration_view() == old(cache).duration_view(),
        ({
            let k = pair_key(request.origin, request.destination);
            let m = old(cache).entries();
            let hit = m.contains_key(k) && current_tick - m[k].1 <= old(cache).duration_view();
            &&& hit ==> final(cache).entries() == m && final(cache).hit_count() == old(cache).hit_count() + 1
                && final(cache).miss_count() == old(cache).miss_count()
            &&& !hit ==> final(cache).hit_count() == old(cache).hit_count() && final(cache).miss_count()
                == old(cache).miss_count() + 1
            &&& !hit && r is Err ==> final(cache).entries() == m
            &&& !hit && r is Ok ==> exists|v: Vec<IVec2>|
                v@ == r->Ok_0.waypoints_view() && #[trigger] insert_outcome(
                    m,
                    final(cache).entries(),
                    old(cache).max_entries_view(),
                    old(cache).duration_view(),
                    k,
                    (v, current_tick),
                )
        }),
{
    match find_path_with_cache(
        request.origin,
        request.destination,
        grid,
        cache,
        current_tick,
        request.allow_diagonal,
        request.max_steps,
    ) {
        Some(path) => Ok(path),
        None => Err(PathfindingFailed { attempted_destination: request.destination }),
    }
}

/// Whether the path cache is cleaned up at this tick.
pub fn cache_cleanup_due(tick: u64) -> (b: bool)
    ensures
        b == (tick % CACHE_CLEANUP_INTERVAL == 0),
{
    tick % CACHE_CLEANUP_INTERVAL == 0
}

/// Tile `p` lies in the chunk at `c` (16 by 16 tiles).
pub open spec fn in_chunk(c: (i32, i32), p: IVec2) -> bool {
    c.0 * 16 <= p.x < c.0 * 16 + 16 && c.1 * 16 <= p.y < c.1 * 16 + 16
}

/// Tile `p` lies in one of the chunks at `chunks`.
pub open spec fn in_chunks(chunks: Seq<(i32, i32)>, p: IVec2) -> bool {
    exists|i: int| 0 <= i < chunks.len() && #[trigger] in_chunk(chunks[i], p)
}

/// A grid in which every tile of the given chunks can be entered at cost 1.
pub fn build_pathfinding_grid_from_chunks(chunks: &Vec<(i32, i32)>) -> (g: PathfindingGrid)
    requires
        forall|i: int|
            0 <= i < chunks.len() ==> -134217728 <= (#[trigger] chunks[i]).0 < 134217728 && -134217728
                <= chunks[i].1 < 134217728,
    ensures
        forall|p: IVec2| in_chunks(chunks@, p) <==> #[trigger] g@.contains_key(p),
        forall|p: IVec2| #[trigger] g@.contains_key(p) ==> g@[p] == 1,
{
    let mut grid = PathfindingGrid::new();
    let mut i: usize = 0;
    while i < chunks.len()
        invariant
            0 <= i <= chunks.len(),
            forall|j: int|
                0 <= j < chunks.len() ==> -134217728 <= (#[trigger] chunks[j]).0 < 134217728 && -134217728
                    <= chunks[j].1 < 134217728,
            forall|p: IVec2| in_chunks(chunks@.take(i as int), p) <==> #[trigger] grid@.contains_key(p),
            forall|p: IVec2| #[trigger] grid@.contains_key(p) ==> grid@[p] == 1,
        decreases chunks.len() - i,
    {
        let (cx, cy) = chunks[i];
        let ghost before = grid@;
        let mut lx: i32 = 0;
        while lx < 16
            invariant
                0 <= lx <= 16,
                -134217728 <= cx < 134217728,
                -134217728 <= cy < 134217728,
                forall|p: IVec2| #[trigger] grid@.contains_key(p) ==> grid@[p] == 1,
                forall|p: IVec2|
                    #[trigger] grid@.contains_key(p) <==> before.contains_key(p) || (cx * 16 <= p.x < cx * 16
                        + lx && cy * 16 <= p.y < cy * 16 + 16),
            decreases 16 - lx,
        {
            let mut ly: i32 = 0;
            while ly < 16
                invariant
                    0 <= lx < 16,
                    0 <= ly <= 16,
                    -134217728 <= cx < 134217728,
                    -134217728 <= cy < 134217728,
                    forall|p: IVec2| #[trigger] grid@.contains_key(p) ==> grid@[p] == 1,
                    forall|p: IVec2|
                        #[trigger] grid@.contains_key(p) <==> before.contains_key(p) || (cx * 16 <= p.x
                            < cx * 16 + lx && cy * 16 <= p.y < cy * 16 + 16) || (p.x == cx * 16 + lx && cy
                            * 16 <= p.y < cy * 16 + ly),
                decreases 16 - ly,
            {
                let pos = IVec2 { x: cx * 16 + lx, y: cy * 16 + ly };
                grid.set_cost(pos, 1);
                ly = ly + 1;
            }
            lx = lx + 1;
        }
        proof {
            let t0 = chunks@.take(i as int);
            let t1 = chunks@.take(i + 1);
            assert forall|p: IVec2| in_chunks(t1, p) <==> #[trigger] grid@.contains_key(p) by {
                if in_chunks(t1, p) {
                    let j = choose|j: int| 0 <= j < t1.len() && #[trigger] in_chunk(t1[j], p);
                    if j < i {
                        assert(t0[j] == t1[j]);
                        assert(in_chunks(t0, p));
                    }
                }
                if before.contains_key(p) {
                    assert(in_chunks(t0, p));
                    let j = choose|j: int| 0 <= j < t0.len() && #[trigger] in_chunk(t0[j], p);
                    assert(t1[j] == t0[j]);
                }
                if cx * 16 <= p.x < cx * 16 + 16 && cy * 16 <= p.y < cy * 16 + 16 {
                    assert(t1[i as int] == (cx, cy));
                    assert(in_chunk(t1[i as int], p));
                }
            }
        }
        i = i + 1;
    }
    proof {
        assert(chunks@.take(chunks.len() as int) =~= chunks@);
    }
    grid
}

/// Tile bounds to cover for a world whose chunks (16 by 16 tiles) span
/// `min_chunk ..= max_chunk`, with a chunk of padding on every side.
pub fn padded_tile_bounds(min_chunk: (i32, i32), max_chunk: (i32, i32)) -> (r: ((i32, i32), (i32, i32)))
    requires
        i32::MIN + 16 <= min_chunk.0 * 16 <= i32::MAX,
        i32::MIN + 16 <= min_chunk.1 * 16 <= i32::MAX,
        i32::MIN <= (max_chunk.0 + 1) * 16 <= i32::MAX - 16,
        i32::MIN <= (max_chunk.1 + 1) * 16 <= i32::MAX - 16,
    ensures
        r.0.0 == min_chunk.0 * 16 - 16,
        r.0.1 == min_chunk.1 * 16 - 16,
        r.1.0 == (max_chunk.0 + 1) * 16 + 16,
        r.1.1 == (max_chunk.1 + 1) * 16 + 16,
{
    ((min_chunk.0 * 16 - 16, min_chunk.1 * 16 - 16), ((max_chunk.0 + 1) * 16 + 16, (max_chunk.1 + 1) * 16
        + 16))
}

/// The cost of entering a tile: a resource standing on a passable tile
/// blocks it (`u32::MAX`); otherwise the terrain's cost.
pub fn tile_cost_with_resource(terrain_cost: u32, has_resource: bool) -> (c: u32)
    ensures
        c == if has_resource && terrain_cost != u32::MAX { u32::MAX } else { terrain_cost },
{
    if has_resource && terrain_cost != u32::MAX {
        u32::MAX
    } else {
        terrain_cost
    }
}

/// Turns a computed path into the movement that follows it from its start.
pub fn bridge_path_ready_to_movement(waypoints: Vec<IVec2>) -> (m: MovementComponent)
    ensures
        m matches MovementComponent::FollowingPath { path: p, index } && index == 0 && p@ == waypoints@,
{
    MovementComponent::following_path(waypoints)
}

} // verus!
