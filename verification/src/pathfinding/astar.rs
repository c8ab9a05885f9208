use vstd::prelude::*;
use std::collections::{HashMap, HashSet};
use crate::geometry::{IVec2, pos_key, key_of, lemma_pos_key_injective, manhattan, abs};
use crate::pathfinding::grid::{PathfindingGrid, cost_in, walkable_in};
use crate::pathfinding::path::Path;
use crate::pathfinding::cache::{PathCache, insert_outcome, stored_by};
use crate::geometry::pair_key;

verus! {

/// One node of the search: a tile, the tile it was reached from, the cost
/// of reaching it, the estimated remaining cost and the cost of the tile.
#[derive(Clone, Copy, Debug, PartialEq, Eq)]
pub struct PathNode {
    pub index: IVec2,
    pub parent: Option<IVec2>,
    pub g_cost: u32,
    pub h_cost: u32,
    pub cost_to_pass: u32,
}

/// Whether `b` is one step away from `a` (the eight surrounding tiles when
/// diagonal moves are allowed, the four orthogonal ones otherwise).
pub open spec fn is_step(a: IVec2, b: IVec2, diag: bool) -> bool {
    let dx = b.x - a.x;
    let dy = b.y - a.y;
    if diag {
        -1 <= dx <= 1 && -1 <= dy <= 1 && !(dx == 0 && dy == 0)
    } else {
        (dx == 0 && (dy == 1 || dy == -1)) || (dy == 0 && (dx == 1 || dx == -1))
    }
}

/// The tile from which the `i`-th waypoint of a walk is entered.
pub open spec fn walk_prev(from: IVec2, w: Seq<IVec2>, i: int) -> IVec2 {
    if i == 0 { from } else { w[i - 1] }
}

/// `w` is a sequence of single steps onto enterable tiles, starting next to `from`.
pub open spec fn is_walk(grid: Map<IVec2, u32>, diag: bool, from: IVec2, w: Seq<IVec2>) -> bool {
    forall|i: int|
        0 <= i < w.len() ==> walkable_in(grid, #[trigger] w[i]) && is_step(
            walk_prev(from, w, i),
            w[i],
            diag,
        )
}

/// `w` leads from `origin` to `dest` over enterable tiles (empty when they coincide).
pub open spec fn is_route(
    grid: Map<IVec2, u32>,
    diag: bool,
    origin: IVec2,
    dest: IVec2,
    w: Seq<IVec2>,
) -> bool {
    &&& is_walk(grid, diag, origin, w)
    &&& if w.len() == 0 {
        origin == dest
    } else {
        w.last() == dest
    }
}

/// Sign of an integer.
pub open spec fn signum(v: int) -> int {
    if v > 0 { 1 } else if v < 0 { -1 } else { 0 }
}

/// Number of tiles between two points along a straight or diagonal line.
pub open spec fn line_steps(a: IVec2, b: IVec2) -> int {
    if abs(b.x - a.x) >= abs(b.y - a.y) { abs(b.x - a.x) } else { abs(b.y - a.y) }
}

impl PathNode {
    /// A node at `index` reached with cost `g_cost`, estimating the rest by
    /// the Manhattan distance to `dest`.
    pub fn new(index: IVec2, g_cost: u32, dest: IVec2, cost_to_pass: u32) -> (n: PathNode)
        requires
            manhattan(dest, index) <= i32::MAX,
        ensures
            n.index == index,
            n.parent == None::<IVec2>,
            n.g_cost == g_cost,
            n.h_cost == manhattan(dest, index),
            n.cost_to_pass == cost_to_pass,
    {
        PathNode {
            index,
            parent: None,
            g_cost,
            h_cost: manhattan_distance(dest, index),
            cost_to_pass,
        }
    }

    /// Estimated total cost through this node.
    pub fn weight(&self) -> (w: u32)
        requires
            self.g_cost + self.h_cost <= u32::MAX,
        ensures
            w == self.g_cost + self.h_cost,
    {
        self.g_cost + self.h_cost
    }

    /// Whether this node is explored before `other`: lower cost so far
    /// first, then lower estimate.
    pub fn precedes(&self, other: &PathNode) -> (b: bool)
        ensures
            b == (self.g_cost < other.g_cost || (self.g_cost == other.g_cost && self.h_cost
                < other.h_cost)),
    {
        self.g_cost < other.g_cost || (self.g_cost == other.g_cost && self.h_cost < other.h_cost)
    }
}

/// Manhattan distance between two tiles.
pub fn manhattan_distance(a: IVec2, b: IVec2) -> (d: u32)
    requires
        manhattan(a, b) <= i32::MAX,
    ensures
        d == manhattan(a, b),
{
    let dx: i64 = a.x as i64 - b.x as i64;
    let dy: i64 = a.y as i64 - b.y as i64;
    let ax: i64 = if dx < 0 { -dx } else { dx };
    let ay: i64 = if dy < 0 { -dy } else { dy };
    (ax + ay) as u32
}

/// The search estimate: the Manhattan distance, capped at `u32::MAX`.
fn heuristic(a: IVec2, b: IVec2) -> (d: u32)
    ensures
        d == (if manhattan(a, b) <= u32::MAX { manhattan(a, b) } else { u32::MAX as int }),
{
    let dx: i64 = a.x as i64 - b.x as i64;
    let dy: i64 = a.y as i64 - b.y as i64;
    let ax: i64 = if dx < 0 { -dx } else { dx };
    let ay: i64 = if dy < 0 { -dy } else { dy };
    if ax + ay <= u32::MAX as i64 {
        (ax + ay) as u32
    } else {
        u32::MAX
    }
}

/// Adds the tile `pos + (dx, dy)` to `out` when it is a representable tile.
pub(crate) fn push_offset(out: &mut Vec<IVec2>, pos: IVec2, dx: i32, dy: i32)
    requires
        -1 <= dx <= 1,
        -1 <= dy <= 1,
    ensures
        forall|t: IVec2| old(out)@.contains(t) ==> #[trigger] final(out)@.contains(t),
        forall|t: IVec2|
            t.x == pos.x + dx && t.y == pos.y + dy ==> #[trigger] final(out)@.contains(t),
        forall|i: int|
            0 <= i < final(out)@.len() ==> old(out)@.contains(#[trigger] final(out)@[i]) || (
            final(out)@[i].x == pos.x + dx && final(out)@[i].y == pos.y + dy),
        final(out)@.len() <= old(out)@.len() + 1,
{
    let x: i64 = pos.x as i64 + dx as i64;
    let y: i64 = pos.y as i64 + dy as i64;
    let ghost before = out@;
    if i32::MIN as i64 <= x && x <= i32::MAX as i64 && i32::MIN as i64 <= y && y
        <= i32::MAX as i64 {
        out.push(IVec2 { x: x as i32, y: y as i32 });
        proof {
            assert forall|t: IVec2| before.contains(t) implies #[trigger] out@.contains(t) by {
                let j = choose|j: int| 0 <= j < before.len() && before[j] == t;
                assert(out@[j] == t);
            }
            assert forall|t: IVec2|
                t.x == pos.x + dx && t.y == pos.y + dy implies #[trigger] out@.contains(t) by {
                assert(out@[before.len() as int] == t);
            }
            assert forall|i: int| 0 <= i < out@.len() implies before.contains(
                #[trigger] out@[i],
            ) || (out@[i].x == pos.x + dx && out@[i].y == pos.y + dy) by {
                if i < before.len() {
                    assert(before[i] == out@[i]);
                }
            }
        }
    }
}

/// The tiles one step away from `pos`: north, east, south, west, then
/// (when diagonal moves are allowed) north-east, south-east, south-west,
/// north-west.
fn get_neighbors(pos: IVec2, allow_diagonal: bool) -> (r: Vec<IVec2>)
    ensures
        forall|i: int| 0 <= i < r.len() ==> is_step(pos, #[trigger] r@[i], allow_diagonal),
        forall|q: IVec2| is_step(pos, q, allow_diagonal) ==> #[trigger] r@.contains(q),
        r.len() <= 8,
{
    let mut out: Vec<IVec2> = Vec::new();
    push_offset(&mut out, pos, 0, 1);
    push_offset(&mut out, pos, 1, 0);
    push_offset(&mut out, pos, 0, -1);
    push_offset(&mut out, pos, -1, 0);
    if allow_diagonal {
        push_offset(&mut out, pos, 1, 1);
        push_offset(&mut out, pos, 1, -1);
        push_offset(&mut out, pos, -1, -1);
        push_offset(&mut out, pos, -1, 1);
    }
    out
}

/// Coordinate reached after `k` unit steps from `s` in direction `sign`.
pub open spec fn step_coord(s: int, sign: int, k: int) -> int {
    if sign > 0 {
        s + k
    } else if sign < 0 {
        s - k
    } else {
        s
    }
}

/// The tiles from `start` (excluded) towards `end`, one unit step per axis
/// at a time, as many as the larger of the two coordinate differences.
fn interpolate_tiles(start: IVec2, end: IVec2) -> (tiles: Vec<IVec2>)
    requires
        i32::MIN <= step_coord(start.x as int, signum(end.x - start.x), line_steps(start, end))
            <= i32::MAX,
        i32::MIN <= step_coord(start.y as int, signum(end.y - start.y), line_steps(start, end))
            <= i32::MAX,
    ensures
        tiles.len() == line_steps(start, end),
        forall|i: int|
            #![trigger tiles@[i]]
            0 <= i < tiles.len() ==> tiles@[i].x == step_coord(
                start.x as int,
                signum(end.x - start.x),
                i + 1,
            ) && tiles@[i].y == step_coord(start.y as int, signum(end.y - start.y), i + 1),
{
    let mut tiles: Vec<IVec2> = Vec::new();
    let dx: i64 = end.x as i64 - start.x as i64;
    let dy: i64 = end.y as i64 - start.y as i64;
    let ax: i64 = if dx < 0 { -dx } else { dx };
    let ay: i64 = if dy < 0 { -dy } else { dy };
    let steps: i64 = if ax >= ay { ax } else { ay };
    if steps == 0 {
        return tiles;
    }
    let step_x: i64 = if dx > 0 { 1 } else if dx < 0 { -1 } else { 0 };
    let step_y: i64 = if dy > 0 { 1 } else if dy < 0 { -1 } else { 0 };
    let mut cx: i64 = start.x as i64;
    let mut cy: i64 = start.y as i64;
    let mut k: i64 = 0;
    while k < steps
        invariant
            0 <= k <= steps,
            steps == line_steps(start, end),
            step_x == signum(end.x - start.x),
            step_y == signum(end.y - start.y),
            cx == step_coord(start.x as int, step_x as int, k as int),
            cy == step_coord(start.y as int, step_y as int, k as int),
            i32::MIN <= step_coord(start.x as int, step_x as int, steps as int) <= i32::MAX,
            i32::MIN <= step_coord(start.y as int, step_y as int, steps as int) <= i32::MAX,
            tiles.len() == k,
            forall|i: int|
                #![trigger tiles@[i]]
                0 <= i < tiles.len() ==> tiles@[i].x == step_coord(
                    start.x as int,
                    step_x as int,
                    i + 1,
                ) && tiles@[i].y == step_coord(start.y as int, step_y as int, i + 1),
        decreases steps - k,
    {
        cx = cx + step_x;
        cy = cy + step_y;
        k = k + 1;
        tiles.push(IVec2 { x: cx as i32, y: cy as i32 });
    }
    tiles
}

/// Facts about the search state that `find_path` maintains: every recorded
/// node sits under its own key, the origin has no parent, every other node
/// is an enterable tile one step from an explored parent, and parents were
/// explored before their explored children.
#[verifier::opaque]
pub open spec fn links_ok(
    nodes: Map<u64, PathNode>,
    grid: Map<IVec2, u32>,
    diag: bool,
    origin: IVec2,
    explored: Set<u64>,
    rank: Map<u64, nat>,
) -> bool {
    &&& forall|k: u64| #[trigger] nodes.contains_key(k) ==> pos_key(nodes[k].index) == k
    &&& nodes.contains_key(pos_key(origin))
    &&& nodes[pos_key(origin)].parent is None
    &&& forall|k: u64|
        #[trigger] nodes.contains_key(k) && k != pos_key(origin) ==> {
            &&& nodes[k].parent is Some
            &&& explored.contains(pos_key(nodes[k].parent->0))
            &&& nodes.contains_key(pos_key(nodes[k].parent->0))
            &&& is_step(nodes[k].parent->0, nodes[k].index, diag)
            &&& walkable_in(grid, nodes[k].index)
        }
    &&& forall|k: u64|
        #[trigger] nodes.contains_key(k) && k != pos_key(origin) && explored.contains(k)
            ==> rank[pos_key(nodes[k].parent->0)] < rank[k]
    &&& rank.dom() == explored
    &&& explored.finite()
    &&& forall|k: u64| #[trigger] explored.contains(k) ==> rank[k] < explored.len()
    &&& forall|k: u64| #[trigger] explored.contains(k) ==> nodes.contains_key(k)
}

/// Following one parent link from a recorded tile other than the origin
/// leads one step back, to a recorded tile strictly earlier in the
/// exploration order.
proof fn lemma_follow_parent(
    nodes: Map<u64, PathNode>,
    grid: Map<IVec2, u32>,
    diag: bool,
    origin: IVec2,
    explored: Set<u64>,
    rank: Map<u64, nat>,
    current: IVec2,
)
    requires
        links_ok(nodes, grid, diag, origin, explored, rank),
        nodes.contains_key(pos_key(current)),
        current != origin,
    ensures
        nodes[pos_key(current)].parent is Some,
        nodes.contains_key(pos_key(nodes[pos_key(current)].parent->0)),
        is_step(nodes[pos_key(current)].parent->0, current, diag),
        walkable_in(grid, current),
        chain_measure(explored, rank, nodes[pos_key(current)].parent->0) < chain_measure(
            explored,
            rank,
            current,
        ),
{
    reveal(links_ok);
    let k = pos_key(current);
    lemma_pos_key_injective(current, origin);
    lemma_pos_key_injective(nodes[k].index, current);
    let p = nodes[k].parent->0;
    assert(explored.contains(pos_key(p)));
    assert(rank[pos_key(p)] < explored.len());
}

/// How far a tile is from the origin along parent links, bounded by the
/// exploration order.
spec fn chain_measure(explored: Set<u64>, rank: Map<u64, nat>, p: IVec2) -> nat {
    if explored.contains(pos_key(p)) {
        rank[pos_key(p)]
    } else {
        explored.len()
    }
}

/// Along a walk whose tiles are recorded with each one's predecessor as
/// parent, the cost recorded for a tile is the cost of the walk up to it,
/// unless it was held at `u32::MAX`.
proof fn lemma_chain_route_cost(
    nodes: Map<u64, PathNode>,
    grid: Map<IVec2, u32>,
    origin: IVec2,
    w: Seq<IVec2>,
    t: int,
)
    requires
        chain_costs(nodes, grid, origin),
        0 <= t < w.len(),
        forall|i: int|
            0 <= i <= t ==> nodes.contains_key(pos_key(#[trigger] w[i])) && w[i] != origin
                && nodes[pos_key(w[i])].index == w[i] && nodes[pos_key(w[i])].parent == Some(
                walk_prev(origin, w, i),
            ),
    ensures
        nodes[pos_key(w[t])].g_cost < u32::MAX ==> route_cost(grid, w.take(t + 1)) == nodes[pos_key(w[t])].g_cost,
    decreases t,
{
    let wt = w[t];
    let k = pos_key(wt);
    lemma_pos_key_injective(wt, origin);
    assert(nodes.contains_key(k) && wt != origin && nodes[k].index == wt);
    assert(k != pos_key(origin));
    let par = walk_prev(origin, w, t);
    assert(nodes[k].parent == Some(par));
    let gp = nodes[pos_key(par)].g_cost as int;
    let c = cost_in(grid, wt) as int;
    assert(nodes[k].g_cost == sat_add(gp, c)) by {
        reveal(chain_costs);
    }
    lemma_route_cost_take(grid, w, t);
    if t == 0 {
        assert(w.take(0) =~= Seq::<IVec2>::empty());
        assert(par == origin);
        assert(gp == 0) by {
            reveal(chain_costs);
        }
    } else {
        lemma_chain_route_cost(nodes, grid, origin, w, t - 1);
        assert(par == w[t - 1]);
    }
}

/// Follows parent links back from `destination` to `origin` and lists the
/// tiles of the route from `origin` (excluded) to `destination`.
fn reconstruct_path(
    all_nodes: &HashMap<u64, PathNode>,
    origin: IVec2,
    destination: IVec2,
    Ghost(grid): Ghost<Map<IVec2, u32>>,
    Ghost(diag): Ghost<bool>,
    Ghost(explored): Ghost<Set<u64>>,
    Ghost(rank): Ghost<Map<u64, nat>>,
) -> (path: Path)
    requires
        links_ok(all_nodes@, grid, diag, origin, explored, rank),
        chain_costs(all_nodes@, grid, origin),
        all_nodes@.contains_key(pos_key(destination)),
    ensures
        is_route(grid, diag, origin, destination, path.waypoints_view()),
        path.index_view() == 0,
        origin == destination ==> path.waypoints_view().len() == 0,
        all_nodes@[pos_key(destination)].g_cost < u32::MAX ==> route_cost(grid, path.waypoints_view())
            == all_nodes@[pos_key(destination)].g_cost,
        path.waypoints_view().no_duplicates(),
        !path.waypoints_view().contains(origin),
{
    let mut back: Vec<IVec2> = Vec::new();
    let mut current = destination;
    while current != origin
        invariant
            links_ok(all_nodes@, grid, diag, origin, explored, rank),
            all_nodes@.contains_key(pos_key(current)),
            back.len() == 0 ==> current == destination,
            origin == destination ==> back.len() == 0,
            back.len() > 0 ==> back@[0] == destination,
            back.len() > 0 ==> is_step(current, back@[back.len() - 1], diag),
            forall|i: int| 0 <= i < back.len() ==> walkable_in(grid, #[trigger] back@[i]),
            forall|i: int|
                0 <= i < back.len() - 1 ==> is_step(back@[i + 1], #[trigger] back@[i], diag),
            forall|i: int, j: int|
                0 <= i < j < back.len() ==> chain_measure(explored, rank, #[trigger] back@[j]) < chain_measure(
                    explored,
                    rank,
                    #[trigger] back@[i],
                ),
            forall|i: int|
                0 <= i < back.len() ==> chain_measure(explored, rank, current) < chain_measure(
                    explored,
                    rank,
                    #[trigger] back@[i],
                ),
            forall|i: int|
                0 <= i < back.len() ==> all_nodes@.contains_key(pos_key(#[trigger] back@[i])) && back@[i] != origin
                    && all_nodes@[pos_key(back@[i])].parent == Some(
                    if i + 1 < back.len() {
                        back@[i + 1]
                    } else {
                        current
                    },
                ),
        decreases chain_measure(explored, rank, current),
    {
        let k = key_of(current);
        proof {
            lemma_follow_parent(all_nodes@, grid, diag, origin, explored, rank, current);
        }
        let node = *all_nodes.get(&k).unwrap();
        let parent = node.parent.unwrap();
        let ghost old_back = back@;
        let ghost old_current = current;
        back.push(current);
        proof {
            assert forall|i: int| 0 <= i < back.len() implies all_nodes@.contains_key(pos_key(#[trigger] back@[i]))
                && back@[i] != origin && all_nodes@[pos_key(back@[i])].parent == Some(
                if i + 1 < back.len() {
                    back@[i + 1]
                } else {
                    parent
                },
            ) by {
                if i < old_back.len() {
                    assert(back@[i] == old_back[i]);
                    if i + 1 < old_back.len() {
                        assert(back@[i + 1] == old_back[i + 1]);
                    } else {
                        assert(back@[i + 1] == old_current);
                    }
                }
            }
            assert forall|i: int| 0 <= i < back.len() - 1 implies is_step(
                back@[i + 1],
                #[trigger] back@[i],
                diag,
            ) by {
                assert(back@[i] == old_back[i]);
                if i + 1 < old_back.len() {
                    assert(back@[i + 1] == old_back[i + 1]);
                }
            }
            assert forall|i: int| 0 <= i < back.len() implies walkable_in(
                grid,
                #[trigger] back@[i],
            ) by {
                if i < old_back.len() {
                    assert(back@[i] == old_back[i]);
                }
            }
            assert forall|i: int, j: int| 0 <= i < j < back.len() implies chain_measure(
                explored,
                rank,
                #[trigger] back@[j],
            ) < chain_measure(explored, rank, #[trigger] back@[i]) by {
                assert(back@[i] == old_back[i]);
                if j < old_back.len() {
                    assert(back@[j] == old_back[j]);
                } else {
                    assert(back@[j] == old_current);
                }
            }
            assert forall|i: int| 0 <= i < back.len() implies chain_measure(explored, rank, parent) < chain_measure(
                explored,
                rank,
                #[trigger] back@[i],
            ) by {
                if i < old_back.len() {
                    assert(back@[i] == old_back[i]);
                } else {
                    assert(back@[i] == old_current);
                }
            }
        }
        current = parent;
    }
    // Lay out the sparse route from the origin, then expand each hop.
    let mut sparse: Vec<IVec2> = Vec::new();
    sparse.push(origin);
    let n = back.len();
    let mut j: usize = 0;
    while j < n
        invariant
            n == back.len(),
            0 <= j <= n,
            sparse.len() == j + 1,
            sparse@[0] == origin,
            forall|i: int| 1 <= i <= j ==> #[trigger] sparse@[i] == back@[n - i],
        decreases n - j,
    {
        sparse.push(back[n - 1 - j]);
        j = j + 1;
    }
    let mut full: Vec<IVec2> = Vec::new();
    let m = sparse.len();
    let mut i: usize = 0;
    while i + 1 < m
        invariant
            m == sparse.len(),
            m == n + 1,
            n == back.len(),
            sparse@[0] == origin,
            forall|t: int| 1 <= t <= n ==> #[trigger] sparse@[t] == back@[n - t],
            back.len() > 0 ==> is_step(origin, back@[back.len() - 1], diag),
            forall|t: int| 0 <= t < back.len() ==> walkable_in(grid, #[trigger] back@[t]),
            forall|t: int|
                0 <= t < back.len() - 1 ==> is_step(back@[t + 1], #[trigger] back@[t], diag),
            0 <= i < m,
            full.len() == i,
            forall|t: int| 0 <= t < i ==> #[trigger] full@[t] == sparse@[t + 1],
        decreases m - i,
    {
        let a = sparse[i];
        let b = sparse[i + 1];
        proof {
            let t = n - (i + 1);
            assert(back@[t] == b);
            if i == 0 {
                assert(a == origin);
            } else {
                assert(a == back@[t + 1]);
            }
            assert(is_step(a, b, diag));
        }
        let mut hop = interpolate_tiles(a, b);
        proof {
            assert(hop@.len() == 1);
            assert(hop@[0] == b);
        }
        full.append(&mut hop);
        i = i + 1;
    }
    proof {
        let w = full@;
        assert(w.len() == n);
        assert forall|a: int, b: int| 0 <= a < w.len() && 0 <= b < w.len() && a != b implies w[a] != w[b] by {
            assert(w[a] == back@[n - 1 - a]);
            assert(w[b] == back@[n - 1 - b]);
            if n - 1 - a < n - 1 - b {
                assert(chain_measure(explored, rank, back@[n - 1 - b]) < chain_measure(explored, rank, back@[n - 1 - a]));
            } else {
                assert(chain_measure(explored, rank, back@[n - 1 - a]) < chain_measure(explored, rank, back@[n - 1 - b]));
            }
        }
        assert forall|a: int| 0 <= a < w.len() implies w[a] != origin by {
            assert(w[a] == back@[n - 1 - a]);
        }
        assert forall|t: int| 0 <= t < w.len() implies walkable_in(grid, #[trigger] w[t])
            && is_step(walk_prev(origin, w, t), w[t], diag) by {
            assert(w[t] == back@[n - 1 - t]);
            if t > 0 {
                assert(w[t - 1] == back@[n - t]);
            }
        }
        if n > 0 {
            assert(w.last() == back@[0]);
            lemma_links_recorded(all_nodes@, grid, diag, origin, explored, rank);
            assert forall|t: int| 0 <= t <= n - 1 implies all_nodes@.contains_key(pos_key(#[trigger] w[t]))
                && w[t] != origin && all_nodes@[pos_key(w[t])].index == w[t] && all_nodes@[pos_key(
                w[t],
            )].parent == Some(walk_prev(origin, w, t)) by {
                assert(w[t] == back@[n - 1 - t]);
                lemma_pos_key_injective(all_nodes@[pos_key(w[t])].index, w[t]);
                if t > 0 {
                    assert(w[t - 1] == back@[n - t]);
                }
            }
            lemma_chain_route_cost(all_nodes@, grid, origin, w, n - 1);
            assert(w.take(n as int) == w);
        } else {
            assert(route_cost(grid, w) == 0);
            assert(current == origin);
            assert(all_nodes@[pos_key(destination)].g_cost == 0) by {
                reveal(chain_costs);
            }
        }
    }
    Path::new(full)
}

/// The search state at the start: only the origin is recorded.
proof fn lemma_links_init(
    nodes: Map<u64, PathNode>,
    grid: Map<IVec2, u32>,
    diag: bool,
    origin: IVec2,
)
    requires
        nodes.dom() == set![pos_key(origin)],
        nodes[pos_key(origin)].index == origin,
        nodes[pos_key(origin)].parent is None,
    ensures
        links_ok(nodes, grid, diag, origin, Set::<u64>::empty(), Map::<u64, nat>::empty()),
{
    reveal(links_ok);
    assert(Map::<u64, nat>::empty().dom() =~= Set::<u64>::empty());
}

/// Exploring a recorded tile keeps the search facts.
proof fn lemma_links_explore(
    nodes: Map<u64, PathNode>,
    grid: Map<IVec2, u32>,
    diag: bool,
    origin: IVec2,
    explored: Set<u64>,
    rank: Map<u64, nat>,
    k: u64,
)
    requires
        links_ok(nodes, grid, diag, origin, explored, rank),
        nodes.contains_key(k),
        !explored.contains(k),
    ensures
        links_ok(nodes, grid, diag, origin, explored.insert(k), rank.insert(k, explored.len())),
{
    reveal(links_ok);
    let ex2 = explored.insert(k);
    let r2 = rank.insert(k, explored.len());
    assert(r2.dom() =~= ex2);
    assert(ex2.len() == explored.len() + 1);
    assert forall|k2: u64|
        #[trigger] nodes.contains_key(k2) && k2 != pos_key(origin) && ex2.contains(k2) implies r2[pos_key(
        nodes[k2].parent->0)] < r2[k2] by {
        let pk = pos_key(nodes[k2].parent->0);
        assert(explored.contains(pk));
        if k2 == k {
            assert(pk != k);
        }
    }
}

/// Recording a better way into an unexplored tile, from an explored
/// neighbour, keeps the search facts.
proof fn lemma_links_relax(
    nodes: Map<u64, PathNode>,
    grid: Map<IVec2, u32>,
    diag: bool,
    origin: IVec2,
    explored: Set<u64>,
    rank: Map<u64, nat>,
    node: PathNode,
    from: IVec2,
)
    requires
        links_ok(nodes, grid, diag, origin, explored, rank),
        explored.contains(pos_key(origin)),
        explored.contains(pos_key(from)),
        !explored.contains(pos_key(node.index)),
        node.parent == Some(from),
        is_step(from, node.index, diag),
        walkable_in(grid, node.index),
    ensures
        links_ok(nodes.insert(pos_key(node.index), node), grid, diag, origin, explored, rank),
{
    reveal(links_ok);
    let n2 = nodes.insert(pos_key(node.index), node);
    assert(pos_key(node.index) != pos_key(origin));
    assert forall|k: u64| #[trigger] n2.contains_key(k) implies pos_key(n2[k].index) == k by {}
}

/// The parent of every recorded tile other than the origin is explored.
proof fn lemma_links_parents(
    nodes: Map<u64, PathNode>,
    grid: Map<IVec2, u32>,
    diag: bool,
    origin: IVec2,
    explored: Set<u64>,
    rank: Map<u64, nat>,
)
    requires
        links_ok(nodes, grid, diag, origin, explored, rank),
    ensures
        forall|k: u64|
            #[trigger] nodes.contains_key(k) && k != pos_key(origin) ==> explored.contains(
                pos_key(nodes[k].parent->0),
            ),
{
    reveal(links_ok);
}

/// Facts that any tile recorded by the search is enterable (or the origin).
proof fn lemma_links_recorded(
    nodes: Map<u64, PathNode>,
    grid: Map<IVec2, u32>,
    diag: bool,
    origin: IVec2,
    explored: Set<u64>,
    rank: Map<u64, nat>,
)
    requires
        links_ok(nodes, grid, diag, origin, explored, rank),
    ensures
        explored.finite(),
        forall|k: u64| #[trigger] explored.contains(k) ==> nodes.contains_key(k),
        forall|k: u64| #[trigger] nodes.contains_key(k) ==> pos_key(nodes[k].index) == k,
        nodes.contains_key(pos_key(origin)),
{
    reveal(links_ok);
}

/// Index of an entry of `open` that no other entry precedes.
fn min_index(open: &Vec<PathNode>) -> (m: usize)
    requires
        open.len() > 0,
    ensures
        m < open.len(),
        forall|j: int|
            0 <= j < open.len() ==> !(#[trigger] open@[j].g_cost < open@[m as int].g_cost || (
            open@[j].g_cost == open@[m as int].g_cost && open@[j].h_cost < open@[m as int].h_cost)),
{
    let mut best: usize = 0;
    let mut i: usize = 1;
    while i < open.len()
        invariant
            0 < i <= open.len(),
            best < i,
            forall|j: int|
                0 <= j < i ==> !(#[trigger] open@[j].g_cost < open@[best as int].g_cost || (
                open@[j].g_cost == open@[best as int].g_cost && open@[j].h_cost
                < open@[best as int].h_cost)),
        decreases open.len() - i,
    {
        if open[i].precedes(&open[best]) {
            best = i;
        }
        i = i + 1;
    }
    best
}

/// The cost of walking `w`: the sum of the costs of the tiles entered.
pub open spec fn route_cost(grid: Map<IVec2, u32>, w: Seq<IVec2>) -> int
    decreases w.len(),
{
    if w.len() == 0 {
        0
    } else {
        route_cost(grid, w.drop_last()) + cost_in(grid, w.last())
    }
}

/// `a + b`, held at `u32::MAX`.
pub open spec fn sat_add(a: int, b: int) -> int {
    if a + b < u32::MAX { a + b } else { u32::MAX as int }
}

/// The origin costs nothing and every other recorded tile costs its
/// parent's cost plus its own (held at `u32::MAX`).
#[verifier::opaque]
pub open spec fn chain_costs(nodes: Map<u64, PathNode>, grid: Map<IVec2, u32>, origin: IVec2) -> bool {
    &&& nodes[pos_key(origin)].g_cost == 0
    &&& forall|k: u64|
        #[trigger] nodes.contains_key(k) && k != pos_key(origin) ==> nodes[k].g_cost == sat_add(
            nodes[pos_key(nodes[k].parent->0)].g_cost as int,
            cost_in(grid, nodes[k].index) as int,
        )
}

/// Cost facts of the search: the origin costs nothing, every other
/// recorded tile costs its parent's cost plus its own (held at
/// `u32::MAX`), every recorded tile not yet explored waits in the frontier
/// with exactly its record, and no frontier entry is cheaper than the
/// record of its tile.
#[verifier::opaque]
pub open spec fn costs_ok(
    nodes: Map<u64, PathNode>,
    grid: Map<IVec2, u32>,
    origin: IVec2,
    explored: Set<u64>,
    open: Seq<PathNode>,
) -> bool {
    &&& chain_costs(nodes, grid, origin)
    &&& forall|k: u64|
        #[trigger] nodes.contains_key(k) && !explored.contains(k) ==> exists|i: int|
            0 <= i < open.len() && #[trigger] open[i] == nodes[k]
    &&& forall|i: int| 0 <= i < open.len() ==> nodes[pos_key(open[i].index)].g_cost <= (#[trigger] open[i]).g_cost
}

/// Every explored tile was reached at the least cost of any route to it.
#[verifier::opaque]
pub open spec fn explored_optimal(
    nodes: Map<u64, PathNode>,
    grid: Map<IVec2, u32>,
    diag: bool,
    origin: IVec2,
    explored: Set<u64>,
) -> bool {
    forall|k: u64, w: Seq<IVec2>|
        #![trigger explored.contains(k), is_route(grid, diag, origin, nodes[k].index, w)]
        explored.contains(k) && is_route(grid, diag, origin, nodes[k].index, w) ==> nodes[k].g_cost <= route_cost(
            grid,
            w,
        )
}

/// Every enterable, unexplored tile one step from an explored tile other
/// than `skip` is recorded at no more than the explored tile's cost plus
/// its own.
#[verifier::opaque]
pub open spec fn relaxed(
    nodes: Map<u64, PathNode>,
    grid: Map<IVec2, u32>,
    diag: bool,
    explored: Set<u64>,
    skip: Option<u64>,
) -> bool {
    forall|k: u64, n: IVec2|
        #![trigger explored.contains(k), is_step(nodes[k].index, n, diag)]
        explored.contains(k) && skip != Some(k) && is_step(nodes[k].index, n, diag) && walkable_in(grid, n)
            && !explored.contains(pos_key(n)) ==> nodes.contains_key(pos_key(n)) && nodes[pos_key(n)].g_cost
            <= nodes[k].g_cost + cost_in(grid, n)
}

proof fn lemma_route_cost_take(grid: Map<IVec2, u32>, w: Seq<IVec2>, j: int)
    requires
        0 <= j < w.len(),
    ensures
        route_cost(grid, w.take(j + 1)) == route_cost(grid, w.take(j)) + cost_in(grid, w[j]),
        route_cost(grid, w.take(j + 1)) <= route_cost(grid, w),
    decreases w.len() - j,
{
    assert(w.take(j + 1).drop_last() == w.take(j));
    if j + 1 < w.len() {
        lemma_route_cost_take(grid, w, j + 1);
    } else {
        assert(w.take(j + 1) == w);
    }
}

/// The first tile of `w` that is not explored, when its last one is not.
proof fn lemma_first_unexplored(w: Seq<IVec2>, explored: Set<u64>) -> (j: int)
    requires
        w.len() > 0,
        !explored.contains(pos_key(w.last())),
    ensures
        0 <= j < w.len(),
        !explored.contains(pos_key(w[j])),
        forall|i: int| 0 <= i < j ==> explored.contains(pos_key(#[trigger] w[i])),
    decreases w.len(),
{
    if w.len() == 1 {
        0
    } else if !explored.contains(pos_key(w.drop_last().last())) {
        let j = lemma_first_unexplored(w.drop_last(), explored);
        assert forall|i: int| 0 <= i < j implies explored.contains(pos_key(#[trigger] w[i])) by {
            assert(w.drop_last()[i] == w[i]);
        }
        assert(w.drop_last()[j] == w[j]);
        j
    } else {
        if exists|i: int| 0 <= i < w.len() - 1 && !explored.contains(pos_key(#[trigger] w[i])) {
            let i0 = choose|i: int| 0 <= i < w.len() - 1 && !explored.contains(pos_key(#[trigger] w[i]));
            let p = w.take(i0 + 1);
            assert(p.last() == w[i0]);
            let j = lemma_first_unexplored(p, explored);
            assert forall|i: int| 0 <= i < j implies explored.contains(pos_key(#[trigger] w[i])) by {
                assert(p[i] == w[i]);
            }
            assert(p[j] == w[j]);
            j
        } else {
            w.len() - 1
        }
    }
}

/// A cost no greater than any frontier entry's is no greater than the cost
/// of any route to an unexplored tile.
proof fn lemma_pop_bound(
    nodes: Map<u64, PathNode>,
    grid: Map<IVec2, u32>,
    diag: bool,
    origin: IVec2,
    explored: Set<u64>,
    rank: Map<u64, nat>,
    open: Seq<PathNode>,
    g: int,
    target: IVec2,
)
    requires
        links_ok(nodes, grid, diag, origin, explored, rank),
        costs_ok(nodes, grid, origin, explored, open),
        explored_optimal(nodes, grid, diag, origin, explored),
        relaxed(nodes, grid, diag, explored, None),
        explored.contains(pos_key(origin)),
        !explored.contains(pos_key(target)),
        forall|i: int| 0 <= i < open.len() ==> g <= (#[trigger] open[i]).g_cost,
    ensures
        forall|w: Seq<IVec2>| #[trigger] is_route(grid, diag, origin, target, w) ==> g <= route_cost(grid, w),
{
    assert forall|w: Seq<IVec2>| #[trigger] is_route(grid, diag, origin, target, w) implies g <= route_cost(grid, w) by {
        if w.len() == 0 {
            assert(origin == target);
        }
        assert(w.last() == target);
        let j = lemma_first_unexplored(w, explored);
        let p = walk_prev(origin, w, j);
        assert(explored.contains(pos_key(p))) by {
            if j > 0 {
                assert(explored.contains(pos_key(w[j - 1])));
            }
        }
        let kp = pos_key(p);
        lemma_links_recorded(nodes, grid, diag, origin, explored, rank);
        assert(nodes.contains_key(kp));
        lemma_pos_key_injective(nodes[kp].index, p);
        assert(nodes[kp].index == p);
        let pre = w.take(j);
        assert(is_route(grid, diag, origin, p, pre)) by {
            assert forall|i: int| 0 <= i < pre.len() implies walkable_in(grid, #[trigger] pre[i]) && is_step(
                walk_prev(origin, pre, i),
                pre[i],
                diag,
            ) by {
                assert(pre[i] == w[i]);
                assert(walkable_in(grid, w[i]) && is_step(walk_prev(origin, w, i), w[i], diag));
                if i > 0 {
                    assert(pre[i - 1] == w[i - 1]);
                }
            }
            if j > 0 {
                assert(pre.last() == w[j - 1]);
            }
        }
        reveal(explored_optimal);
        assert(nodes[kp].g_cost <= route_cost(grid, pre));
        assert(walkable_in(grid, w[j]) && is_step(p, w[j], diag));
        reveal(relaxed);
        assert(is_step(nodes[kp].index, w[j], diag));
        let n = pos_key(w[j]);
        assert(nodes.contains_key(n) && nodes[n].g_cost <= nodes[kp].g_cost + cost_in(grid, w[j]));
        reveal(costs_ok);
        let i = choose|i: int| 0 <= i < open.len() && #[trigger] open[i] == nodes[n];
        assert(g <= open[i].g_cost);
        lemma_route_cost_take(grid, w, j);
    }
}

proof fn lemma_route_cost_nonneg(grid: Map<IVec2, u32>, w: Seq<IVec2>)
    ensures
        route_cost(grid, w) >= 0,
    decreases w.len(),
{
    if w.len() > 0 {
        lemma_route_cost_nonneg(grid, w.drop_last());
    }
}

/// Taking an entry out of the frontier and marking its tile explored keeps
/// the cost facts.
proof fn lemma_costs_after_pop(
    nodes: Map<u64, PathNode>,
    grid: Map<IVec2, u32>,
    origin: IVec2,
    explored: Set<u64>,
    before: Seq<PathNode>,
    after: Seq<PathNode>,
    idx: int,
)
    requires
        costs_ok(nodes, grid, origin, explored, before),
        forall|k: u64| #[trigger] nodes.contains_key(k) ==> pos_key(nodes[k].index) == k,
        0 <= idx < before.len(),
        after.len() == before.len() - 1,
        forall|i: int|
            0 <= i < after.len() ==> #[trigger] after[i] == (if i == idx {
                before[before.len() - 1]
            } else {
                before[i]
            }),
    ensures
        costs_ok(nodes, grid, origin, explored.insert(pos_key(before[idx].index)), after),
{
    reveal(costs_ok);
    let ck = pos_key(before[idx].index);
    let ex2 = explored.insert(ck);
    assert forall|k: u64| #[trigger] nodes.contains_key(k) && !ex2.contains(k) implies exists|i: int|
        0 <= i < after.len() && #[trigger] after[i] == nodes[k] by {
        let i = choose|i: int| 0 <= i < before.len() && #[trigger] before[i] == nodes[k];
        if i == idx {
            assert(pos_key(before[idx].index) == k);
        } else if i == before.len() - 1 {
            assert(after[idx] == nodes[k]);
        } else {
            assert(after[i] == nodes[k]);
        }
    }
    assert forall|i: int| 0 <= i < after.len() implies nodes[pos_key(after[i].index)].g_cost <= (
    #[trigger] after[i]).g_cost by {
        if i == idx {
            assert(after[i] == before[before.len() - 1]);
        } else {
            assert(after[i] == before[i]);
        }
    }
}

/// Recording a cheaper way into an unexplored tile, from an explored one,
/// and queueing it keeps the cost facts.
proof fn lemma_costs_relax(
    nodes: Map<u64, PathNode>,
    grid: Map<IVec2, u32>,
    origin: IVec2,
    explored: Set<u64>,
    open: Seq<PathNode>,
    node: PathNode,
    ck: u64,
)
    requires
        costs_ok(nodes, grid, origin, explored, open),
        forall|k: u64| #[trigger] nodes.contains_key(k) ==> pos_key(nodes[k].index) == k,
        forall|k: u64|
            #[trigger] nodes.contains_key(k) && k != pos_key(origin) ==> explored.contains(
                pos_key(nodes[k].parent->0),
            ),
        forall|i: int| 0 <= i < open.len() ==> nodes.contains_key(pos_key(#[trigger] open[i].index)),
        explored.contains(pos_key(origin)),
        !explored.contains(pos_key(node.index)),
        explored.contains(ck),
        node.parent matches Some(p) && pos_key(p) == ck,
        node.g_cost == sat_add(nodes[ck].g_cost as int, cost_in(grid, node.index) as int),
        nodes.contains_key(pos_key(node.index)) ==> node.g_cost < nodes[pos_key(node.index)].g_cost,
    ensures
        costs_ok(nodes.insert(pos_key(node.index), node), grid, origin, explored, open.push(node)),
{
    reveal(costs_ok);
    reveal(chain_costs);
    let nk = pos_key(node.index);
    let n2 = nodes.insert(nk, node);
    let o2 = open.push(node);
    assert(nk != pos_key(origin));
    assert forall|k: u64| #[trigger] n2.contains_key(k) && k != pos_key(origin) implies n2[k].g_cost == sat_add(
        n2[pos_key(n2[k].parent->0)].g_cost as int,
        cost_in(grid, n2[k].index) as int,
    ) by {
        if k != nk {
            assert(explored.contains(pos_key(nodes[k].parent->0)));
        }
    }
    assert forall|k: u64| #[trigger] n2.contains_key(k) && !explored.contains(k) implies exists|i: int|
        0 <= i < o2.len() && #[trigger] o2[i] == n2[k] by {
        if k == nk {
            assert(o2[open.len() as int] == n2[k]);
        } else {
            let i = choose|i: int| 0 <= i < open.len() && #[trigger] open[i] == nodes[k];
            assert(o2[i] == n2[k]);
        }
    }
    assert forall|i: int| 0 <= i < o2.len() implies n2[pos_key(o2[i].index)].g_cost <= (#[trigger] o2[i]).g_cost by {
        if i < open.len() {
            assert(o2[i] == open[i]);
            assert(nodes.contains_key(pos_key(open[i].index)));
        }
    }
}

/// Recording a cheaper way into an unexplored tile keeps the bounds on the
/// neighbours of explored tiles and the optimality of explored tiles.
proof fn lemma_relaxed_record(
    nodes: Map<u64, PathNode>,
    grid: Map<IVec2, u32>,
    diag: bool,
    origin: IVec2,
    explored: Set<u64>,
    skip: Option<u64>,
    node: PathNode,
)
    requires
        relaxed(nodes, grid, diag, explored, skip),
        explored_optimal(nodes, grid, diag, origin, explored),
        !explored.contains(pos_key(node.index)),
        nodes.contains_key(pos_key(node.index)) ==> node.g_cost < nodes[pos_key(node.index)].g_cost,
    ensures
        relaxed(nodes.insert(pos_key(node.index), node), grid, diag, explored, skip),
        explored_optimal(nodes.insert(pos_key(node.index), node), grid, diag, origin, explored),
{
    reveal(relaxed);
    reveal(explored_optimal);
    let nk = pos_key(node.index);
    let n2 = nodes.insert(nk, node);
    assert forall|k: u64, n: IVec2|
        #![trigger explored.contains(k), is_step(n2[k].index, n, diag)]
        explored.contains(k) && skip != Some(k) && is_step(n2[k].index, n, diag) && walkable_in(grid, n)
            && !explored.contains(pos_key(n)) implies n2.contains_key(pos_key(n)) && n2[pos_key(n)].g_cost
        <= n2[k].g_cost + cost_in(grid, n) by {
        assert(k != nk);
        assert(n2[k] == nodes[k]);
        assert(is_step(nodes[k].index, n, diag));
    }
    assert forall|k: u64, w: Seq<IVec2>|
        #![trigger explored.contains(k), is_route(grid, diag, origin, n2[k].index, w)]
        explored.contains(k) && is_route(grid, diag, origin, n2[k].index, w) implies n2[k].g_cost <= route_cost(
        grid,
        w,
    ) by {
        assert(k != nk);
        assert(n2[k] == nodes[k]);
        assert(is_route(grid, diag, origin, nodes[k].index, w));
    }
}

/// Exploring a tile reached at the least cost of any route to it keeps the
/// optimality of explored tiles, and the neighbour bounds hold for every
/// explored tile but it.
proof fn lemma_explore_costs(
    nodes: Map<u64, PathNode>,
    grid: Map<IVec2, u32>,
    diag: bool,
    origin: IVec2,
    explored: Set<u64>,
    ck: u64,
)
    requires
        explored_optimal(nodes, grid, diag, origin, explored),
        relaxed(nodes, grid, diag, explored, None),
        forall|w: Seq<IVec2>| #[trigger] is_route(grid, diag, origin, nodes[ck].index, w) ==> nodes[ck].g_cost
            <= route_cost(grid, w),
    ensures
        explored_optimal(nodes, grid, diag, origin, explored.insert(ck)),
        relaxed(nodes, grid, diag, explored.insert(ck), Some(ck)),
{
    reveal(relaxed);
    reveal(explored_optimal);
    let ex2 = explored.insert(ck);
    assert forall|k: u64, w: Seq<IVec2>|
        #![trigger ex2.contains(k), is_route(grid, diag, origin, nodes[k].index, w)]
        ex2.contains(k) && is_route(grid, diag, origin, nodes[k].index, w) implies nodes[k].g_cost <= route_cost(
        grid,
        w,
    ) by {
        if k != ck {
            assert(explored.contains(k));
        }
    }
    assert forall|k: u64, n: IVec2|
        #![trigger ex2.contains(k), is_step(nodes[k].index, n, diag)]
        ex2.contains(k) && Some(ck) != Some(k) && is_step(nodes[k].index, n, diag) && walkable_in(grid, n)
            && !ex2.contains(pos_key(n)) implies nodes.contains_key(pos_key(n)) && nodes[pos_key(n)].g_cost
        <= nodes[k].g_cost + cost_in(grid, n) by {
        assert(explored.contains(k));
    }
}

/// Some route leads from `origin` to `dest` over the tiles of `grid`.
pub open spec fn route_exists(grid: Map<IVec2, u32>, diag: bool, origin: IVec2, dest: IVec2) -> bool {
    exists|w: Seq<IVec2>| #[trigger] is_route(grid, diag, origin, dest, w)
}

/// Some entry of the frontier is for tile `p`.
pub open spec fn frontier_has(open: Seq<PathNode>, p: IVec2) -> bool {
    exists|i: int| 0 <= i < open.len() && (#[trigger] open[i]).index == p
}

/// Every enterable tile one step from an explored tile other than `skip`
/// is explored or waits in the frontier.
pub open spec fn frontier_closed(
    grid: Map<IVec2, u32>,
    diag: bool,
    explored: Set<u64>,
    open: Seq<PathNode>,
    skip: Option<IVec2>,
) -> bool {
    forall|t: IVec2, n: IVec2|
        #![trigger explored.contains(pos_key(t)), is_step(t, n, diag)]
        explored.contains(pos_key(t)) && skip != Some(t) && is_step(t, n, diag) && walkable_in(grid, n)
            ==> explored.contains(pos_key(n)) || frontier_has(open, n)
}

/// Every recorded tile is explored or waits in the frontier.
pub open spec fn nodes_waiting(nodes: Map<u64, PathNode>, explored: Set<u64>, open: Seq<PathNode>) -> bool {
    forall|k: u64| #[trigger] nodes.contains_key(k) ==> explored.contains(k) || frontier_has(open, nodes[k].index)
}

/// A set of tiles that holds the origin, not the destination, and every
/// enterable tile one step from its tiles, leaves no route between them.
proof fn lemma_closed_set_blocks(
    grid: Map<IVec2, u32>,
    diag: bool,
    origin: IVec2,
    dest: IVec2,
    explored: Set<u64>,
)
    requires
        explored.contains(pos_key(origin)),
        !explored.contains(pos_key(dest)),
        frontier_closed(grid, diag, explored, Seq::empty(), None),
    ensures
        !route_exists(grid, diag, origin, dest),
{
    if route_exists(grid, diag, origin, dest) {
        let w = choose|w: Seq<IVec2>| #[trigger] is_route(grid, diag, origin, dest, w);
        assert forall|i: int| 0 <= i < w.len() implies explored.contains(pos_key(#[trigger] w[i])) by {
            lemma_walk_stays(grid, diag, origin, w, explored, i);
        }
        if w.len() == 0 {
            assert(origin == dest);
        } else {
            assert(w[w.len() - 1] == dest);
        }
    }
}

proof fn lemma_walk_stays(grid: Map<IVec2, u32>, diag: bool, from: IVec2, w: Seq<IVec2>, explored: Set<u64>, i: int)
    requires
        explored.contains(pos_key(from)),
        frontier_closed(grid, diag, explored, Seq::empty(), None),
        is_walk(grid, diag, from, w),
        0 <= i < w.len(),
    ensures
        explored.contains(pos_key(w[i])),
    decreases i,
{
    if i > 0 {
        lemma_walk_stays(grid, diag, from, w, explored, i - 1);
    }
    let prev = walk_prev(from, w, i);
    assert(walkable_in(grid, w[i]) && is_step(prev, w[i], diag));
    assert(explored.contains(pos_key(prev)));
    assert(!frontier_has(Seq::<PathNode>::empty(), w[i]));
}

/// What the frontier holds after `swap_remove` took its entry at `idx`.
proof fn lemma_frontier_after_pop(before: Seq<PathNode>, after: Seq<PathNode>, idx: int)
    requires
        0 <= idx < before.len(),
        after.len() == before.len() - 1,
        forall|i: int| 0 <= i < after.len() ==> #[trigger] after[i] == (if i == idx { before[before.len() - 1] } else { before[i] }),
    ensures
        forall|p: IVec2| #[trigger] frontier_has(before, p) ==> frontier_has(after, p) || before[idx].index == p,
{
    assert forall|p: IVec2| #[trigger] frontier_has(before, p) implies frontier_has(after, p) || before[idx].index == p by {
        let i = choose|i: int| 0 <= i < before.len() && (#[trigger] before[i]).index == p;
        if i != idx {
            if i == before.len() - 1 {
                assert(after[idx] == before[i]);
            } else {
                assert(after[i] == before[i]);
            }
        }
    }
}

/// A recorded, unexplored tile was reached from an explored parent, so
/// when every explored tile costs at most `g`, relaxing it from a tile of
/// cost `g` never improves it: each tile enters the frontier once.
proof fn lemma_no_improvement(
    nodes: Map<u64, PathNode>,
    grid: Map<IVec2, u32>,
    diag: bool,
    origin: IVec2,
    explored: Set<u64>,
    rank: Map<u64, nat>,
    open: Seq<PathNode>,
    g: u32,
    n: IVec2,
)
    requires
        links_ok(nodes, grid, diag, origin, explored, rank),
        costs_ok(nodes, grid, origin, explored, open),
        explored.contains(pos_key(origin)),
        nodes.contains_key(pos_key(n)),
        !explored.contains(pos_key(n)),
        forall|k: u64| #[trigger] explored.contains(k) ==> nodes[k].g_cost <= g,
    ensures
        nodes[pos_key(n)].g_cost <= sat_add(g as int, cost_in(grid, n) as int),
{
    reveal(links_ok);
    reveal(costs_ok);
    reveal(chain_costs);
    let k = pos_key(n);
    assert(k != pos_key(origin));
    let par = nodes[k].parent->0;
    assert(explored.contains(pos_key(par)));
    lemma_pos_key_injective(nodes[k].index, n);
    assert(nodes[k].index == n);
    let gp = nodes[pos_key(par)].g_cost;
    assert(gp <= g);
    assert(nodes[k].g_cost == sat_add(gp as int, cost_in(grid, n) as int));
}

/// The recorded tiles are tiles that can be entered, so there are at most
/// as many as those.
proof fn lemma_nodes_within_walkable(
    nodes: Map<u64, PathNode>,
    grid_view: Map<IVec2, u32>,
    grid: &PathfindingGrid,
    diag: bool,
    origin: IVec2,
    explored: Set<u64>,
    rank: Map<u64, nat>,
)
    requires
        grid_view == grid@,
        links_ok(nodes, grid_view, diag, origin, explored, rank),
        walkable_in(grid_view, origin),
        nodes.dom().finite(),
    ensures
        nodes.dom().len() <= grid.walkable_keys().len(),
{
    reveal(links_ok);
    grid.lemma_walkable_keys(origin);
    assert forall|k: u64| #[trigger] nodes.dom().contains(k) implies grid.walkable_keys().contains(k) by {
        grid.lemma_walkable_keys(nodes[k].index);
        if k == pos_key(origin) {
        } else {
            assert(walkable_in(grid_view, nodes[k].index));
        }
    }
    vstd::set_lib::lemma_len_subset(nodes.dom(), grid.walkable_keys());
}

/// The step limit cannot cut the search short: there is none, or it is at
/// least the number of enterable tiles of the grid. The search takes one
/// step per entry it queues, and it queues each tile at most once: a tile
/// already queued is never reached more cheaply later, since tiles are
/// taken from the frontier in order of cost and entering a tile costs the
/// same from every neighbour.
pub open spec fn budget_suffices(grid: &PathfindingGrid, max_steps: Option<u32>) -> bool {
    match max_steps {
        None => true,
        Some(n) => n >= grid.walkable_keys().len(),
    }
}

/// Finds a route from `origin` to `destination` over the tiles of `grid`,
/// exploring tiles in order of increasing cost from the origin (a cost
/// that would pass `u32::MAX` is held there). Returns `None` when either
/// end cannot be entered, when no route exists, or when `max_steps` tiles
/// have been taken from the frontier without reaching the destination;
/// when the limit cannot cut the search short (`budget_suffices`, among
/// others when there is none) a route is found whenever one exists. A
/// limit of 0 finds nothing. A route found repeats no tile, leaves out
/// the origin, and costs no more than any route that costs less than
/// `u32::MAX`.
pub fn find_path(
    origin: IVec2,
    destination: IVec2,
    grid: &PathfindingGrid,
    allow_diagonal: bool,
    max_steps: Option<u32>,
) -> (r: Option<Path>)
    ensures
        !walkable_in(grid@, origin) || !walkable_in(grid@, destination) ==> r is None,
        walkable_in(grid@, origin) && origin == destination && max_steps != Some(0u32) ==> (
        r is Some && r->0.waypoints_view().len() == 0),
        r matches Some(p) ==> p.index_view() == 0 && is_route(
            grid@,
            allow_diagonal,
            origin,
            destination,
            p.waypoints_view(),
        ),
        budget_suffices(grid, max_steps) && walkable_in(grid@, origin) && walkable_in(grid@, destination)
            && route_exists(grid@, allow_diagonal, origin, destination) ==> r is Some,
        r matches Some(p) ==> forall|w: Seq<IVec2>|
            #[trigger] is_route(grid@, allow_diagonal, origin, destination, w) && route_cost(grid@, w) < u32::MAX
                ==> route_cost(grid@, p.waypoints_view()) <= route_cost(grid@, w),
        r matches Some(p) ==> p.waypoints_view().no_duplicates() && !p.waypoints_view().contains(origin),
        max_steps == Some(0u32) ==> r is None,
{
    if !grid.is_walkable(origin) {
        return None;
    }
    if !grid.is_walkable(destination) {
        return None;
    }
    let mut to_explore: Vec<PathNode> = Vec::new();
    let mut explored: HashSet<u64> = HashSet::new();
    let mut all_nodes: HashMap<u64, PathNode> = HashMap::new();
    let origin_node = PathNode {
        index: origin,
        parent: None,
        g_cost: 0,
        h_cost: heuristic(destination, origin),
        cost_to_pass: 0,
    };
    to_explore.push(origin_node);
    let ok = key_of(origin);
    all_nodes.insert(ok, origin_node);
    let ghost mut rank: Map<u64, nat> = Map::empty();
    proof {
        assert(all_nodes@.dom() =~= set![pos_key(origin)]);
        lemma_links_init(all_nodes@, grid@, allow_diagonal, origin);
        grid.lemma_walkable_keys(origin);
        assert(explored@ =~= Set::<u64>::empty());
        assert(to_explore@[0].index == origin);
        assert(frontier_has(to_explore@, origin));
        reveal(costs_ok);
        reveal(chain_costs);
        reveal(explored_optimal);
        reveal(relaxed);
        assert(all_nodes@[pos_key(origin)] == origin_node);
        assert(to_explore@[0] == origin_node);
    }
    let mut steps: u32 = 0;
    loop
        invariant
            links_ok(all_nodes@, grid@, allow_diagonal, origin, explored@, rank),
            walkable_in(grid@, origin),
            grid.walkable_keys().finite(),
            explored@.subset_of(grid.walkable_keys()),
            forall|i: int|
                0 <= i < to_explore.len() ==> walkable_in(grid@, #[trigger] to_explore@[i].index)
                    && all_nodes@.contains_key(pos_key(to_explore@[i].index)),
            explored@.len() == 0 ==> to_explore.len() == 1 && to_explore@[0].index == origin
                && steps == 0,
            explored@.len() > 0 ==> explored@.contains(pos_key(origin)),
            max_steps matches Some(m) ==> steps <= m,
            steps + to_explore.len() <= 1 + 8 * explored@.len(),
            all_nodes@.dom().finite(),
            steps + to_explore.len() <= all_nodes@.dom().len(),
            forall|k: u64, i: int|
                #![trigger explored@.contains(k), to_explore@[i]]
                explored@.contains(k) && 0 <= i < to_explore.len() ==> all_nodes@[k].g_cost <= to_explore@[i].g_cost,
            origin == destination ==> explored@.len() == 0,
            frontier_closed(grid@, allow_diagonal, explored@, to_explore@, None),
            nodes_waiting(all_nodes@, explored@, to_explore@),
            !explored@.contains(pos_key(destination)),
            costs_ok(all_nodes@, grid@, origin, explored@, to_explore@),
            explored_optimal(all_nodes@, grid@, allow_diagonal, origin, explored@),
            relaxed(all_nodes@, grid@, allow_diagonal, explored@, None),
            explored@.len() == 0 ==> to_explore@[0].g_cost == 0,
        decreases grid.walkable_keys().difference(explored@).len(), to_explore.len(),
    {
        if to_explore.len() == 0 {
            proof {
                assert(to_explore@ =~= Seq::<PathNode>::empty());
                lemma_links_recorded(all_nodes@, grid@, allow_diagonal, origin, explored@, rank);
                assert(all_nodes@.contains_key(pos_key(origin)));
                assert(pos_key(all_nodes@[pos_key(origin)].index) == pos_key(origin));
                assert(!frontier_has(to_explore@, all_nodes@[pos_key(origin)].index));
                lemma_closed_set_blocks(grid@, allow_diagonal, origin, destination, explored@);
            }
            return None;
        }
        let idx = min_index(&to_explore);
        let ghost before = to_explore@;
        let current = to_explore.swap_remove(idx);
        proof {
            assert forall|i: int| 0 <= i < to_explore.len() implies walkable_in(
                grid@,
                #[trigger] to_explore@[i].index,
            ) && all_nodes@.contains_key(pos_key(to_explore@[i].index)) by {
                if i == idx {
                    assert(to_explore@[i] == before[before.len() - 1]);
                } else {
                    assert(to_explore@[i] == before[i]);
                }
            }
            assert forall|i: int| 0 <= i < to_explore.len() implies #[trigger] to_explore@[i] == (if i == idx {
                before[before.len() - 1]
            } else {
                before[i]
            }) by {}
            lemma_frontier_after_pop(before, to_explore@, idx as int);
            assert(current == before[idx as int]);
            assert forall|j: int| 0 <= j < before.len() implies current.g_cost <= (#[trigger] before[j]).g_cost by {}
            lemma_links_recorded(all_nodes@, grid@, allow_diagonal, origin, explored@, rank);
            lemma_costs_after_pop(all_nodes@, grid@, origin, explored@, before, to_explore@, idx as int);
            if explored@.len() == 0 {
                assert(current.g_cost == 0);
                assert forall|w: Seq<IVec2>| #[trigger] is_route(grid@, allow_diagonal, origin, current.index, w)
                    implies current.g_cost <= route_cost(grid@, w) by {
                    lemma_route_cost_nonneg(grid@, w);
                }
            } else if !explored@.contains(pos_key(current.index)) {
                lemma_pop_bound(
                    all_nodes@,
                    grid@,
                    allow_diagonal,
                    origin,
                    explored@,
                    rank,
                    before,
                    current.g_cost as int,
                    current.index,
                );
            }
            reveal(costs_ok);
            assert(all_nodes@[pos_key(current.index)].g_cost <= current.g_cost);
            vstd::set_lib::lemma_len_subset(explored@, grid.walkable_keys());
            assert(steps <= 8 * grid.walkable_keys().len());
            lemma_nodes_within_walkable(all_nodes@, grid@, grid, allow_diagonal, origin, explored@, rank);
            assert(steps < grid.walkable_keys().len());
        }
        if let Some(max) = max_steps {
            if steps >= max {
                return None;
            }
        }
        let ghost steps_before = steps;
        steps = steps.saturating_add(1);
        assert(steps <= steps_before + 1);
        assert(to_explore.len() + 1 == before.len());
        assert(steps + to_explore.len() <= 1 + 8 * explored@.len());
        assert(steps + to_explore.len() <= all_nodes@.dom().len());
        assert forall|k: u64, i: int|
            #![trigger explored@.contains(k), to_explore@[i]]
            explored@.contains(k) && 0 <= i < to_explore.len() implies all_nodes@[k].g_cost <= to_explore@[i].g_cost by {
            if i == idx {
                assert(to_explore@[i] == before[before.len() - 1]);
                assert(all_nodes@[k].g_cost <= before[before.len() - 1].g_cost);
            } else {
                assert(to_explore@[i] == before[i]);
                assert(all_nodes@[k].g_cost <= before[i].g_cost);
            }
        }
        assert forall|k: u64| #[trigger] explored@.contains(k) implies all_nodes@[k].g_cost <= current.g_cost by {
            assert(all_nodes@[k].g_cost <= before[idx as int].g_cost);
        }
        if current.index == destination {
            proof {
                reveal(costs_ok);
            }
            let path = reconstruct_path(
                &all_nodes,
                origin,
                destination,
                Ghost(grid@),
                Ghost(allow_diagonal),
                Ghost(explored@),
                Ghost(rank),
            );
            proof {
                assert forall|w: Seq<IVec2>|
                    #[trigger] is_route(grid@, allow_diagonal, origin, destination, w) && route_cost(grid@, w)
                        < u32::MAX implies route_cost(grid@, path.waypoints_view()) <= route_cost(grid@, w) by {
                    assert(current.g_cost <= route_cost(grid@, w));
                }
            }
            return Some(path);
        }
        let ck = key_of(current.index);
        if explored.contains(&ck) {
            proof {
                lemma_links_recorded(all_nodes@, grid@, allow_diagonal, origin, explored@, rank);
                assert forall|k: u64| #[trigger] all_nodes@.contains_key(k) implies explored@.contains(k)
                    || frontier_has(to_explore@, all_nodes@[k].index) by {
                    if !explored@.contains(k) {
                        assert(frontier_has(before, all_nodes@[k].index));
                        if all_nodes@[k].index == current.index {
                            assert(pos_key(all_nodes@[k].index) == k);
                        }
                    }
                }
                assert forall|t: IVec2, n: IVec2|
                    #![trigger explored@.contains(pos_key(t)), is_step(t, n, allow_diagonal)]
                    explored@.contains(pos_key(t)) && None::<IVec2> != Some(t) && is_step(t, n, allow_diagonal)
                        && walkable_in(grid@, n) implies explored@.contains(pos_key(n)) || frontier_has(
                    to_explore@,
                    n,
                ) by {
                    if !explored@.contains(pos_key(n)) {
                        assert(frontier_has(before, n));
                    }
                }
                assert(explored@.insert(ck) =~= explored@);
            }
            continue ;
        }
        proof {
            lemma_links_recorded(all_nodes@, grid@, allow_diagonal, origin, explored@, rank);
            lemma_pos_key_injective(all_nodes@[ck].index, current.index);
            assert(all_nodes@[ck].g_cost == current.g_cost) by {
                reveal(costs_ok);
                let i = choose|i: int| 0 <= i < before.len() && #[trigger] before[i] == all_nodes@[ck];
                assert(current.g_cost <= before[i].g_cost);
            }
            lemma_explore_costs(all_nodes@, grid@, allow_diagonal, origin, explored@, ck);
            lemma_links_explore(
                all_nodes@,
                grid@,
                allow_diagonal,
                origin,
                explored@,
                rank,
                ck,
            );
            grid.lemma_walkable_keys(current.index);
            grid.walkable_keys().lemma_set_insert_diff_decreases(explored@, ck);
            rank = rank.insert(ck, explored@.len());
        }
        let ghost old_explored = explored@;
        explored.insert(ck);
        proof {
            lemma_pos_key_injective(current.index, origin);
            lemma_pos_key_injective(current.index, destination);
            assert forall|t: IVec2, n: IVec2|
                #![trigger explored@.contains(pos_key(t)), is_step(t, n, allow_diagonal)]
                explored@.contains(pos_key(t)) && Some(current.index) != Some(t) && is_step(t, n, allow_diagonal)
                    && walkable_in(grid@, n) implies explored@.contains(pos_key(n)) || frontier_has(
                to_explore@,
                n,
            ) by {
                lemma_pos_key_injective(t, current.index);
                assert(old_explored.contains(pos_key(t)));
                if !old_explored.contains(pos_key(n)) {
                    assert(frontier_has(before, n));
                }
            }
            assert forall|k: u64| #[trigger] all_nodes@.contains_key(k) implies explored@.contains(k) || frontier_has(
                to_explore@,
                all_nodes@[k].index,
            ) by {
                if !old_explored.contains(k) {
                    assert(frontier_has(before, all_nodes@[k].index));
                    if all_nodes@[k].index == current.index {
                        assert(pos_key(all_nodes@[k].index) == k);
                    }
                }
            }
        }
        let neighbors = get_neighbors(current.index, allow_diagonal);
        let ghost popped_len = to_explore.len();
        proof {
            assert(!old_explored.contains(ck));
            assert(explored@ == old_explored.insert(ck));
            assert(explored@.len() == old_explored.len() + 1);
            assert(steps + popped_len <= 1 + 8 * old_explored.len());
        }
        let mut i: usize = 0;
        while i < neighbors.len()
            invariant
                neighbors.len() <= 8,
                i <= neighbors.len(),
                all_nodes@.dom().finite(),
                steps + to_explore.len() <= all_nodes@.dom().len(),
                forall|k: u64, j: int|
                    #![trigger explored@.contains(k), to_explore@[j]]
                    explored@.contains(k) && 0 <= j < to_explore.len() ==> all_nodes@[k].g_cost <= to_explore@[j].g_cost,
                forall|k: u64| #[trigger] explored@.contains(k) ==> all_nodes@[k].g_cost <= current.g_cost,
                to_explore.len() <= popped_len + i,
                steps + popped_len <= 1 + 8 * old_explored.len(),
                explored@.len() == old_explored.len() + 1,
                links_ok(all_nodes@, grid@, allow_diagonal, origin, explored@, rank),
                explored@.contains(pos_key(origin)),
                explored@.contains(ck),
                ck == pos_key(current.index),
                forall|j: int|
                    0 <= j < neighbors.len() ==> is_step(
                        current.index,
                        #[trigger] neighbors@[j],
                        allow_diagonal,
                    ),
                forall|j: int|
                    0 <= j < to_explore.len() ==> walkable_in(
                        grid@,
                        #[trigger] to_explore@[j].index,
                    ) && all_nodes@.contains_key(pos_key(to_explore@[j].index)),
                to_explore.len() >= 0,
                frontier_closed(grid@, allow_diagonal, explored@, to_explore@, Some(current.index)),
                nodes_waiting(all_nodes@, explored@, to_explore@),
                forall|j: int|
                    0 <= j < i && walkable_in(grid@, #[trigger] neighbors@[j]) ==> explored@.contains(
                        pos_key(neighbors@[j]),
                    ) || frontier_has(to_explore@, neighbors@[j]),
                costs_ok(all_nodes@, grid@, origin, explored@, to_explore@),
                explored_optimal(all_nodes@, grid@, allow_diagonal, origin, explored@),
                relaxed(all_nodes@, grid@, allow_diagonal, explored@, Some(ck)),
                all_nodes@.contains_key(ck),
                all_nodes@[ck].g_cost == current.g_cost,
                all_nodes@[ck].index == current.index,
                forall|j: int|
                    0 <= j < i && walkable_in(grid@, #[trigger] neighbors@[j]) && !explored@.contains(
                        pos_key(neighbors@[j]),
                    ) ==> all_nodes@.contains_key(pos_key(neighbors@[j])) && all_nodes@[pos_key(
                        neighbors@[j],
                    )].g_cost <= current.g_cost + cost_in(grid@, neighbors@[j]),
            decreases neighbors.len() - i,
        {
            let neighbor_pos = neighbors[i];
            i = i + 1;
            let nk = key_of(neighbor_pos);
            if explored.contains(&nk) {
                continue ;
            }
            let tile_cost = grid.get_cost(neighbor_pos);
            if tile_cost == u32::MAX {
                continue ;
            }
            let new_g_cost = current.g_cost.saturating_add(tile_cost);
            proof {
                assert(new_g_cost == sat_add(current.g_cost as int, tile_cost as int));
                assert(neighbors@[i - 1] == neighbor_pos);
            }
            match all_nodes.get(&nk) {
                Some(existing) => {
                    if existing.g_cost <= new_g_cost {
                        proof {
                            lemma_links_recorded(all_nodes@, grid@, allow_diagonal, origin, explored@, rank);
                            assert(pos_key(all_nodes@[nk].index) == nk);
                            lemma_pos_key_injective(all_nodes@[nk].index, neighbor_pos);
                        }
                        continue ;
                    }
                },
                None => {},
            }
            proof {
                if all_nodes@.contains_key(nk) {
                    lemma_no_improvement(
                        all_nodes@,
                        grid@,
                        allow_diagonal,
                        origin,
                        explored@,
                        rank,
                        to_explore@,
                        current.g_cost,
                        neighbor_pos,
                    );
                    assert(false);
                }
            }
            let neighbor_node = PathNode {
                index: neighbor_pos,
                parent: Some(current.index),
                g_cost: new_g_cost,
                h_cost: heuristic(destination, neighbor_pos),
                cost_to_pass: tile_cost,
            };
            proof {
                lemma_links_relax(
                    all_nodes@,
                    grid@,
                    allow_diagonal,
                    origin,
                    explored@,
                    rank,
                    neighbor_node,
                    current.index,
                );
                lemma_links_recorded(all_nodes@, grid@, allow_diagonal, origin, explored@, rank);
                lemma_links_parents(all_nodes@, grid@, allow_diagonal, origin, explored@, rank);
                lemma_costs_relax(all_nodes@, grid@, origin, explored@, to_explore@, neighbor_node, ck);
                lemma_relaxed_record(all_nodes@, grid@, allow_diagonal, origin, explored@, Some(ck), neighbor_node);
            }
            let ghost before_nodes = all_nodes@;
            all_nodes.insert(nk, neighbor_node);
            let ghost before_push = to_explore@;
            to_explore.push(neighbor_node);
            proof {
                assert(all_nodes@.dom() == before_nodes.dom().insert(nk));
                assert(all_nodes@.dom().len() == before_nodes.dom().len() + 1);
                assert forall|k: u64| #[trigger] explored@.contains(k) implies all_nodes@[k] == before_nodes[k] by {}
                assert forall|k: u64, j: int|
                    #![trigger explored@.contains(k), to_explore@[j]]
                    explored@.contains(k) && 0 <= j < to_explore.len() implies all_nodes@[k].g_cost
                        <= to_explore@[j].g_cost by {
                    if j < before_push.len() {
                        assert(to_explore@[j] == before_push[j]);
                    }
                }
                assert(nk != ck);
                assert forall|j: int|
                    0 <= j < i && walkable_in(grid@, #[trigger] neighbors@[j]) && !explored@.contains(
                        pos_key(neighbors@[j]),
                    ) implies all_nodes@.contains_key(pos_key(neighbors@[j])) && all_nodes@[pos_key(
                        neighbors@[j],
                    )].g_cost <= current.g_cost + cost_in(grid@, neighbors@[j]) by {
                    if pos_key(neighbors@[j]) == nk {
                        lemma_pos_key_injective(neighbors@[j], neighbor_pos);
                    }
                }
                assert forall|j: int| 0 <= j < to_explore.len() implies walkable_in(
                    grid@,
                    #[trigger] to_explore@[j].index,
                ) && all_nodes@.contains_key(pos_key(to_explore@[j].index)) by {
                    if j < before_push.len() {
                        assert(to_explore@[j] == before_push[j]);
                    }
                }
                assert forall|p: IVec2| #[trigger] frontier_has(before_push, p) implies frontier_has(to_explore@, p) by {
                    let j = choose|j: int| 0 <= j < before_push.len() && (#[trigger] before_push[j]).index == p;
                    assert(to_explore@[j] == before_push[j]);
                }
                assert(to_explore@[to_explore.len() - 1] == neighbor_node);
                assert(frontier_has(to_explore@, neighbor_pos));
                assert forall|k: u64| #[trigger] all_nodes@.contains_key(k) implies explored@.contains(k) || frontier_has(
                    to_explore@,
                    all_nodes@[k].index,
                ) by {
                    if k != nk {
                        assert(before_nodes.contains_key(k));
                        if !explored@.contains(k) {
                            assert(frontier_has(before_push, before_nodes[k].index));
                        }
                    }
                }
            }
        }
        proof {
            assert forall|t: IVec2, n: IVec2|
                #![trigger explored@.contains(pos_key(t)), is_step(t, n, allow_diagonal)]
                explored@.contains(pos_key(t)) && None::<IVec2> != Some(t) && is_step(t, n, allow_diagonal)
                    && walkable_in(grid@, n) implies explored@.contains(pos_key(n)) || frontier_has(
                to_explore@,
                n,
            ) by {
                if t == current.index {
                    assert(neighbors@.contains(n));
                    let j = choose|j: int| 0 <= j < neighbors.len() && neighbors@[j] == n;
                    assert(walkable_in(grid@, neighbors@[j]));
                } else {
                    assert(Some(current.index) != Some(t));
                }
            }
            reveal(relaxed);
            assert forall|k: u64, n: IVec2|
                #![trigger explored@.contains(k), is_step(all_nodes@[k].index, n, allow_diagonal)]
                explored@.contains(k) && None::<u64> != Some(k) && is_step(all_nodes@[k].index, n, allow_diagonal)
                    && walkable_in(grid@, n) && !explored@.contains(pos_key(n)) implies all_nodes@.contains_key(
                pos_key(n),
            ) && all_nodes@[pos_key(n)].g_cost <= all_nodes@[k].g_cost + cost_in(grid@, n) by {
                if k == ck {
                    assert(is_step(current.index, n, allow_diagonal));
                    assert(neighbors@.contains(n));
                    let j = choose|j: int| 0 <= j < neighbors.len() && neighbors@[j] == n;
                    assert(walkable_in(grid@, neighbors@[j]));
                } else {
                    assert(Some(ck) != Some(k));
                }
            }
            assert(steps + to_explore.len() <= 1 + 8 * explored@.len());
        }
    }
}

/// Like `find_path`, but first looks for a still-valid route from
/// `origin` to `destination` in `cache`, and stores a newly found route
/// there.
pub fn find_path_with_cache(
    origin: IVec2,
    destination: IVec2,
    grid: &PathfindingGrid,
    cache: &mut PathCache,
    current_tick: u64,
    allow_diagonal: bool,
    max_steps: Option<u32>,
) -> (r: Option<Path>)
    requires
        old(cache).entries().contains_key(pair_key(origin, destination)) ==> old(cache).entries()[pair_key(
            origin,
            destination,
        )].1 <= current_tick,
        old(cache).entries().len() >= old(cache).max_entries_view() ==> stored_by(old(cache).entries(), current_tick),
        old(cache).hit_count() < u64::MAX,
        old(cache).miss_count() < u64::MAX,
    ensures
        final(cache).max_entries_view() == old(cache).max_entries_view(),
        final(cache).duration_view() == old(cache).duration_view(),
        ({
            let k = pair_key(origin, destination);
            let m = old(cache).entries();
            if m.contains_key(k) && current_tick - m[k].1 <= old(cache).duration_view() {
                &&& r is Some
                &&& r->0.waypoints_view() == m[k].0@
                &&& r->0.index_view() == 0
                &&& final(cache).entries() == m
                &&& final(cache).hit_count() == old(cache).hit_count() + 1
                &&& final(cache).miss_count() == old(cache).miss_count()
            } else {
                &&& final(cache).hit_count() == old(cache).hit_count()
                &&& final(cache).miss_count() == old(cache).miss_count() + 1
                &&& (!walkable_in(grid@, origin) || !walkable_in(grid@, destination) ==> r is None)
                &&& (budget_suffices(grid, max_steps) && walkable_in(grid@, origin) && walkable_in(grid@, destination)
                    && route_exists(grid@, allow_diagonal, origin, destination) ==> r is Some)
                &&& match r {
                    Some(p) => {
                        &&& p.index_view() == 0
                        &&& is_route(grid@, allow_diagonal, origin, destination, p.waypoints_view())
                        &&& p.waypoints_view().no_duplicates()
                        &&& !p.waypoints_view().contains(origin)
                        &&& forall|w: Seq<IVec2>|
                            #[trigger] is_route(grid@, allow_diagonal, origin, destination, w) && route_cost(grid@, w)
                                < u32::MAX ==> route_cost(grid@, p.waypoints_view()) <= route_cost(grid@, w)
                        &&& exists|v: Vec<IVec2>|
                            v@ == p.waypoints_view() && insert_outcome(
                                m,
                                final(cache).entries(),
                                old(cache).max_entries_view(),
                                old(cache).duration_view(),
                                k,
                                (v, current_tick),
                            )
                    },
                    None => final(cache).entries() == m,
                }
            }
        }),
{
    if let Some(cached_waypoints) = cache.get(origin, destination, current_tick) {
        return Some(Path::new(cached_waypoints));
    }
    let path = match find_path(origin, destination, grid, allow_diagonal, max_steps) {
        Some(p) => p,
        None => {
            return None;
        },
    };
    let waypoints = path.clone_waypoints();
    let ghost w = waypoints;
    cache.insert(origin, destination, waypoints, current_tick);
    proof {
        assert(w@ == path.waypoints_view());
    }
    Some(path)
}

} // verus!
