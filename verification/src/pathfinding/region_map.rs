use vstd::prelude::*;
use std::collections::{HashMap, VecDeque};
use crate::geometry::{IVec2, pos_key, key_of, lemma_pos_key_injective, lemma_unkey, unkey};
use crate::pathfinding::grid::{PathfindingGrid, walkable_in};
use crate::pathfinding::astar::{is_route, is_step, push_offset, route_exists, walk_prev};

verus! {

/// Tiles between which the flood fill moves in one step: orthogonal
/// neighbours, and diagonal neighbours whose two shared orthogonal
/// neighbours can both be entered (no cutting corners).
pub open spec fn flood_adj(g: Map<IVec2, u32>, p: IVec2, q: IVec2) -> bool {
    is_step(p, q, false) || (is_step(p, q, true) && walkable_in(g, IVec2 { x: p.x, y: q.y })
        && walkable_in(g, IVec2 { x: q.x, y: p.y }))
}

/// Moving in one flood step is symmetric.
pub proof fn lemma_flood_adj_symmetric(g: Map<IVec2, u32>, p: IVec2, q: IVec2)
    ensures
        flood_adj(g, p, q) == flood_adj(g, q, p),
{
}

/// The `i`-th and `i + 1`-th tiles of `w` are one flood step apart.
pub open spec fn walk_link(g: Map<IVec2, u32>, w: Seq<IVec2>, i: int) -> bool {
    flood_adj(g, w[i], w[i + 1])
}

/// A non-empty sequence of enterable tiles, each one flood step from the
/// one before.
pub open spec fn is_flood_walk(g: Map<IVec2, u32>, w: Seq<IVec2>) -> bool {
    &&& w.len() > 0
    &&& forall|i: int| 0 <= i < w.len() ==> walkable_in(g, #[trigger] w[i])
    &&& forall|i: int| 0 <= i < w.len() - 1 ==> #[trigger] walk_link(g, w, i)
}

/// Some flood walk leads from `a` to `b`.
pub open spec fn flood_reachable(g: Map<IVec2, u32>, a: IVec2, b: IVec2) -> bool {
    exists|w: Seq<IVec2>| #[trigger] is_flood_walk(g, w) && w[0] == a && w.last() == b
}

/// Any two recorded tiles of one region are joined by a flood walk.
pub open spec fn same_region_reachable(g: Map<IVec2, u32>, r: Map<IVec2, u32>) -> bool {
    forall|p: IVec2, q: IVec2|
        #![trigger r.contains_key(p), r.contains_key(q)]
        r.contains_key(p) && r.contains_key(q) && r[p] == r[q] ==> flood_reachable(g, p, q)
}

/// An enterable tile reaches itself.
pub proof fn lemma_reach_self(g: Map<IVec2, u32>, a: IVec2)
    requires
        walkable_in(g, a),
    ensures
        flood_reachable(g, a, a),
{
    let w = seq![a];
    assert(is_flood_walk(g, w));
}

/// A walk can be extended by one flood step onto an enterable tile.
pub proof fn lemma_reach_extend(g: Map<IVec2, u32>, a: IVec2, b: IVec2, c: IVec2)
    requires
        flood_reachable(g, a, b),
        flood_adj(g, b, c),
        walkable_in(g, c),
    ensures
        flood_reachable(g, a, c),
{
    let w = choose|w: Seq<IVec2>| #[trigger] is_flood_walk(g, w) && w[0] == a && w.last() == b;
    let w2 = w.push(c);
    assert forall|i: int| 0 <= i < w2.len() - 1 implies #[trigger] walk_link(g, w2, i) by {
        if i < w.len() - 1 {
            assert(walk_link(g, w, i));
        }
    }
    assert forall|i: int| 0 <= i < w2.len() implies walkable_in(g, #[trigger] w2[i]) by {
        if i < w.len() {
            assert(walkable_in(g, w[i]));
        }
    }
    assert(is_flood_walk(g, w2));
}

/// A walk read backwards is a walk.
pub proof fn lemma_reach_symmetric(g: Map<IVec2, u32>, a: IVec2, b: IVec2)
    requires
        flood_reachable(g, a, b),
    ensures
        flood_reachable(g, b, a),
{
    let w = choose|w: Seq<IVec2>| #[trigger] is_flood_walk(g, w) && w[0] == a && w.last() == b;
    let n = w.len() as int;
    let v = Seq::new(w.len(), |i: int| w[n - 1 - i]);
    assert forall|i: int| 0 <= i < v.len() - 1 implies #[trigger] walk_link(g, v, i) by {
        assert(walk_link(g, w, n - 2 - i));
        lemma_flood_adj_symmetric(g, w[n - 2 - i], w[n - 1 - i]);
    }
    assert forall|i: int| 0 <= i < v.len() implies walkable_in(g, #[trigger] v[i]) by {
        assert(walkable_in(g, w[n - 1 - i]));
    }
    assert(is_flood_walk(g, v));
}

/// Walks from `a` to `b` and from `b` to `c` join into one from `a` to `c`.
pub proof fn lemma_reach_transitive(g: Map<IVec2, u32>, a: IVec2, b: IVec2, c: IVec2)
    requires
        flood_reachable(g, a, b),
        flood_reachable(g, b, c),
    ensures
        flood_reachable(g, a, c),
{
    let w1 = choose|w: Seq<IVec2>| #[trigger] is_flood_walk(g, w) && w[0] == a && w.last() == b;
    let w2 = choose|w: Seq<IVec2>| #[trigger] is_flood_walk(g, w) && w[0] == b && w.last() == c;
    let n1 = w1.len() as int;
    let w = w1 + w2.subrange(1, w2.len() as int);
    assert forall|i: int| 0 <= i < w.len() implies walkable_in(g, #[trigger] w[i]) by {
        if i < n1 {
            assert(walkable_in(g, w1[i]));
        } else {
            assert(walkable_in(g, w2[i - n1 + 1]));
        }
    }
    assert forall|i: int| 0 <= i < w.len() - 1 implies #[trigger] walk_link(g, w, i) by {
        if i < n1 - 1 {
            assert(walk_link(g, w1, i));
        } else if i == n1 - 1 {
            assert(walk_link(g, w2, 0));
        } else {
            assert(walk_link(g, w2, i - n1 + 1));
        }
    }
    assert(is_flood_walk(g, w));
    if w2.len() == 1 {
        assert(w.last() == w1.last());
    } else {
        assert(w.last() == w2.last());
    }
}

/// Every recorded tile has all its enterable flood neighbours either
/// recorded in the same region, or (for tiles of region `cur`) waiting in
/// `queue`.
pub open spec fn closed_under(
    g: Map<IVec2, u32>,
    r: Map<IVec2, u32>,
    queue: Seq<IVec2>,
    cur: u32,
) -> bool {
    forall|p: IVec2, q: IVec2|
        #![trigger r.contains_key(p), flood_adj(g, p, q)]
        r.contains_key(p) && flood_adj(g, p, q) && walkable_in(g, q) ==> (r.contains_key(q) && r[q]
            == r[p]) || (r[p] == cur && queue.contains(q))
}

/// Some recorded tile inside `bounds` (both corners included) carries
/// region id `id`.
pub open spec fn region_seeded(r: Map<IVec2, u32>, bounds: (IVec2, IVec2), id: u32) -> bool {
    exists|q: IVec2|
        r.contains_key(q) && r[q] == id && bounds.0.x <= q.x <= bounds.1.x && bounds.0.y <= q.y <= bounds.1.y
}

/// Tile `p` comes before column `x` of row `y` in a scan row by row, each
/// row from the lowest `x`.
pub open spec fn scanned_before(p: IVec2, x: int, y: int) -> bool {
    p.y < y || (p.y == y && p.x < x)
}

/// Some recorded tile inside `bounds` with region id `id` comes before
/// column `x` of row `y` in the scan.
pub open spec fn seeded_before(r: Map<IVec2, u32>, bounds: (IVec2, IVec2), id: u32, x: int, y: int) -> bool {
    exists|p: IVec2|
        #[trigger] r.contains_key(p) && r[p] == id && bounds.0.x <= p.x <= bounds.1.x && bounds.0.y <= p.y
            <= bounds.1.y && scanned_before(p, x, y)
}

/// Region ids follow the scan: every smaller id has a tile inside
/// `bounds` met before any tile inside `bounds` of a larger one.
pub open spec fn ids_in_scan_order(r: Map<IVec2, u32>, bounds: (IVec2, IVec2)) -> bool {
    forall|q: IVec2, a: u32|
        #![trigger r.contains_key(q), seeded_before(r, bounds, a, q.x as int, q.y as int)]
        r.contains_key(q) && bounds.0.x <= q.x <= bounds.1.x && bounds.0.y <= q.y <= bounds.1.y && a < r[q]
            ==> seeded_before(r, bounds, a, q.x as int, q.y as int)
}

/// Some recorded tile carries region id `id`.
pub open spec fn region_used(r: Map<IVec2, u32>, id: u32) -> bool {
    exists|p: IVec2| r.contains_key(p) && r[p] == id
}

/// Every recorded tile can be entered.
pub open spec fn only_walkable(g: Map<IVec2, u32>, r: Map<IVec2, u32>) -> bool {
    forall|p: IVec2| #[trigger] r.contains_key(p) ==> walkable_in(g, p)
}

/// `r` labels the connected components of the enterable tiles of `g`:
/// recorded tiles can be entered, a flood step never leaves a region, and
/// one region never holds two tiles that no flood walk joins.
pub open spec fn labels_components(g: Map<IVec2, u32>, r: Map<IVec2, u32>) -> bool {
    &&& only_walkable(g, r)
    &&& closed_under(g, r, Seq::<IVec2>::empty(), 0)
    &&& same_region_reachable(g, r)
}

/// Every tile of a flood walk that starts on a recorded tile is recorded,
/// in the region of the first.
pub proof fn lemma_walk_in_region(g: Map<IVec2, u32>, r: Map<IVec2, u32>, w: Seq<IVec2>)
    requires
        closed_under(g, r, Seq::<IVec2>::empty(), 0),
        is_flood_walk(g, w),
        r.contains_key(w[0]),
    ensures
        forall|i: int| 0 <= i < w.len() ==> #[trigger] r.contains_key(w[i]) && r[w[i]] == r[w[0]],
    decreases w.len(),
{
    if w.len() > 1 {
        let v = w.drop_last();
        assert forall|i: int| 0 <= i < v.len() - 1 implies #[trigger] walk_link(g, v, i) by {
            assert(walk_link(g, w, i));
        }
        assert forall|i: int| 0 <= i < v.len() implies walkable_in(g, #[trigger] v[i]) by {
            assert(walkable_in(g, w[i]));
        }
        lemma_walk_in_region(g, r, v);
        let n = w.len() - 1;
        assert(r.contains_key(v[n - 1]));
        assert(walk_link(g, w, n - 1));
        assert(walkable_in(g, w[n]));
        assert(!Seq::<IVec2>::empty().contains(w[n]));
        assert forall|i: int| 0 <= i < w.len() implies #[trigger] r.contains_key(w[i]) && r[w[i]]
            == r[w[0]] by {
            if i < n {
                assert(r.contains_key(v[i]));
            }
        }
    }
}

/// After a build, two tiles are connected exactly when the first is
/// recorded and a flood walk (orthogonal steps, and diagonal steps that
/// cut no corner, over enterable tiles) leads from it to the second.
pub proof fn law_connected_iff_reachable(g: Map<IVec2, u32>, r: Map<IVec2, u32>, a: IVec2, b: IVec2)
    requires
        labels_components(g, r),
    ensures
        (r.contains_key(a) && r.contains_key(b) && r[a] == r[b]) <==> (r.contains_key(a)
            && flood_reachable(g, a, b)),
{
    if r.contains_key(a) && flood_reachable(g, a, b) {
        let w = choose|w: Seq<IVec2>| #[trigger] is_flood_walk(g, w) && w[0] == a && w.last() == b;
        lemma_walk_in_region(g, r, w);
        assert(r.contains_key(w[w.len() - 1]));
    }
}

/// A route of orthogonal steps from `a`, read with `a` in front, is a
/// flood walk.
proof fn lemma_route_is_flood_walk(g: Map<IVec2, u32>, a: IVec2, b: IVec2, w: Seq<IVec2>)
    requires
        walkable_in(g, a),
        is_route(g, false, a, b, w),
    ensures
        is_flood_walk(g, seq![a] + w),
        (seq![a] + w)[0] == a,
        (seq![a] + w).last() == b,
{
    let fw = seq![a] + w;
    assert forall|i: int| 0 <= i < fw.len() implies walkable_in(g, #[trigger] fw[i]) by {
        if i > 0 {
            assert(fw[i] == w[i - 1]);
        }
    }
    assert forall|i: int| 0 <= i < fw.len() - 1 implies #[trigger] walk_link(g, fw, i) by {
        assert(fw[i + 1] == w[i]);
        assert(walk_prev(a, w, i) == fw[i]);
        assert(is_step(walk_prev(a, w, i), w[i], false));
    }
}

/// A flood walk from `w[0]` can be walked with orthogonal steps only: a
/// diagonal step that cuts no corner goes round the corner instead.
proof fn lemma_flood_walk_route(g: Map<IVec2, u32>, w: Seq<IVec2>)
    requires
        is_flood_walk(g, w),
    ensures
        route_exists(g, false, w[0], w.last()),
    decreases w.len(),
{
    if w.len() == 1 {
        assert(is_route(g, false, w[0], w.last(), Seq::<IVec2>::empty()));
    } else {
        let p = w.drop_last();
        assert(is_flood_walk(g, p)) by {
            assert forall|i: int| 0 <= i < p.len() implies walkable_in(g, #[trigger] p[i]) by {
                assert(p[i] == w[i]);
            }
            assert forall|i: int| 0 <= i < p.len() - 1 implies #[trigger] walk_link(g, p, i) by {
                assert(p[i] == w[i] && p[i + 1] == w[i + 1]);
                assert(walk_link(g, w, i));
            }
        }
        lemma_flood_walk_route(g, p);
        let r = choose|r: Seq<IVec2>| #[trigger] is_route(g, false, p[0], p.last(), r);
        let prev = w[w.len() - 2];
        let last = w.last();
        assert(p.last() == prev);
        assert(p[0] == w[0]);
        assert(walk_link(g, w, w.len() - 2));
        assert(walkable_in(g, last));
        assert(walk_prev(w[0], r, r.len() as int) == prev);
        if is_step(prev, last, false) {
            let r2 = r.push(last);
            assert forall|i: int| 0 <= i < r2.len() implies walkable_in(g, #[trigger] r2[i]) && is_step(
                walk_prev(w[0], r2, i),
                r2[i],
                false,
            ) by {
                if i < r.len() {
                    assert(r2[i] == r[i]);
                    if i > 0 {
                        assert(r2[i - 1] == r[i - 1]);
                    }
                }
            }
            assert(is_route(g, false, w[0], last, r2));
        } else {
            let corner = IVec2 { x: prev.x, y: last.y };
            let r2 = r.push(corner).push(last);
            assert(walkable_in(g, corner));
            assert forall|i: int| 0 <= i < r2.len() implies walkable_in(g, #[trigger] r2[i]) && is_step(
                walk_prev(w[0], r2, i),
                r2[i],
                false,
            ) by {
                if i < r.len() {
                    assert(r2[i] == r[i]);
                    if i > 0 {
                        assert(r2[i - 1] == r[i - 1]);
                    }
                } else if i == r.len() {
                    assert(r2[i] == corner);
                } else {
                    assert(r2[i] == last);
                    assert(r2[i - 1] == corner);
                }
            }
            assert(is_route(g, false, w[0], last, r2));
        }
    }
}

/// The quick rejection of the region map drops no reachable goal, and lets
/// no unreachable one through: after a build, for a recorded tile `a`
/// (every enterable tile inside the build's bounds is recorded), `a` and
/// `b` are connected exactly when a route of orthogonal steps leads from
/// `a` to `b`, which is when `find_path(a, b, grid, false, None)` finds one
/// (see its contract).
pub proof fn law_connected_iff_route(g: Map<IVec2, u32>, r: Map<IVec2, u32>, a: IVec2, b: IVec2)
    requires
        labels_components(g, r),
        r.contains_key(a),
    ensures
        (r.contains_key(b) && r[a] == r[b]) <==> route_exists(g, false, a, b),
{
    law_connected_iff_reachable(g, r, a, b);
    if route_exists(g, false, a, b) {
        let w = choose|w: Seq<IVec2>| #[trigger] is_route(g, false, a, b, w);
        lemma_route_is_flood_walk(g, a, b, w);
        assert(flood_reachable(g, a, b));
    }
    if r.contains_key(b) && r[a] == r[b] {
        let fw = choose|fw: Seq<IVec2>| #[trigger] is_flood_walk(g, fw) && fw[0] == a && fw.last() == b;
        lemma_flood_walk_route(g, fw);
    }
}

/// Connected-component labelling of the enterable tiles: tiles that can
/// reach each other by flood steps carry the same region id.
pub struct RegionMap {
    regions: HashMap<u64, u32>,
    region_count: u32,
    pub tiles_mapped: usize,
}

impl View for RegionMap {
    type V = Map<IVec2, u32>;

    closed spec fn view(&self) -> Map<IVec2, u32> {
        Map::new(
            |p: IVec2| self.regions@.contains_key(pos_key(p)),
            |p: IVec2| self.regions@[pos_key(p)],
        )
    }
}

impl RegionMap {
    /// Number of regions found by the last build.
    pub closed spec fn count_view(&self) -> u32 {
        self.region_count
    }

    /// The tile count stored by the last build (the public field).
    pub closed spec fn tiles_mapped_view(&self) -> usize {
        self.tiles_mapped
    }

    /// Number of tiles recorded.
    pub closed spec fn mapped_count(&self) -> nat {
        self.regions@.dom().len()
    }

    /// The recorded tiles are finitely many, as many as `mapped_count`.
    pub proof fn lemma_mapped_count(&self)
        ensures
            self@.dom().finite(),
            self@.dom().len() == self.mapped_count(),
    {
        let x = self.regions@.dom();
        let f = |k: u64| unkey(k);
        assert(x.finite());
        assert(vstd::relations::injective_on(f, x)) by {
            assert forall|a: u64, b: u64| x.contains(a) && x.contains(b) && #[trigger] f(a) == #[trigger] f(b) implies a == b by {
                lemma_unkey(a, f(a));
                lemma_unkey(b, f(b));
            }
        }
        assert(x.map(f) =~= self@.dom()) by {
            assert forall|p: IVec2| #[trigger] self@.dom().contains(p) implies x.map(f).contains(p) by {
                lemma_unkey(pos_key(p), p);
                assert(x.contains(pos_key(p)) && f(pos_key(p)) == p);
            }
            assert forall|p: IVec2| #[trigger] x.map(f).contains(p) implies self@.dom().contains(p) by {
                let k = choose|k: u64| x.contains(k) && f(k) == p;
                lemma_unkey(k, p);
            }
        }
        vstd::set_lib::lemma_map_size(x, self@.dom(), f);
    }

    pub fn new() -> (m: RegionMap)
        ensures
            m@ == Map::<IVec2, u32>::empty(),
            m.count_view() == 0,
            m.mapped_count() == 0,
            m.tiles_mapped_view() == 0,
    {
        let m = RegionMap { regions: HashMap::new(), region_count: 0, tiles_mapped: 0 };
        assert(m@ =~= Map::<IVec2, u32>::empty());
        m
    }

    /// Whether both tiles are recorded, in the same region.
    pub fn are_connected(&self, a: IVec2, b: IVec2) -> (r: bool)
        ensures
            r == (self@.contains_key(a) && self@.contains_key(b) && self@[a] == self@[b]),
    {
        let ka = key_of(a);
        let kb = key_of(b);
        match (self.regions.get(&ka), self.regions.get(&kb)) {
            (Some(ra), Some(rb)) => *ra == *rb,
            _ => false,
        }
    }

    /// The region of a tile, if it is recorded.
    pub fn get_region(&self, pos: IVec2) -> (r: Option<u32>)
        ensures
            r == (if self@.contains_key(pos) {
                Some(self@[pos])
            } else {
                None::<u32>
            }),
    {
        let k = key_of(pos);
        match self.regions.get(&k) {
            Some(v) => Some(*v),
            None => None,
        }
    }

    /// Whether a tile is recorded in some region.
    pub fn is_mapped(&self, pos: IVec2) -> (b: bool)
        ensures
            b == self@.contains_key(pos),
    {
        let k = key_of(pos);
        self.regions.contains_key(&k)
    }

    /// Number of regions.
    pub fn region_count(&self) -> (n: u32)
        ensures
            n == self.count_view(),
    {
        self.region_count
    }

    /// Number of recorded tiles.
    pub fn tile_count(&self) -> (n: usize)
        ensures
            n == self.mapped_count(),
            n == self@.dom().len(),
    {
        proof {
            self.lemma_mapped_count();
        }
        self.regions.len()
    }

    /// Forgets every region.
    pub fn clear(&mut self)
        ensures
            final(self)@ == Map::<IVec2, u32>::empty(),
            final(self).count_view() == 0,
            final(self).mapped_count() == 0,
            final(self).tiles_mapped_view() == 0,
    {
        self.regions.clear();
        self.region_count = 0;
        self.tiles_mapped = 0;
        assert(self@ =~= Map::<IVec2, u32>::empty());
    }

    /// Labels the enterable tiles: every enterable tile inside `bounds`
    /// (both corners included), and every tile reachable from one by flood
    /// steps, gets the id of its region, and no other tile is recorded;
    /// regions are numbered from 0 in the order their first tile is met,
    /// row by row from the lower corner.
    pub fn build_from_grid(&mut self, grid: &PathfindingGrid, bounds: (IVec2, IVec2))
        requires
            grid.walkable_keys().len() < u32::MAX,
        ensures
            labels_components(grid@, final(self)@),
            forall|p: IVec2|
                bounds.0.x <= p.x <= bounds.1.x && bounds.0.y <= p.y <= bounds.1.y && walkable_in(
                    grid@,
                    p,
                ) ==> #[trigger] final(self)@.contains_key(p),
            forall|p: IVec2|
                #[trigger] final(self)@.contains_key(p) ==> final(self)@[p] < final(self).count_view(),
            forall|id: u32| id < final(self).count_view() ==> #[trigger] region_used(final(self)@, id),
            forall|p: IVec2|
                #[trigger] final(self)@.contains_key(p) ==> region_seeded(final(self)@, bounds, final(self)@[p]),
            ids_in_scan_order(final(self)@, bounds),
            final(self).tiles_mapped_view() == final(self).mapped_count(),
            final(self).tiles_mapped_view() == final(self)@.dom().len(),
    {
        self.clear();
        let (min, max) = bounds;
        let mut current_region: u32 = 0;
        proof {
            assert(self.regions@.dom() =~= Set::<u64>::empty());
            grid.lemma_walkable_keys(min);
        }
        let mut y: i64 = min.y as i64;
        while y <= max.y as i64
            invariant
                min.y <= y,
                bounds == (min, max),
                closed_under(grid@, self@, Seq::<IVec2>::empty(), current_region),
                only_walkable(grid@, self@),
                same_region_reachable(grid@, self@),
                forall|p: IVec2| #[trigger] self@.contains_key(p) ==> self@[p] < current_region,
                forall|id: u32| id < current_region ==> #[trigger] region_used(self@, id),
                forall|id: u32| id < current_region ==> #[trigger] region_seeded(self@, bounds, id),
                forall|id: u32| id < current_region ==> #[trigger] seeded_before(self@, bounds, id, min.x as int, y as int),
                ids_in_scan_order(self@, bounds),
                self.regions@.dom().subset_of(grid.walkable_keys()),
                current_region <= self.regions@.dom().len(),
                grid.walkable_keys().finite(),
                grid.walkable_keys().len() < u32::MAX,
                forall|p: IVec2|
                    min.x <= p.x <= max.x && min.y <= p.y < y && walkable_in(grid@, p)
                        ==> #[trigger] self@.contains_key(p),
            decreases max.y + 1 - y,
        {
            let mut x: i64 = min.x as i64;
            while x <= max.x as i64
                invariant
                    min.y <= y <= max.y,
                    min.x <= x,
                    bounds == (min, max),
                    closed_under(grid@, self@, Seq::<IVec2>::empty(), current_region),
                    only_walkable(grid@, self@),
                    same_region_reachable(grid@, self@),
                    forall|p: IVec2| #[trigger] self@.contains_key(p) ==> self@[p] < current_region,
                    forall|id: u32| id < current_region ==> #[trigger] region_used(self@, id),
                    forall|id: u32| id < current_region ==> #[trigger] region_seeded(self@, bounds, id),
                    forall|id: u32| id < current_region ==> #[trigger] seeded_before(self@, bounds, id, x as int, y as int),
                    ids_in_scan_order(self@, bounds),
                    self.regions@.dom().subset_of(grid.walkable_keys()),
                    current_region <= self.regions@.dom().len(),
                    grid.walkable_keys().finite(),
                    grid.walkable_keys().len() < u32::MAX,
                    forall|p: IVec2|
                        min.x <= p.x <= max.x && min.y <= p.y < y && walkable_in(grid@, p)
                            ==> #[trigger] self@.contains_key(p),
                    forall|p: IVec2|
                        min.x <= p.x < x && p.y == y && walkable_in(grid@, p)
                            ==> #[trigger] self@.contains_key(p),
                decreases max.x + 1 - x,
            {
                let pos = IVec2 { x: x as i32, y: y as i32 };
                let k = key_of(pos);
                if !self.regions.contains_key(&k) && grid.is_walkable(pos) {
                    let ghost before = self@;
                    let ghost dom_before = self.regions@.dom();
                    self.flood_fill(pos, current_region, grid);
                    proof {
                        vstd::set_lib::lemma_len_subset(
                            self.regions@.dom(),
                            grid.walkable_keys(),
                        );
                        assert(self@.contains_key(pos) && self@[pos] == current_region);
                        assert forall|id: u32| id < current_region + 1 implies #[trigger] region_used(
                            self@,
                            id,
                        ) by {
                            if id < current_region {
                                assert(region_used(before, id));
                                let p = choose|p: IVec2| before.contains_key(p) && before[p] == id;
                                assert(self@.contains_key(p) && self@[p] == id);
                            } else {
                                assert(self@.contains_key(pos) && self@[pos] == id);
                            }
                        }
                        assert forall|id: u32| id < current_region + 1 implies #[trigger] region_seeded(
                            self@,
                            bounds,
                            id,
                        ) by {
                            if id < current_region {
                                assert(region_seeded(before, bounds, id));
                                let q = choose|q: IVec2|
                                    before.contains_key(q) && before[q] == id && bounds.0.x <= q.x <= bounds.1.x
                                        && bounds.0.y <= q.y <= bounds.1.y;
                                assert(self@.contains_key(q) && self@[q] == id);
                            } else {
                                assert(self@.contains_key(pos) && self@[pos] == id);
                            }
                        }
                        assert forall|p: IVec2| #[trigger]
                            self@.contains_key(p) implies self@[p] < current_region + 1 by {
                            if before.contains_key(p) {
                                assert(self@[p] == before[p]);
                            }
                        }
                        assert forall|id: u32| id < current_region + 1 implies #[trigger] seeded_before(
                            self@,
                            bounds,
                            id,
                            x + 1,
                            y as int,
                        ) by {
                            if id < current_region {
                                assert(seeded_before(before, bounds, id, x as int, y as int));
                                let q = choose|q: IVec2|
                                    #[trigger] before.contains_key(q) && before[q] == id && bounds.0.x <= q.x
                                        <= bounds.1.x && bounds.0.y <= q.y <= bounds.1.y && scanned_before(
                                        q,
                                        x as int,
                                        y as int,
                                    );
                                assert(self@.contains_key(q) && self@[q] == id);
                            } else {
                                assert(self@.contains_key(pos) && self@[pos] == id);
                            }
                        }
                        assert forall|q: IVec2, a: u32|
                            #![trigger self@.contains_key(q), seeded_before(self@, bounds, a, q.x as int, q.y as int)]
                            self@.contains_key(q) && bounds.0.x <= q.x <= bounds.1.x && bounds.0.y <= q.y
                                <= bounds.1.y && a < self@[q] implies seeded_before(
                            self@,
                            bounds,
                            a,
                            q.x as int,
                            q.y as int,
                        ) by {
                            if before.contains_key(q) {
                                assert(self@[q] == before[q]);
                                assert(seeded_before(before, bounds, a, q.x as int, q.y as int));
                                let p = choose|p: IVec2|
                                    #[trigger] before.contains_key(p) && before[p] == a && bounds.0.x <= p.x
                                        <= bounds.1.x && bounds.0.y <= p.y <= bounds.1.y && scanned_before(
                                        p,
                                        q.x as int,
                                        q.y as int,
                                    );
                                assert(self@.contains_key(p) && self@[p] == a);
                            } else {
                                assert(self@[q] == current_region);
                                assert(seeded_before(before, bounds, a, x as int, y as int));
                                let p = choose|p: IVec2|
                                    #[trigger] before.contains_key(p) && before[p] == a && bounds.0.x <= p.x
                                        <= bounds.1.x && bounds.0.y <= p.y <= bounds.1.y && scanned_before(
                                        p,
                                        x as int,
                                        y as int,
                                    );
                                assert(self@.contains_key(p) && self@[p] == a);
                                assert(walkable_in(grid@, q));
                                if scanned_before(q, x as int, y as int) {
                                    assert(before.contains_key(q));
                                }
                                assert(scanned_before(p, q.x as int, q.y as int));
                            }
                        }
                    }
                    proof {
                        assert forall|p: IVec2|
                            min.x <= p.x <= max.x && min.y <= p.y < y && walkable_in(grid@, p)
                            implies #[trigger] self@.contains_key(p) by {
                            assert(before.contains_key(p));
                        }
                        assert forall|p: IVec2|
                            min.x <= p.x < x && p.y == y && walkable_in(grid@, p)
                            implies #[trigger] self@.contains_key(p) by {
                            assert(before.contains_key(p));
                        }
                    }
                    current_region = current_region + 1;
                }
                proof {
                    assert(self@.contains_key(pos) || !walkable_in(grid@, pos));
                    assert forall|p: IVec2|
                        min.x <= p.x < x + 1 && p.y == y && walkable_in(grid@, p)
                        implies #[trigger] self@.contains_key(p) by {
                        if p.x == x {
                            assert(p == pos);
                        }
                    }
                    assert forall|id: u32| id < current_region implies #[trigger] seeded_before(
                        self@,
                        bounds,
                        id,
                        x + 1,
                        y as int,
                    ) by {
                        if seeded_before(self@, bounds, id, x as int, y as int) {
                            let q = choose|q: IVec2|
                                #[trigger] self@.contains_key(q) && self@[q] == id && bounds.0.x <= q.x <= bounds.1.x
                                    && bounds.0.y <= q.y <= bounds.1.y && scanned_before(q, x as int, y as int);
                            assert(scanned_before(q, x + 1, y as int));
                        }
                    }
                }
                x = x + 1;
            }
            proof {
                assert forall|id: u32| id < current_region implies #[trigger] seeded_before(
                    self@,
                    bounds,
                    id,
                    min.x as int,
                    y + 1,
                ) by {
                    assert(seeded_before(self@, bounds, id, x as int, y as int));
                    let q = choose|q: IVec2|
                        #[trigger] self@.contains_key(q) && self@[q] == id && bounds.0.x <= q.x <= bounds.1.x
                            && bounds.0.y <= q.y <= bounds.1.y && scanned_before(q, x as int, y as int);
                    assert(scanned_before(q, min.x as int, y + 1));
                }
            }
            y = y + 1;
        }
        self.region_count = current_region;
        self.tiles_mapped = self.regions.len();
        proof {
            self.lemma_mapped_count();
            assert forall|p: IVec2| #[trigger] self@.contains_key(p) implies region_seeded(self@, bounds, self@[p]) by {
                assert(self@[p] < current_region);
            }
        }
    }

    /// Records in region `region_id` every tile reachable by flood steps
    /// from `start` that is not recorded yet.
    fn flood_fill(&mut self, start: IVec2, region_id: u32, grid: &PathfindingGrid)
        requires
            closed_under(grid@, old(self)@, Seq::<IVec2>::empty(), region_id),
            only_walkable(grid@, old(self)@),
            forall|p: IVec2| #[trigger] old(self)@.contains_key(p) ==> old(self)@[p] < region_id,
            old(self).regions@.dom().subset_of(grid.walkable_keys()),
            same_region_reachable(grid@, old(self)@),
        ensures
            closed_under(grid@, final(self)@, Seq::<IVec2>::empty(), region_id),
            same_region_reachable(grid@, final(self)@),
            only_walkable(grid@, final(self)@),
            forall|p: IVec2|
                #[trigger] old(self)@.contains_key(p) ==> final(self)@.contains_key(p)
                    && final(self)@[p] == old(self)@[p],
            forall|p: IVec2|
                #[trigger] final(self)@.contains_key(p) && !old(self)@.contains_key(p)
                    ==> final(self)@[p] == region_id,
            walkable_in(grid@, start) ==> final(self)@.contains_key(start),
            final(self).regions@.dom().subset_of(grid.walkable_keys()),
            final(self).regions@.dom().len() >= old(self).regions@.dom().len(),
            walkable_in(grid@, start) && !old(self)@.contains_key(start) ==> final(self).regions@.dom().len() > old(self).regions@.dom().len(),
            final(self).region_count == old(self).region_count,
            final(self).tiles_mapped == old(self).tiles_mapped,
    {
        let mut queue: VecDeque<IVec2> = VecDeque::new();
        queue.push_back(start);
        proof {
            grid.lemma_walkable_keys(start);
            assert(queue@ == seq![start]);
            assert(queue@[0] == start);
            if walkable_in(grid@, start) {
                lemma_reach_self(grid@, start);
            }
            assert forall|p: IVec2, q: IVec2|
                #![trigger self@.contains_key(p), flood_adj(grid@, p, q)]
                self@.contains_key(p) && flood_adj(grid@, p, q) && walkable_in(grid@, q) implies (
                self@.contains_key(q) && self@[q] == self@[p]) || (self@[p] == region_id
                && queue@.contains(q)) by {
                assert(!Seq::<IVec2>::empty().contains(q));
            }
        }
        while queue.len() > 0
            invariant
                closed_under(grid@, self@, queue@, region_id),
                only_walkable(grid@, self@),
                forall|p: IVec2|
                    #[trigger] old(self)@.contains_key(p) ==> self@.contains_key(p) && self@[p]
                        == old(self)@[p],
                forall|p: IVec2|
                    #[trigger] self@.contains_key(p) && !old(self)@.contains_key(p) ==> self@[p]
                        == region_id,
                walkable_in(grid@, start) ==> self@.contains_key(start) || queue@.contains(start),
                self.regions@.dom().subset_of(grid.walkable_keys()),
                old(self).regions@.dom().subset_of(self.regions@.dom()),
                grid.walkable_keys().finite(),
                self.region_count == old(self).region_count,
                self.tiles_mapped == old(self).tiles_mapped,
                forall|p: IVec2|
                    #[trigger] self@.contains_key(p) && !old(self)@.contains_key(p)
                        ==> flood_reachable(grid@, start, p),
                forall|t: IVec2|
                    #[trigger] queue@.contains(t) && walkable_in(grid@, t) ==> flood_reachable(
                        grid@,
                        start,
                        t,
                    ),
            decreases grid.walkable_keys().difference(self.regions@.dom()).len(), queue@.len(),
        {
            let ghost q0 = queue@;
            let pos = queue.pop_front().unwrap();
            let ghost rest = queue@;
            proof {
                assert(q0[0] == pos);
                assert forall|t: IVec2| #![auto] q0.contains(t) && t != pos implies rest.contains(
                    t,
                ) by {
                    let i = choose|i: int| 0 <= i < q0.len() && q0[i] == t;
                    assert(rest[i - 1] == t);
                }
                assert forall|t: IVec2| #![auto] rest.contains(t) implies q0.contains(t) by {
                    let i = choose|i: int| 0 <= i < rest.len() && rest[i] == t;
                    assert(q0[i + 1] == t);
                }
                assert(q0.contains(pos));
            }
            let k = key_of(pos);
            if self.regions.contains_key(&k) {
                proof {
                    lemma_pop_skip(grid@, self@, q0, region_id);
                }
                continue ;
            }
            if !grid.is_walkable(pos) {
                proof {
                    lemma_pop_skip(grid@, self@, q0, region_id);
                }
                continue ;
            }
            let ghost r_before = self@;
            let ghost dom_before = self.regions@.dom();
            proof {
                grid.lemma_walkable_keys(pos);
                grid.walkable_keys().lemma_set_insert_diff_decreases(dom_before, k);
                assert(dom_before.finite());
            }
            self.record(pos, region_id);
            let neighbors = flood_neighbors(grid, pos);
            let mut i: usize = 0;
            while i < neighbors.len()
                invariant
                    0 <= i <= neighbors.len(),
                    forall|t: IVec2| rest.contains(t) ==> #[trigger] queue@.contains(t),
                    forall|j: int|
                        0 <= j < i ==> self@.contains_key(#[trigger] neighbors@[j])
                            || queue@.contains(neighbors@[j]),
                    flood_reachable(grid@, start, pos),
                    forall|j: int|
                        0 <= j < neighbors.len() ==> flood_adj(grid@, pos, #[trigger] neighbors@[j]),
                    forall|t: IVec2|
                        #[trigger] queue@.contains(t) && walkable_in(grid@, t) ==> flood_reachable(
                            grid@,
                            start,
                            t,
                        ),
                decreases neighbors.len() - i,
            {
                let neighbor = neighbors[i];
                let ghost qb = queue@;
                if !self.regions.contains_key(&key_of(neighbor)) {
                    queue.push_back(neighbor);
                    proof {
                        assert(queue@[qb.len() as int] == neighbor);
                        assert forall|t: IVec2| qb.contains(t) implies #[trigger] queue@.contains(
                            t,
                        ) by {
                            let x = choose|x: int| 0 <= x < qb.len() && qb[x] == t;
                            assert(queue@[x] == t);
                        }
                        assert forall|t: IVec2|
                            #[trigger] queue@.contains(t) && walkable_in(grid@, t)
                            implies flood_reachable(grid@, start, t) by {
                            let x = choose|x: int| 0 <= x < queue@.len() && queue@[x] == t;
                            if x < qb.len() {
                                assert(qb.contains(t));
                            } else {
                                assert(flood_adj(grid@, pos, neighbors@[i as int]));
                                lemma_reach_extend(grid@, start, pos, t);
                            }
                        }
                    }
                }
                i = i + 1;
            }
            proof {
                assert forall|q: IVec2|
                    flood_adj(grid@, q0[0], q) && walkable_in(grid@, q) implies r_before.insert(
                    q0[0],
                    region_id,
                ).contains_key(q) || #[trigger] queue@.contains(q) by {
                    assert(neighbors@.contains(q));
                    let j = choose|j: int| 0 <= j < neighbors.len() && neighbors@[j] == q;
                }
                lemma_pop_record(grid@, r_before, q0, queue@, region_id);
                assert(self@ == r_before.insert(pos, region_id));
                assert(self.regions@.dom().len() == dom_before.len() + 1);
            }
        }
        proof {
            assert forall|p: IVec2, q: IVec2|
                #![trigger self@.contains_key(p), self@.contains_key(q)]
                self@.contains_key(p) && self@.contains_key(q) && self@[p] == self@[q]
                implies flood_reachable(grid@, p, q) by {
                if old(self)@.contains_key(p) && old(self)@.contains_key(q) {
                    assert(old(self)@[p] == old(self)@[q]);
                } else if !old(self)@.contains_key(p) && !old(self)@.contains_key(q) {
                    lemma_reach_symmetric(grid@, start, p);
                    lemma_reach_transitive(grid@, p, start, q);
                } else if old(self)@.contains_key(p) {
                    assert(old(self)@[p] < region_id);
                } else {
                    assert(old(self)@[q] < region_id);
                }
            }
        }
        proof {
            assert(queue@ =~= Seq::<IVec2>::empty());
            let d0 = old(self).regions@.dom();
            let d1 = self.regions@.dom();
            vstd::set_lib::lemma_len_subset(d1, grid.walkable_keys());
            vstd::set_lib::lemma_len_subset(d0, d1);
            if walkable_in(grid@, start) && !old(self)@.contains_key(start) {
                let ks = pos_key(start);
                assert(d1.contains(ks));
                assert(!d0.contains(ks));
                assert(d0.subset_of(d1.remove(ks)));
                vstd::set_lib::lemma_len_subset(d0, d1.remove(ks));
            }
        }
    }

    fn record(&mut self, pos: IVec2, region: u32)
        ensures
            final(self)@ == old(self)@.insert(pos, region),
            final(self).regions@.dom() == old(self).regions@.dom().insert(pos_key(pos)),
            final(self).region_count == old(self).region_count,
            final(self).tiles_mapped_view() == old(self).tiles_mapped_view(),
    {
        let k = key_of(pos);
        self.regions.insert(k, region);
        proof {
            assert forall|p: IVec2| #![auto] p != pos implies pos_key(p) != pos_key(pos) by {
                lemma_pos_key_injective(p, pos);
            }
        }
        assert(self@ =~= old(self)@.insert(pos, region));
    }
}

/// Half the side of the square around the origin in which the extent of a
/// grid is looked for.
pub const SCAN_HALF: i32 = 256;

/// A tile inside the scanned square that can be entered.
pub open spec fn scanned_walkable(g: Map<IVec2, u32>, p: IVec2) -> bool {
    -SCAN_HALF <= p.x <= SCAN_HALF && -SCAN_HALF <= p.y <= SCAN_HALF && walkable_in(g, p)
}

/// The box `(lo, hi)` is the bounding box of the enterable tiles of the
/// scanned square, widened by one tile on every side.
pub open spec fn padded_extent(g: Map<IVec2, u32>, lo: IVec2, hi: IVec2) -> bool {
    &&& forall|p: IVec2|
        #[trigger] scanned_walkable(g, p) ==> lo.x + 1 <= p.x <= hi.x - 1 && lo.y + 1 <= p.y
            <= hi.y - 1
    &&& exists|p: IVec2| #[trigger] scanned_walkable(g, p) && p.x == lo.x + 1
    &&& exists|p: IVec2| #[trigger] scanned_walkable(g, p) && p.x == hi.x - 1
    &&& exists|p: IVec2| #[trigger] scanned_walkable(g, p) && p.y == lo.y + 1
    &&& exists|p: IVec2| #[trigger] scanned_walkable(g, p) && p.y == hi.y - 1
}

/// The extent of a grid: the bounding box of its enterable tiles within
/// `SCAN_HALF` of the origin on both axes, widened by one tile, or the
/// origin twice when there is none.
pub fn extract_grid_bounds(grid: &PathfindingGrid) -> (r: (IVec2, IVec2))
    ensures
        (forall|p: IVec2| !#[trigger] scanned_walkable(grid@, p)) ==> r == (
        IVec2 { x: 0, y: 0 },
        IVec2 { x: 0, y: 0 },
        ),
        (exists|p: IVec2| #[trigger] scanned_walkable(grid@, p)) ==> padded_extent(grid@, r.0, r.1),
{
    let mut found = false;
    let mut min_x: i32 = 0;
    let mut min_y: i32 = 0;
    let mut max_x: i32 = 0;
    let mut max_y: i32 = 0;
    let ghost mut w_min_x = IVec2 { x: 0, y: 0 };
    let ghost mut w_min_y = IVec2 { x: 0, y: 0 };
    let ghost mut w_max_x = IVec2 { x: 0, y: 0 };
    let ghost mut w_max_y = IVec2 { x: 0, y: 0 };
    let mut y: i32 = -SCAN_HALF;
    while y <= SCAN_HALF
        invariant
            -SCAN_HALF <= y <= SCAN_HALF + 1,
            !found ==> forall|p: IVec2| #[trigger] scanned_walkable(grid@, p) ==> p.y >= y,
            found ==> {
                &&& scanned_walkable(grid@, w_min_x) && w_min_x.x == min_x
                &&& scanned_walkable(grid@, w_max_x) && w_max_x.x == max_x
                &&& scanned_walkable(grid@, w_min_y) && w_min_y.y == min_y
                &&& scanned_walkable(grid@, w_max_y) && w_max_y.y == max_y
                &&& forall|p: IVec2|
                    #[trigger] scanned_walkable(grid@, p) && p.y < y ==> min_x <= p.x <= max_x
                        && min_y <= p.y <= max_y
            },
        decreases SCAN_HALF + 1 - y,
    {
        let mut x: i32 = -SCAN_HALF;
        while x <= SCAN_HALF
            invariant
                -SCAN_HALF <= y <= SCAN_HALF,
                -SCAN_HALF <= x <= SCAN_HALF + 1,
                !found ==> forall|p: IVec2|
                    #[trigger] scanned_walkable(grid@, p) ==> p.y > y || (p.y == y && p.x >= x),
                found ==> {
                    &&& scanned_walkable(grid@, w_min_x) && w_min_x.x == min_x
                    &&& scanned_walkable(grid@, w_max_x) && w_max_x.x == max_x
                    &&& scanned_walkable(grid@, w_min_y) && w_min_y.y == min_y
                    &&& scanned_walkable(grid@, w_max_y) && w_max_y.y == max_y
                    &&& forall|p: IVec2|
                        #[trigger] scanned_walkable(grid@, p) && (p.y < y || (p.y == y && p.x < x))
                            ==> min_x <= p.x <= max_x && min_y <= p.y <= max_y
                },
            decreases SCAN_HALF + 1 - x,
        {
            let pos = IVec2 { x, y };
            if grid.is_walkable(pos) || grid.get_cost(pos) != u32::MAX {
                if !found {
                    found = true;
                    min_x = x;
                    max_x = x;
                    min_y = y;
                    max_y = y;
                    proof {
                        w_min_x = pos;
                        w_max_x = pos;
                        w_min_y = pos;
                        w_max_y = pos;
                    }
                } else {
                    if x < min_x {
                        min_x = x;
                        proof {
                            w_min_x = pos;
                        }
                    }
                    if x > max_x {
                        max_x = x;
                        proof {
                            w_max_x = pos;
                        }
                    }
                    if y < min_y {
                        min_y = y;
                        proof {
                            w_min_y = pos;
                        }
                    }
                    if y > max_y {
                        max_y = y;
                        proof {
                            w_max_y = pos;
                        }
                    }
                }
            }
            x = x + 1;
        }
        y = y + 1;
    }
    if !found {
        return (IVec2::new(0, 0), IVec2::new(0, 0));
    }
    let lo = IVec2::new(min_x - 1, min_y - 1);
    let hi = IVec2::new(max_x + 1, max_y + 1);
    proof {
        assert(scanned_walkable(grid@, w_min_x) && w_min_x.x == lo.x + 1);
        assert(scanned_walkable(grid@, w_max_x) && w_max_x.x == hi.x - 1);
        assert(scanned_walkable(grid@, w_min_y) && w_min_y.y == lo.y + 1);
        assert(scanned_walkable(grid@, w_max_y) && w_max_y.y == hi.y - 1);
    }
    (lo, hi)
}

/// Rebuilds the region map over the extent of the grid: every tile
/// recorded shares its region with a tile of that extent.
pub fn build_region_map(region_map: &mut RegionMap, grid: &PathfindingGrid)
    requires
        grid.walkable_keys().len() < u32::MAX,
    ensures
        labels_components(grid@, final(region_map)@),
        forall|p: IVec2| #[trigger] scanned_walkable(grid@, p) ==> final(region_map)@.contains_key(p),
        forall|p: IVec2|
            #[trigger] final(region_map)@.contains_key(p)
                ==> final(region_map)@[p] < final(region_map).count_view(),
        forall|id: u32|
            id < final(region_map).count_view() ==> #[trigger] region_used(final(region_map)@, id),
        final(region_map).tiles_mapped_view() == final(region_map).mapped_count(),
        (exists|p: IVec2| #[trigger] scanned_walkable(grid@, p)) ==> exists|lo: IVec2, hi: IVec2|
            padded_extent(grid@, lo, hi) && ids_in_scan_order(final(region_map)@, (lo, hi)) && forall|p: IVec2|
                #[trigger] final(region_map)@.contains_key(p) ==> region_seeded(
                    final(region_map)@,
                    (lo, hi),
                    final(region_map)@[p],
                ),
        (forall|p: IVec2| !#[trigger] scanned_walkable(grid@, p)) ==> ids_in_scan_order(
            final(region_map)@,
            (IVec2 { x: 0, y: 0 }, IVec2 { x: 0, y: 0 }),
        ) && forall|p: IVec2|
            #[trigger] final(region_map)@.contains_key(p) ==> region_seeded(
                final(region_map)@,
                (IVec2 { x: 0, y: 0 }, IVec2 { x: 0, y: 0 }),
                final(region_map)@[p],
            ),
{
    let bounds = extract_grid_bounds(grid);
    region_map.build_from_grid(grid, bounds);
    proof {
        if exists|p: IVec2| #[trigger] scanned_walkable(grid@, p) {
            assert(padded_extent(grid@, bounds.0, bounds.1));
        }
    }
}

/// Dropping the head `y` of the queue keeps closure when `y` is already
/// recorded or cannot be entered.
proof fn lemma_pop_skip(g: Map<IVec2, u32>, r: Map<IVec2, u32>, queue: Seq<IVec2>, cur: u32)
    requires
        queue.len() > 0,
        closed_under(g, r, queue, cur),
        only_walkable(g, r),
        r.contains_key(queue[0]) || !walkable_in(g, queue[0]),
    ensures
        closed_under(g, r, queue.subrange(1, queue.len() as int), cur),
{
    let y = queue[0];
    let rest = queue.subrange(1, queue.len() as int);
    assert forall|p: IVec2, q: IVec2|
        #![trigger r.contains_key(p), flood_adj(g, p, q)]
        r.contains_key(p) && flood_adj(g, p, q) && walkable_in(g, q) implies (r.contains_key(q)
        && r[q] == r[p]) || (r[p] == cur && rest.contains(q)) by {
        if !(r.contains_key(q) && r[q] == r[p]) {
            assert(r[p] == cur && queue.contains(q));
            let t = choose|t: int| 0 <= t < queue.len() && queue[t] == q;
            if t == 0 {
                // q == y is recorded: its own closure reaches back to p.
                assert(flood_adj(g, q, p));
                assert(r.contains_key(q));
                assert(walkable_in(g, p));
                assert(r[q] == r[p] || (r[q] == cur && queue.contains(p)));
            } else {
                assert(rest[t - 1] == q);
            }
        }
    }
}

/// Recording the head `y` of the queue in region `cur`, and queueing every
/// enterable flood neighbour of it that is not recorded, keeps closure.
proof fn lemma_pop_record(
    g: Map<IVec2, u32>,
    r: Map<IVec2, u32>,
    queue: Seq<IVec2>,
    new_queue: Seq<IVec2>,
    cur: u32,
)
    requires
        queue.len() > 0,
        closed_under(g, r, queue, cur),
        !r.contains_key(queue[0]),
        walkable_in(g, queue[0]),
        forall|t: IVec2|
            queue.subrange(1, queue.len() as int).contains(t) ==> #[trigger] new_queue.contains(t),
        forall|q: IVec2|
            flood_adj(g, queue[0], q) && walkable_in(g, q) ==> r.insert(queue[0], cur).contains_key(
                q,
            ) || #[trigger] new_queue.contains(q),
    ensures
        closed_under(g, r.insert(queue[0], cur), new_queue, cur),
{
    let y = queue[0];
    let r2 = r.insert(y, cur);
    let rest = queue.subrange(1, queue.len() as int);
    assert forall|p: IVec2, q: IVec2|
        #![trigger r2.contains_key(p), flood_adj(g, p, q)]
        r2.contains_key(p) && flood_adj(g, p, q) && walkable_in(g, q) implies (r2.contains_key(q)
        && r2[q] == r2[p]) || (r2[p] == cur && new_queue.contains(q)) by {
        if p == y {
            if !new_queue.contains(q) {
                assert(r2.contains_key(q));
                assert(q != y);
                assert(r.contains_key(q));
                assert(flood_adj(g, q, y));
                assert(r[q] == r[y] && r.contains_key(y) || (r[q] == cur && queue.contains(y)));
            }
        } else {
            assert(r.contains_key(p));
            if r.contains_key(q) && r[q] == r[p] {
                assert(q != y);
            } else {
                assert(r[p] == cur && queue.contains(q));
                let t = choose|t: int| 0 <= t < queue.len() && queue[t] == q;
                if t > 0 {
                    assert(rest[t - 1] == q);
                    assert(rest.contains(q));
                }
            }
        }
    }
}

/// Whether the tile `pos + (dx, dy)` exists and can be entered.
fn walkable_at(grid: &PathfindingGrid, pos: IVec2, dx: i32, dy: i32) -> (b: bool)
    requires
        -1 <= dx <= 1,
        -1 <= dy <= 1,
    ensures
        b == (i32::MIN <= pos.x + dx <= i32::MAX && i32::MIN <= pos.y + dy <= i32::MAX
            && walkable_in(grid@, IVec2 { x: (pos.x + dx) as i32, y: (pos.y + dy) as i32 })),
{
    let x: i64 = pos.x as i64 + dx as i64;
    let y: i64 = pos.y as i64 + dy as i64;
    if i32::MIN as i64 <= x && x <= i32::MAX as i64 && i32::MIN as i64 <= y && y
        <= i32::MAX as i64 {
        grid.is_walkable(IVec2 { x: x as i32, y: y as i32 })
    } else {
        false
    }
}

/// The tiles the flood fill visits next from `pos`: the four orthogonal
/// neighbours, and each diagonal neighbour whose two orthogonal
/// neighbours in common with `pos` can both be entered.
fn flood_neighbors(grid: &PathfindingGrid, pos: IVec2) -> (r: Vec<IVec2>)
    ensures
        forall|q: IVec2| flood_adj(grid@, pos, q) ==> #[trigger] r@.contains(q),
        forall|j: int| 0 <= j < r.len() ==> flood_adj(grid@, pos, #[trigger] r@[j]),
{
    let mut out: Vec<IVec2> = Vec::new();
    push_offset(&mut out, pos, 0, 1);
    push_offset(&mut out, pos, 1, 0);
    push_offset(&mut out, pos, 0, -1);
    push_offset(&mut out, pos, -1, 0);
    let north = walkable_at(grid, pos, 0, 1);
    let east = walkable_at(grid, pos, 1, 0);
    let south = walkable_at(grid, pos, 0, -1);
    let west = walkable_at(grid, pos, -1, 0);
    if north && east {
        push_offset(&mut out, pos, 1, 1);
    }
    if south && east {
        push_offset(&mut out, pos, 1, -1);
    }
    if south && west {
        push_offset(&mut out, pos, -1, -1);
    }
    if north && west {
        push_offset(&mut out, pos, -1, 1);
    }
    out
}

} // verus!
