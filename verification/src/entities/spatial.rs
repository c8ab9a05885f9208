use vstd::prelude::*;
use std::collections::HashMap;
use crate::geometry::{Entity, IVec2, abs, pos_key, key_of, lemma_pos_key_injective};
use crate::keys::collect_keys;

verus! {

/// Tiles per side of a chunk of the spatial index.
pub const CHUNK_SIZE: i32 = 16;

/// Smallest chunk coordinate (on both axes) of the spatial cell grid.
pub const GRID_MIN: i32 = -32;

/// One past the largest chunk coordinate of the spatial cell grid.
pub const GRID_MAX: i32 = 32;

/// Diet class of a creature, used to filter proximity queries.
#[derive(Debug, Clone, Copy, PartialEq, Eq, Hash, Structural)]
pub enum EntityType {
    Herbivore,
    Predator,
    Omnivore,
}

/// The chunk of side `size` that holds tile `p` (floor division).
pub open spec fn chunk_of(p: IVec2, size: int) -> IVec2 {
    IVec2 { x: ((p.x as int) / size) as i32, y: ((p.y as int) / size) as i32 }
}

/// Floor division of both coordinates of `p` by `size`.
fn chunk_coord(p: IVec2, size: i32) -> (c: IVec2)
    requires
        size > 0,
    ensures
        c == chunk_of(p, size as int),
{
    let x = match p.x.checked_div_euclid(size) {
        Some(q) => q,
        None => 0,
    };
    let y = match p.y.checked_div_euclid(size) {
        Some(q) => q,
        None => 0,
    };
    assert(i32::MIN <= (p.x as int) / (size as int) <= i32::MAX) by (nonlinear_arith)
        requires
            size >= 1,
            i32::MIN <= p.x <= i32::MAX,
    ;
    assert(i32::MIN <= (p.y as int) / (size as int) <= i32::MAX) by (nonlinear_arith)
        requires
            size >= 1,
            i32::MIN <= p.y <= i32::MAX,
    ;
    IVec2 { x, y }
}

/// A cell of the spatial grid: the chunk it stands for.
#[derive(Debug, Clone, Copy, PartialEq, Eq, Structural)]
pub struct SpatialCell {
    pub chunk_coord: IVec2,
}

/// Marks a creature that has been placed under its spatial cell.
#[derive(Debug, Clone, Copy, PartialEq, Eq, Structural)]
pub struct SpatiallyParented;

/// Lookup from chunk coordinates to the entities that stand for the cells.
pub struct SpatialCellGrid {
    cells: HashMap<u64, Entity>,
    chunk_size: i32,
}

impl View for SpatialCellGrid {
    type V = Map<IVec2, Entity>;

    closed spec fn view(&self) -> Map<IVec2, Entity> {
        Map::new(
            |c: IVec2| self.cells@.contains_key(pos_key(c)),
            |c: IVec2| self.cells@[pos_key(c)],
        )
    }
}

impl SpatialCellGrid {
    /// Tiles per side of a cell.
    pub closed spec fn size_view(&self) -> i32 {
        self.chunk_size
    }

    /// Number of cells recorded.
    pub closed spec fn cell_total(&self) -> nat {
        self.cells@.dom().len()
    }

    pub fn new(chunk_size: i32) -> (g: SpatialCellGrid)
        ensures
            g@ == Map::<IVec2, Entity>::empty(),
            g.size_view() == chunk_size,
            g.cell_total() == 0,
    {
        let g = SpatialCellGrid { cells: HashMap::new(), chunk_size };
        assert(g@ =~= Map::<IVec2, Entity>::empty());
        g
    }

    /// Records the entity of the cell at `chunk_coord`.
    pub fn insert_cell(&mut self, chunk_coord: IVec2, entity: Entity)
        ensures
            final(self)@ == old(self)@.insert(chunk_coord, entity),
            final(self).size_view() == old(self).size_view(),
            final(self).cell_total() == if old(self)@.contains_key(chunk_coord) {
                old(self).cell_total()
            } else {
                old(self).cell_total() + 1
            },
    {
        let k = key_of(chunk_coord);
        proof {
            assert(old(self)@.contains_key(chunk_coord) == self.cells@.contains_key(k));
        }
        self.cells.insert(k, entity);
        proof {
            assert forall|c: IVec2| #![auto] c != chunk_coord implies pos_key(c) != pos_key(chunk_coord) by {
                lemma_pos_key_injective(c, chunk_coord);
            }
        }
        assert(self@ =~= old(self)@.insert(chunk_coord, entity));
    }

    /// The entity of the cell at `chunk_coord`, if there is one.
    pub fn get_cell(&self, chunk_coord: IVec2) -> (r: Option<Entity>)
        ensures
            r == (if self@.contains_key(chunk_coord) {
                Some(self@[chunk_coord])
            } else {
                None::<Entity>
            }),
    {
        let k = key_of(chunk_coord);
        match self.cells.get(&k) {
            Some(e) => Some(*e),
            None => None,
        }
    }

    /// The chunk that holds a tile (floor division by the chunk size).
    pub fn chunk_coord_for_position(&self, world_pos: IVec2) -> (c: IVec2)
        requires
            self.size_view() > 0,
        ensures
            c == chunk_of(world_pos, self.size_view() as int),
    {
        chunk_coord(world_pos, self.chunk_size)
    }

    pub fn chunk_size(&self) -> (s: i32)
        ensures
            s == self.size_view(),
    {
        self.chunk_size
    }

    /// Number of cells recorded.
    pub fn cell_count(&self) -> (n: usize)
        ensures
            n == self.cell_total(),
    {
        self.cells.len()
    }

    /// Whether a chunk lies inside the grid: from `GRID_MIN` up to, not
    /// including, `GRID_MAX` on both axes.
    pub fn is_in_bounds(&self, chunk_coord: IVec2) -> (b: bool)
        ensures
            b == (GRID_MIN <= chunk_coord.x < GRID_MAX && GRID_MIN <= chunk_coord.y < GRID_MAX),
    {
        chunk_coord.x >= GRID_MIN && chunk_coord.x < GRID_MAX && chunk_coord.y >= GRID_MIN
            && chunk_coord.y < GRID_MAX
    }
}

/// One entry of the spatial index: a creature and its diet class.
pub type IndexEntry = (Entity, EntityType);

/// The (key, position) slots of the entries held under each key.
pub open spec fn entry_slots(m: Map<u64, Vec<IndexEntry>>) -> Set<(u64, int)> {
    Set::new(|p: (u64, int)| m.contains_key(p.0) && 0 <= p.1 < m[p.0].len())
}

/// The slots `(k, 0) .. (k, n - 1)`.
pub open spec fn slot_row(k: u64, n: int) -> Set<(u64, int)> {
    Set::new(|p: (u64, int)| p.0 == k && 0 <= p.1 < n)
}

proof fn lemma_slot_row(k: u64, n: int)
    requires
        n >= 0,
    ensures
        slot_row(k, n).finite(),
        slot_row(k, n).len() == n,
    decreases n,
{
    if n == 0 {
        assert(slot_row(k, n) =~= Set::<(u64, int)>::empty());
    } else {
        lemma_slot_row(k, n - 1);
        assert(slot_row(k, n) =~= slot_row(k, n - 1).insert((k, n - 1)));
    }
}

/// Taking key `k` out of a map takes exactly its row of slots away.
proof fn lemma_slots_remove(m: Map<u64, Vec<IndexEntry>>, k: u64)
    requires
        m.contains_key(k),
    ensures
        entry_slots(m) == entry_slots(m.remove(k)).union(slot_row(k, m[k].len() as int)),
        entry_slots(m.remove(k)).disjoint(slot_row(k, m[k].len() as int)),
{
    assert(entry_slots(m) =~= entry_slots(m.remove(k)).union(slot_row(k, m[k].len() as int)));
}

proof fn lemma_slots_finite(m: Map<u64, Vec<IndexEntry>>)
    requires
        m.dom().finite(),
    ensures
        entry_slots(m).finite(),
    decreases m.dom().len(),
{
    if m.dom().len() == 0 {
        assert(m.dom() =~= Set::<u64>::empty());
        assert(entry_slots(m) =~= Set::<(u64, int)>::empty());
    } else {
        let k = m.dom().choose();
        lemma_slots_finite(m.remove(k));
        lemma_slots_remove(m, k);
        lemma_slot_row(k, m[k].len() as int);
    }
}

/// Number of entries held in `m`.
pub open spec fn entry_count(m: Map<u64, Vec<IndexEntry>>) -> nat {
    entry_slots(m).len()
}

/// Storing `v` under `k` changes the entry count by the difference of
/// the lengths.
proof fn lemma_count_insert(m: Map<u64, Vec<IndexEntry>>, k: u64, v: Vec<IndexEntry>)
    requires
        m.dom().finite(),
    ensures
        entry_count(m.insert(k, v)) + (if m.contains_key(k) { m[k].len() as int } else { 0 })
            == entry_count(m) + v.len(),
{
    let r = m.remove(k);
    let m2 = m.insert(k, v);
    assert(m2.remove(k) =~= r);
    lemma_slots_finite(r);
    lemma_slots_remove(m2, k);
    lemma_slot_row(k, v.len() as int);
    vstd::set_lib::lemma_set_disjoint_lens(entry_slots(r), slot_row(k, v.len() as int));
    if m.contains_key(k) {
        lemma_slots_remove(m, k);
        lemma_slot_row(k, m[k].len() as int);
        vstd::set_lib::lemma_set_disjoint_lens(entry_slots(r), slot_row(k, m[k].len() as int));
    } else {
        assert(r =~= m);
    }
}

/// Taking `k` out lowers the entry count by the length stored there.
proof fn lemma_count_remove(m: Map<u64, Vec<IndexEntry>>, k: u64)
    requires
        m.dom().finite(),
    ensures
        entry_count(m.remove(k)) + (if m.contains_key(k) { m[k].len() as int } else { 0 })
            == entry_count(m),
{
    if m.contains_key(k) {
        lemma_slots_finite(m.remove(k));
        lemma_slots_remove(m, k);
        lemma_slot_row(k, m[k].len() as int);
        vstd::set_lib::lemma_set_disjoint_lens(entry_slots(m.remove(k)), slot_row(k, m[k].len() as int));
    } else {
        assert(m.remove(k) =~= m);
    }
}

/// The entries of `s` that are not for creature `e`, in order.
pub open spec fn without_entity(s: Seq<IndexEntry>, e: Entity) -> Seq<IndexEntry>
    decreases s.len(),
{
    if s.len() == 0 {
        Seq::empty()
    } else if s.last().0 != e {
        without_entity(s.drop_last(), e).push(s.last())
    } else {
        without_entity(s.drop_last(), e)
    }
}

/// The filter of a proximity query lets diet class `t` through.
pub open spec fn type_matches(t: EntityType, filter: Option<EntityType>) -> bool {
    filter is None || filter == Some(t)
}

/// The creatures of the entries of `s` that pass the filter, in order.
pub open spec fn hits_in(s: Seq<IndexEntry>, filter: Option<EntityType>) -> Seq<Entity>
    decreases s.len(),
{
    if s.len() == 0 {
        Seq::empty()
    } else if type_matches(s.last().1, filter) {
        hits_in(s.drop_last(), filter).push(s.last().0)
    } else {
        hits_in(s.drop_last(), filter)
    }
}

/// The creatures of chunk `c` that pass the filter.
pub open spec fn chunk_hits(v: Map<IVec2, Seq<IndexEntry>>, c: IVec2, filter: Option<EntityType>) -> Seq<Entity> {
    if v.contains_key(c) {
        hits_in(v[c], filter)
    } else {
        Seq::empty()
    }
}

/// The chunk `(dx, dy)` away from `c`.
pub open spec fn chunk_offset(c: IVec2, dx: int, dy: int) -> IVec2 {
    IVec2 { x: (c.x + dx) as i32, y: (c.y + dy) as i32 }
}

/// Hits of the chunks `(dx, -r) .. (dx, dy_end - 1)` from `cc`, in order.
pub open spec fn column_hits(
    v: Map<IVec2, Seq<IndexEntry>>,
    cc: IVec2,
    r: int,
    dx: int,
    dy_end: int,
    filter: Option<EntityType>,
) -> Seq<Entity>
    decreases dy_end + r,
{
    if dy_end <= -r {
        Seq::empty()
    } else {
        column_hits(v, cc, r, dx, dy_end - 1, filter) + chunk_hits(
            v,
            chunk_offset(cc, dx, dy_end - 1),
            filter,
        )
    }
}

/// Hits of the columns `-r .. dx_end - 1` of the square of chunks of
/// radius `r` around `cc`, column by column.
pub open spec fn area_hits(
    v: Map<IVec2, Seq<IndexEntry>>,
    cc: IVec2,
    r: int,
    dx_end: int,
    filter: Option<EntityType>,
) -> Seq<Entity>
    decreases dx_end + r,
{
    if dx_end <= -r {
        Seq::empty()
    } else {
        area_hits(v, cc, r, dx_end - 1, filter) + column_hits(v, cc, r, dx_end - 1, r + 1, filter)
    }
}

/// Radius in chunks that a query of `radius` tiles covers:
/// `(radius + CHUNK_SIZE - 1) / CHUNK_SIZE`, rounded toward zero.
pub open spec fn chunk_radius(radius: int) -> int {
    let n = radius + CHUNK_SIZE - 1;
    if n >= 0 {
        n / (CHUNK_SIZE as int)
    } else {
        -((-n) / (CHUNK_SIZE as int))
    }
}

/// What a proximity query returns: the creatures passing the filter in the
/// square of chunks of radius `chunk_radius(radius)` around the chunk of
/// `center`, column by column from the lowest `x`, each column from the
/// lowest `y`, each chunk in insertion order.
pub open spec fn radius_hits(
    v: Map<IVec2, Seq<IndexEntry>>,
    center: IVec2,
    radius: int,
    filter: Option<EntityType>,
) -> Seq<Entity> {
    let r = chunk_radius(radius);
    area_hits(v, chunk_of(center, CHUNK_SIZE as int), r, r + 1, filter)
}

proof fn lemma_hits_in_contains(s: Seq<IndexEntry>, k: int, filter: Option<EntityType>)
    requires
        0 <= k < s.len(),
        type_matches(s[k].1, filter),
    ensures
        hits_in(s, filter).contains(s[k].0),
    decreases s.len(),
{
    if k == s.len() - 1 {
        let h = hits_in(s, filter);
        assert(h[h.len() - 1] == s[k].0);
    } else {
        lemma_hits_in_contains(s.drop_last(), k, filter);
        let h0 = hits_in(s.drop_last(), filter);
        let i = choose|i: int| 0 <= i < h0.len() && h0[i] == s[k].0;
        if type_matches(s.last().1, filter) {
            assert(hits_in(s, filter)[i] == s[k].0);
        }
    }
}

proof fn lemma_column_contains(
    v: Map<IVec2, Seq<IndexEntry>>,
    cc: IVec2,
    r: int,
    dx: int,
    dy_end: int,
    dy: int,
    filter: Option<EntityType>,
    e: Entity,
)
    requires
        -r <= dy < dy_end,
        chunk_hits(v, chunk_offset(cc, dx, dy), filter).contains(e),
    ensures
        column_hits(v, cc, r, dx, dy_end, filter).contains(e),
    decreases dy_end + r,
{
    let a = column_hits(v, cc, r, dx, dy_end - 1, filter);
    let b = chunk_hits(v, chunk_offset(cc, dx, dy_end - 1), filter);
    if dy == dy_end - 1 {
        let i = choose|i: int| 0 <= i < b.len() && b[i] == e;
        assert((a + b)[a.len() + i] == e);
    } else {
        lemma_column_contains(v, cc, r, dx, dy_end - 1, dy, filter, e);
        let i = choose|i: int| 0 <= i < a.len() && a[i] == e;
        assert((a + b)[i] == e);
    }
}

proof fn lemma_area_contains(
    v: Map<IVec2, Seq<IndexEntry>>,
    cc: IVec2,
    r: int,
    dx_end: int,
    dx: int,
    filter: Option<EntityType>,
    e: Entity,
)
    requires
        -r <= dx < dx_end,
        column_hits(v, cc, r, dx, r + 1, filter).contains(e),
    ensures
        area_hits(v, cc, r, dx_end, filter).contains(e),
    decreases dx_end + r,
{
    let a = area_hits(v, cc, r, dx_end - 1, filter);
    let b = column_hits(v, cc, r, dx_end - 1, r + 1, filter);
    if dx == dx_end - 1 {
        let i = choose|i: int| 0 <= i < b.len() && b[i] == e;
        assert((a + b)[a.len() + i] == e);
    } else {
        lemma_area_contains(v, cc, r, dx_end - 1, dx, filter, e);
        let i = choose|i: int| 0 <= i < a.len() && a[i] == e;
        assert((a + b)[i] == e);
    }
}

/// Tiles at most `d` apart lie in chunks at most `(d + 15) / 16` apart.
proof fn lemma_chunk_gap(a: int, b: int, d: int)
    requires
        0 <= d,
        abs(a - b) <= d,
    ensures
        abs(a / 16 - b / 16) <= (d + 15) / 16,
{
    vstd::arithmetic::div_mod::lemma_fundamental_div_mod(a, 16);
    vstd::arithmetic::div_mod::lemma_fundamental_div_mod(b, 16);
    vstd::arithmetic::div_mod::lemma_fundamental_div_mod(d + 15, 16);
    vstd::arithmetic::div_mod::lemma_mod_bound(a, 16);
    vstd::arithmetic::div_mod::lemma_mod_bound(b, 16);
    vstd::arithmetic::div_mod::lemma_mod_bound(d + 15, 16);
}

/// A creature recorded in the chunk of a tile that lies within `radius`
/// of the center on both axes is returned by a query of that radius whose
/// filter lets its diet class through.
pub proof fn law_query_finds_nearby(
    v: Map<IVec2, Seq<IndexEntry>>,
    e: Entity,
    t: EntityType,
    p: IVec2,
    center: IVec2,
    radius: int,
    filter: Option<EntityType>,
)
    requires
        v.contains_key(chunk_of(p, CHUNK_SIZE as int)),
        v[chunk_of(p, CHUNK_SIZE as int)].contains((e, t)),
        type_matches(t, filter),
        0 <= radius,
        abs(p.x - center.x) <= radius,
        abs(p.y - center.y) <= radius,
    ensures
        radius_hits(v, center, radius, filter).contains(e),
{
    let c = chunk_of(p, CHUNK_SIZE as int);
    let cc = chunk_of(center, CHUNK_SIZE as int);
    let r = chunk_radius(radius);
    lemma_chunk_gap(p.x as int, center.x as int, radius);
    lemma_chunk_gap(p.y as int, center.y as int, radius);
    assert(i32::MIN <= (p.x as int) / 16 <= i32::MAX);
    assert(i32::MIN <= (p.y as int) / 16 <= i32::MAX);
    assert(i32::MIN <= (center.x as int) / 16 <= i32::MAX);
    assert(i32::MIN <= (center.y as int) / 16 <= i32::MAX);
    let dx = c.x - cc.x;
    let dy = c.y - cc.y;
    assert(chunk_offset(cc, dx, dy) == c);
    let k = choose|k: int| 0 <= k < v[c].len() && v[c][k] == (e, t);
    lemma_hits_in_contains(v[c], k, filter);
    lemma_column_contains(v, cc, r, dx, r + 1, dy, filter, e);
    lemma_area_contains(v, cc, r, r + 1, dx, filter, e);
}

/// The index `v` after adding creature `e` of class `t` at tile `p`.
pub open spec fn index_after_insert(
    v: Map<IVec2, Seq<IndexEntry>>,
    e: Entity,
    p: IVec2,
    t: EntityType,
) -> Map<IVec2, Seq<IndexEntry>> {
    let c = chunk_of(p, CHUNK_SIZE as int);
    let before = if v.contains_key(c) { v[c] } else { Seq::<IndexEntry>::empty() };
    v.insert(c, before.push((e, t)))
}

/// The index `v` after dropping creature `e` from the chunk of tile `p`.
pub open spec fn index_after_remove(v: Map<IVec2, Seq<IndexEntry>>, e: Entity, p: IVec2) -> Map<
    IVec2,
    Seq<IndexEntry>,
> {
    let c = chunk_of(p, CHUNK_SIZE as int);
    if !v.contains_key(c) {
        v
    } else if without_entity(v[c], e).len() == 0 {
        v.remove(c)
    } else {
        v.insert(c, without_entity(v[c], e))
    }
}

/// No entry of `without_entity(s, e)` is for `e`, and every entry of it is one of `s`.
proof fn lemma_without_entity(s: Seq<IndexEntry>, e: Entity)
    ensures
        forall|i: int| 0 <= i < without_entity(s, e).len() ==> (#[trigger] without_entity(s, e)[i]).0 != e && s.contains(
            without_entity(s, e)[i],
        ),
    decreases s.len(),
{
    if s.len() > 0 {
        lemma_without_entity(s.drop_last(), e);
        let w = without_entity(s, e);
        let p = without_entity(s.drop_last(), e);
        assert forall|i: int| 0 <= i < w.len() implies (#[trigger] w[i]).0 != e && s.contains(w[i]) by {
            if i < p.len() {
                assert(w[i] == p[i]);
                let j = choose|j: int| 0 <= j < s.drop_last().len() && s.drop_last()[j] == p[i];
                assert(s[j] == p[i]);
            } else {
                assert(s[s.len() - 1] == s.last());
            }
        }
    }
}

/// A creature just added at tile `p` is returned by every query whose
/// center is within `radius` of `p` on both axes and whose filter lets its
/// diet class through.
pub proof fn law_insert_then_found(
    v: Map<IVec2, Seq<IndexEntry>>,
    e: Entity,
    t: EntityType,
    p: IVec2,
    center: IVec2,
    radius: int,
    filter: Option<EntityType>,
)
    requires
        type_matches(t, filter),
        0 <= radius,
        abs(p.x - center.x) <= radius,
        abs(p.y - center.y) <= radius,
    ensures
        radius_hits(index_after_insert(v, e, p, t), center, radius, filter).contains(e),
{
    let w = index_after_insert(v, e, p, t);
    let c = chunk_of(p, CHUNK_SIZE as int);
    assert(w[c][w[c].len() - 1] == (e, t));
    law_query_finds_nearby(w, e, t, p, center, radius, filter);
}

/// Once a creature is removed at tile `p`, the chunk of `p` holds no entry
/// for it, and every other chunk is as it was.
pub proof fn law_remove_forgets(v: Map<IVec2, Seq<IndexEntry>>, e: Entity, p: IVec2)
    ensures
        ({
            let w = index_after_remove(v, e, p);
            let c = chunk_of(p, CHUNK_SIZE as int);
            &&& w.contains_key(c) ==> forall|i: int| 0 <= i < w[c].len() ==> (#[trigger] w[c][i]).0 != e
            &&& forall|d: IVec2| d != c ==> (#[trigger] w.contains_key(d) <==> v.contains_key(d))
            &&& forall|d: IVec2| d != c && #[trigger] w.contains_key(d) ==> w[d] == v[d]
        }),
{
    let c = chunk_of(p, CHUNK_SIZE as int);
    if v.contains_key(c) {
        lemma_without_entity(v[c], e);
    }
}

/// Buckets creatures by the chunk of `CHUNK_SIZE` tiles they stand in, so
/// that proximity queries only look at nearby chunks.
pub struct SpatialEntityIndex {
    chunks: HashMap<u64, Vec<IndexEntry>>,
}

impl View for SpatialEntityIndex {
    type V = Map<IVec2, Seq<IndexEntry>>;

    closed spec fn view(&self) -> Map<IVec2, Seq<IndexEntry>> {
        Map::new(
            |c: IVec2| self.chunks@.contains_key(pos_key(c)),
            |c: IVec2| self.chunks@[pos_key(c)]@,
        )
    }
}

impl SpatialEntityIndex {
    /// Number of entries held, over all chunks.
    pub closed spec fn entity_total(&self) -> nat {
        entry_count(self.chunks@)
    }

    /// Number of chunks holding entries.
    pub closed spec fn chunk_total(&self) -> nat {
        self.chunks@.dom().len()
    }

    pub fn new() -> (s: SpatialEntityIndex)
        ensures
            s@ == Map::<IVec2, Seq<IndexEntry>>::empty(),
            s.entity_total() == 0,
            s.chunk_total() == 0,
    {
        let s = SpatialEntityIndex { chunks: HashMap::new() };
        assert(s@ =~= Map::<IVec2, Seq<IndexEntry>>::empty());
        assert(entry_slots(s.chunks@) =~= Set::<(u64, int)>::empty());
        s
    }

    /// The chunk that holds a tile.
    pub fn world_to_chunk(pos: IVec2) -> (c: IVec2)
        ensures
            c == chunk_of(pos, CHUNK_SIZE as int),
    {
        chunk_coord(pos, CHUNK_SIZE)
    }

    /// Keys of distinct chunks differ.
    proof fn lemma_keys_apart(c: IVec2)
        ensures
            forall|d: IVec2| #![auto] d != c ==> pos_key(d) != pos_key(c),
    {
        assert forall|d: IVec2| #![auto] d != c implies pos_key(d) != pos_key(c) by {
            lemma_pos_key_injective(d, c);
        }
    }

    /// Adds a creature at a tile: its entry goes last in the tile's chunk.
    pub fn insert(&mut self, entity: Entity, pos: IVec2, entity_type: EntityType)
        ensures
            final(self)@ == index_after_insert(old(self)@, entity, pos, entity_type),
            final(self).entity_total() == old(self).entity_total() + 1,
            final(self).chunk_total() == if old(self)@.contains_key(chunk_of(pos, CHUNK_SIZE as int)) {
                old(self).chunk_total()
            } else {
                old(self).chunk_total() + 1
            },
    {
        let chunk = Self::world_to_chunk(pos);
        let k = key_of(chunk);
        let ghost m0 = self.chunks@;
        let mut bucket = match self.chunks.remove(&k) {
            Some(v) => v,
            None => Vec::new(),
        };
        let ghost b0 = bucket;
        bucket.push((entity, entity_type));
        self.chunks.insert(k, bucket);
        proof {
            Self::lemma_keys_apart(chunk);
            assert(self.chunks@ == m0.insert(k, bucket));
            lemma_count_insert(m0, k, bucket);
            if m0.contains_key(k) {
                assert(b0 == m0[k]);
            }
        }
        assert(self@ =~= old(self)@.insert(
            chunk,
            (if old(self)@.contains_key(chunk) {
                old(self)@[chunk]
            } else {
                Seq::<IndexEntry>::empty()
            }).push((entity, entity_type)),
        ));
    }

    /// Drops every entry of a creature from the chunk of `old_pos`; a
    /// chunk left empty is dropped.
    pub fn remove(&mut self, entity: Entity, old_pos: IVec2)
        ensures
            final(self)@ == index_after_remove(old(self)@, entity, old_pos),
            old(self)@.contains_key(chunk_of(old_pos, CHUNK_SIZE as int)) ==> final(self).entity_total()
                + old(self)@[chunk_of(old_pos, CHUNK_SIZE as int)].len() == old(self).entity_total()
                + without_entity(old(self)@[chunk_of(old_pos, CHUNK_SIZE as int)], entity).len(),
            !old(self)@.contains_key(chunk_of(old_pos, CHUNK_SIZE as int)) ==> final(self).entity_total()
                == old(self).entity_total(),
            final(self).chunk_total() == if old(self)@.contains_key(chunk_of(old_pos, CHUNK_SIZE as int))
                && without_entity(old(self)@[chunk_of(old_pos, CHUNK_SIZE as int)], entity).len() == 0 {
                (old(self).chunk_total() - 1) as nat
            } else {
                old(self).chunk_total()
            },
    {
        let chunk = Self::world_to_chunk(old_pos);
        let k = key_of(chunk);
        let ghost m0 = self.chunks@;
        proof {
            Self::lemma_keys_apart(chunk);
        }
        match self.chunks.remove(&k) {
            Some(bucket) => {
                let mut kept: Vec<IndexEntry> = Vec::new();
                let mut i: usize = 0;
                while i < bucket.len()
                    invariant
                        0 <= i <= bucket.len(),
                        kept@ == without_entity(bucket@.take(i as int), entity),
                    decreases bucket.len() - i,
                {
                    proof {
                        assert(bucket@.take(i + 1).drop_last() == bucket@.take(i as int));
                        assert(bucket@.take(i + 1).last() == bucket@[i as int]);
                    }
                    if bucket[i].0 != entity {
                        kept.push(bucket[i]);
                    }
                    i = i + 1;
                }
                proof {
                    assert(bucket@.take(bucket.len() as int) == bucket@);
                    assert(bucket == m0[k]);
                    assert(old(self)@.contains_key(chunk));
                    assert(old(self)@[chunk] == bucket@);
                }
                if kept.len() > 0 {
                    let ghost kv = kept;
                    self.chunks.insert(k, kept);
                    proof {
                        assert(self.chunks@ =~= m0.insert(k, kv));
                        lemma_count_insert(m0, k, kv);
                    }
                    assert(self@ =~= old(self)@.insert(chunk, without_entity(old(self)@[chunk], entity)));
                } else {
                    proof {
                        lemma_count_remove(m0, k);
                    }
                    assert(self@ =~= old(self)@.remove(chunk));
                }
            },
            None => {
                assert(self.chunks@ =~= m0);
                assert(self@ =~= old(self)@);
            },
        }
    }

    /// Moves a creature's entries when its new tile lies in another chunk.
    pub fn update(&mut self, entity: Entity, old_pos: IVec2, new_pos: IVec2, entity_type: EntityType)
        ensures
            final(self)@ == if chunk_of(old_pos, CHUNK_SIZE as int) == chunk_of(new_pos, CHUNK_SIZE as int) {
                old(self)@
            } else {
                index_after_insert(index_after_remove(old(self)@, entity, old_pos), entity, new_pos, entity_type)
            },
            chunk_of(old_pos, CHUNK_SIZE as int) == chunk_of(new_pos, CHUNK_SIZE as int) ==> final(self).entity_total()
                == old(self).entity_total() && final(self).chunk_total() == old(self).chunk_total(),
    {
        let old_chunk = Self::world_to_chunk(old_pos);
        let new_chunk = Self::world_to_chunk(new_pos);
        if old_chunk != new_chunk {
            self.remove(entity, old_pos);
            self.insert(entity, new_pos, entity_type);
        }
    }

    /// The creatures passing `filter` in the chunks around `center` that a
    /// radius of `radius` tiles reaches (see `radius_hits`).
    pub fn entities_in_radius(&self, center: IVec2, radius: i32, filter: Option<EntityType>) -> (r: Vec<Entity>)
        requires
            radius <= i32::MAX - (CHUNK_SIZE - 1),
        ensures
            r@ == radius_hits(self@, center, radius as int, filter),
    {
        let n: i64 = radius as i64 + (CHUNK_SIZE as i64 - 1);
        let cr: i64 = if n >= 0 {
            (n as u64 / 16) as i64
        } else {
            -(((-n) as u64 / 16) as i64)
        };
        let cc = Self::world_to_chunk(center);
        let ghost v = self@;
        let ghost r = cr as int;
        proof {
            assert(cr == chunk_radius(radius as int));
            assert(-134217728 <= cc.x < 134217728) by (nonlinear_arith)
                requires
                    cc.x == (center.x as int) / 16,
                    i32::MIN <= center.x <= i32::MAX,
            ;
            assert(-134217728 <= cc.y < 134217728) by (nonlinear_arith)
                requires
                    cc.y == (center.y as int) / 16,
                    i32::MIN <= center.y <= i32::MAX,
            ;
        }
        let mut results: Vec<Entity> = Vec::new();
        let mut dx: i64 = -cr;
        while dx <= cr
            invariant
                v == self@,
                r == cr,
                -134217729 <= cr <= 134217728,
                -134217728 <= cc.x < 134217728,
                -134217728 <= cc.y < 134217728,
                -cr <= dx,
                dx <= cr + 1 || dx == -cr,
                results@ == area_hits(v, cc, r, dx as int, filter),
            decreases cr + 1 - dx,
        {
            let mut dy: i64 = -cr;
            proof {
                assert(column_hits(v, cc, r, dx as int, dy as int, filter) == Seq::<Entity>::empty());
                assert(results@ + column_hits(v, cc, r, dx as int, dy as int, filter) =~= results@);
            }
            let ghost before = results@;
            while dy <= cr
                invariant
                    v == self@,
                    r == cr,
                    -134217729 <= cr <= 134217728,
                    -134217728 <= cc.x < 134217728,
                    -134217728 <= cc.y < 134217728,
                    -cr <= dx <= cr,
                    -cr <= dy <= cr + 1,
                    results@ == before + column_hits(v, cc, r, dx as int, dy as int, filter),
                decreases cr + 1 - dy,
            {
                let chunk = IVec2 { x: (cc.x as i64 + dx) as i32, y: (cc.y as i64 + dy) as i32 };
                let k = key_of(chunk);
                let ghost mid = results@;
                match self.chunks.get(&k) {
                    Some(entries) => {
                        let mut j: usize = 0;
                        while j < entries.len()
                            invariant
                                0 <= j <= entries.len(),
                                results@ == mid + hits_in(entries@.take(j as int), filter),
                            decreases entries.len() - j,
                        {
                            proof {
                                assert(entries@.take(j + 1).drop_last() == entries@.take(j as int));
                                assert(entries@.take(j + 1).last() == entries@[j as int]);
                            }
                            let (e, t) = entries[j];
                            let pass = match filter {
                                None => true,
                                Some(f) => f == t,
                            };
                            if pass {
                                results.push(e);
                            }
                            j = j + 1;
                        }
                        proof {
                            assert(entries@.take(entries.len() as int) == entries@);
                            assert(v.contains_key(chunk) && v[chunk] == entries@);
                        }
                    },
                    None => {
                        proof {
                            assert(!v.contains_key(chunk));
                        }
                    },
                }
                proof {
                    assert(chunk == chunk_offset(cc, dx as int, dy as int));
                    assert(column_hits(v, cc, r, dx as int, dy + 1, filter) == column_hits(
                        v,
                        cc,
                        r,
                        dx as int,
                        dy as int,
                        filter,
                    ) + chunk_hits(v, chunk, filter));
                    assert(results@ =~= before + column_hits(v, cc, r, dx as int, dy + 1, filter));
                }
                dy = dy + 1;
            }
            proof {
                assert(area_hits(v, cc, r, dx + 1, filter) == area_hits(v, cc, r, dx as int, filter)
                    + column_hits(v, cc, r, dx as int, r + 1, filter));
            }
            dx = dx + 1;
        }
        proof {
            if cr < -cr {
                assert(area_hits(v, cc, r, r + 1, filter) == Seq::<Entity>::empty());
                assert(area_hits(v, cc, r, dx as int, filter) == Seq::<Entity>::empty());
            }
        }
        results
    }

    /// Forgets every entry.
    pub fn clear(&mut self)
        ensures
            final(self)@ == Map::<IVec2, Seq<IndexEntry>>::empty(),
            final(self).entity_total() == 0,
            final(self).chunk_total() == 0,
    {
        self.chunks.clear();
        assert(self@ =~= Map::<IVec2, Seq<IndexEntry>>::empty());
        assert(entry_slots(self.chunks@) =~= Set::<(u64, int)>::empty());
    }

    /// Number of entries held, over all chunks.
    pub fn total_entities(&self) -> (n: usize)
        requires
            self.entity_total() <= usize::MAX,
        ensures
            n == self.entity_total(),
    {
        let keys = collect_keys(&self.chunks);
        let ghost m = self.chunks@;
        let ghost mut pm = Map::<u64, Vec<IndexEntry>>::empty();
        let mut sum: usize = 0;
        let mut i: usize = 0;
        proof {
            assert(entry_slots(pm) =~= Set::<(u64, int)>::empty());
            lemma_slots_finite(m);
        }
        while i < keys.len()
            invariant
                0 <= i <= keys.len(),
                m == self.chunks@,
                keys@.to_set() == m.dom(),
                keys@.no_duplicates(),
                entry_count(m) <= usize::MAX,
                entry_slots(m).finite(),
                pm.dom().finite(),
                forall|k: u64| pm.contains_key(k) <==> exists|j: int| 0 <= j < i && keys@[j] == k,
                forall|k: u64| #[trigger] pm.contains_key(k) ==> m.contains_key(k) && pm[k] == m[k],
                sum == entry_count(pm),
            decreases keys.len() - i,
        {
            let k = keys[i];
            proof {
                assert(keys@.contains(k));
                assert(keys@.to_set().contains(k));
                assert(!pm.contains_key(k)) by {
                    if pm.contains_key(k) {
                        let j = choose|j: int| 0 <= j < i && keys@[j] == k;
                        assert(keys@[j] == keys@[i as int]);
                    }
                }
            }
            let len = match self.chunks.get(&k) {
                Some(v) => v.len(),
                None => 0,
            };
            proof {
                lemma_count_insert(pm, k, m[k]);
                let pm2 = pm.insert(k, m[k]);
                assert(entry_slots(pm2).subset_of(entry_slots(m)));
                vstd::set_lib::lemma_len_subset(entry_slots(pm2), entry_slots(m));
                pm = pm2;
                assert forall|k2: u64| pm.contains_key(k2) <==> exists|j: int| 0 <= j < i + 1 && keys@[j] == k2 by {
                    if pm.contains_key(k2) && k2 != k {
                        let j = choose|j: int| 0 <= j < i && keys@[j] == k2;
                    }
                    if k2 == k {
                        assert(keys@[i as int] == k2);
                    }
                }
            }
            sum = sum + len;
            i = i + 1;
        }
        proof {
            assert forall|k: u64| #![auto] pm.contains_key(k) == m.contains_key(k) by {
                if m.contains_key(k) {
                    assert(keys@.to_set().contains(k));
                    assert(keys@.contains(k));
                    let j = choose|j: int| 0 <= j < keys.len() && keys@[j] == k;
                }
            }
            assert(pm =~= m);
        }
        sum
    }

    /// Number of chunks holding entries.
    pub fn chunk_count(&self) -> (n: usize)
        ensures
            n == self.chunk_total(),
    {
        self.chunks.len()
    }

    /// Number of entries held in one chunk.
    pub fn entities_in_chunk(&self, chunk: IVec2) -> (n: usize)
        ensures
            n == (if self@.contains_key(chunk) {
                self@[chunk].len()
            } else {
                0
            }),
    {
        let k = key_of(chunk);
        match self.chunks.get(&k) {
            Some(v) => v.len(),
            None => 0,
        }
    }
}

impl Default for SpatialEntityIndex {
    fn default() -> (s: SpatialEntityIndex)
        ensures
            s@ == Map::<IVec2, Seq<IndexEntry>>::empty(),
            s.entity_total() == 0,
            s.chunk_total() == 0,
    {
        SpatialEntityIndex::new()
    }
}

/// Last known tile and diet class of each tracked creature.
pub struct EntityPositionCache {
    previous_positions: HashMap<u32, (IVec2, EntityType)>,
}

impl View for EntityPositionCache {
    type V = Map<u32, (IVec2, EntityType)>;

    closed spec fn view(&self) -> Map<u32, (IVec2, EntityType)> {
        self.previous_positions@
    }
}

impl EntityPositionCache {
    pub fn new() -> (c: EntityPositionCache)
        ensures
            c@ == Map::<u32, (IVec2, EntityType)>::empty(),
    {
        EntityPositionCache { previous_positions: HashMap::new() }
    }

    /// The cached tile and class of a creature.
    pub fn get_position(&self, entity: Entity) -> (r: Option<(IVec2, EntityType)>)
        ensures
            r == (if self@.contains_key(entity.index) {
                Some(self@[entity.index])
            } else {
                None::<(IVec2, EntityType)>
            }),
    {
        match self.previous_positions.get(&entity.index) {
            Some(v) => Some(*v),
            None => None,
        }
    }

    pub fn update_position(&mut self, entity: Entity, pos: IVec2, entity_type: EntityType)
        ensures
            final(self)@ == old(self)@.insert(entity.index, (pos, entity_type)),
    {
        self.previous_positions.insert(entity.index, (pos, entity_type));
    }

    pub fn remove_entity(&mut self, entity: Entity)
        ensures
            final(self)@ == old(self)@.remove(entity.index),
    {
        self.previous_positions.remove(&entity.index);
    }

    /// Every tracked creature, each once.
    pub fn all_entities(&self) -> (r: Vec<Entity>)
        ensures
            r@.len() == self@.dom().len(),
            forall|i: int| 0 <= i < r.len() ==> self@.contains_key(#[trigger] r@[i].index),
            forall|k: u32| self@.contains_key(k) ==> exists|i: int| 0 <= i < r.len() && #[trigger] r@[i].index == k,
            forall|i: int, j: int| 0 <= i < j < r.len() ==> r@[i] != r@[j],
    {
        let keys = collect_keys(&self.previous_positions);
        let mut out: Vec<Entity> = Vec::new();
        let mut i: usize = 0;
        while i < keys.len()
            invariant
                0 <= i <= keys.len(),
                out.len() == i,
                forall|j: int| 0 <= j < i ==> (#[trigger] out@[j]).index == keys@[j],
            decreases keys.len() - i,
        {
            out.push(Entity { index: keys[i] });
            i = i + 1;
        }
        proof {
            assert forall|j: int| 0 <= j < out.len() implies self@.contains_key(#[trigger] out@[j].index) by {
                assert(keys@.contains(keys@[j]));
                assert(keys@.to_set().contains(keys@[j]));
            }
            assert forall|k: u32| self@.contains_key(k) implies exists|j: int| 0 <= j < out.len() && #[trigger] out@[j].index == k by {
                assert(keys@.to_set().contains(k));
                let j = choose|j: int| 0 <= j < keys.len() && keys@[j] == k;
                assert(out@[j].index == k);
            }
            assert forall|a: int, b: int| 0 <= a < b < out.len() implies out@[a] != out@[b] by {
                assert(keys@[a] != keys@[b]);
            }
        }
        out
    }
}

impl Default for EntityPositionCache {
    fn default() -> (c: EntityPositionCache)
        ensures
            c@ == Map::<u32, (IVec2, EntityType)>::empty(),
    {
        EntityPositionCache::new()
    }
}

/// The diet class of a creature from its species markers: foxes and
/// wolves are predators, bears and raccoons omnivores, anything else a
/// herbivore.
pub open spec fn class_of(is_fox_or_wolf: bool, is_bear_or_raccoon: bool) -> EntityType {
    if is_fox_or_wolf {
        EntityType::Predator
    } else if is_bear_or_raccoon {
        EntityType::Omnivore
    } else {
        EntityType::Herbivore
    }
}

pub fn classify_entity_type(is_fox_or_wolf: bool, is_bear_or_raccoon: bool) -> (t: EntityType)
    ensures
        t == class_of(is_fox_or_wolf, is_bear_or_raccoon),
{
    if is_fox_or_wolf {
        EntityType::Predator
    } else if is_bear_or_raccoon {
        EntityType::Omnivore
    } else {
        EntityType::Herbivore
    }
}

/// A creature appeared at `pos`: it is indexed and its tile cached.
pub fn track_spawn(
    index: &mut SpatialEntityIndex,
    cache: &mut EntityPositionCache,
    entity: Entity,
    pos: IVec2,
    entity_type: EntityType,
)
    ensures
        final(index)@ == index_after_insert(old(index)@, entity, pos, entity_type),
        final(cache)@ == old(cache)@.insert(entity.index, (pos, entity_type)),
{
    index.insert(entity, pos, entity_type);
    cache.update_position(entity, pos, entity_type);
}

/// A creature now stands at `new_pos`: its entry moves from the cached
/// tile's chunk when the chunk changed, or it is indexed afresh when it
/// was not tracked; the cache records the new tile.
pub fn track_move(
    index: &mut SpatialEntityIndex,
    cache: &mut EntityPositionCache,
    entity: Entity,
    new_pos: IVec2,
    entity_type: EntityType,
)
    ensures
        final(cache)@ == old(cache)@.insert(entity.index, (new_pos, entity_type)),
        final(index)@ == if old(cache)@.contains_key(entity.index) {
            let old_pos = old(cache)@[entity.index].0;
            if chunk_of(old_pos, CHUNK_SIZE as int) == chunk_of(new_pos, CHUNK_SIZE as int) {
                old(index)@
            } else {
                index_after_insert(index_after_remove(old(index)@, entity, old_pos), entity, new_pos, entity_type)
            }
        } else {
            index_after_insert(old(index)@, entity, new_pos, entity_type)
        },
{
    match cache.get_position(entity) {
        Some((old_pos, _)) => {
            index.update(entity, old_pos, new_pos, entity_type);
            cache.update_position(entity, new_pos, entity_type);
        },
        None => {
            index.insert(entity, new_pos, entity_type);
            cache.update_position(entity, new_pos, entity_type);
        },
    }
}

/// A tracked creature is gone: its entry leaves the chunk of its cached
/// tile and the cache forgets it.
pub fn track_despawn(index: &mut SpatialEntityIndex, cache: &mut EntityPositionCache, entity: Entity)
    ensures
        final(cache)@ == old(cache)@.remove(entity.index),
        final(index)@ == if old(cache)@.contains_key(entity.index) {
            index_after_remove(old(index)@, entity, old(cache)@[entity.index].0)
        } else {
            old(index)@
        },
{
    match cache.get_position(entity) {
        Some((old_pos, _)) => {
            index.remove(entity, old_pos);
        },
        None => {},
    }
    cache.remove_entity(entity);
}

/// Creatures placed under their spatial cell per tick.
pub const REPARENT_BUDGET: usize = 50;

/// The (cell, creature) parentings for creatures at the given tiles: one
/// for each creature whose chunk has a cell, in order.
pub open spec fn cell_parentings(g: Map<IVec2, Entity>, size: int, s: Seq<(Entity, IVec2)>) -> Seq<(Entity, Entity)>
    decreases s.len(),
{
    if s.len() == 0 {
        Seq::empty()
    } else {
        let prev = cell_parentings(g, size, s.drop_last());
        let c = chunk_of(s.last().1, size);
        if g.contains_key(c) {
            prev.push((g[c], s.last().0))
        } else {
            prev
        }
    }
}

/// Which creatures, not yet under a spatial cell, go under one this tick:
/// the first `REPARENT_BUDGET` of `pending` whose chunk has a cell, each
/// paired with that cell.
pub fn plan_reparenting(grid: &SpatialCellGrid, pending: &Vec<(Entity, IVec2)>) -> (r: Vec<(Entity, Entity)>)
    requires
        grid.size_view() > 0,
    ensures
        r@ == cell_parentings(
            grid@,
            grid.size_view() as int,
            pending@.take(if pending.len() < REPARENT_BUDGET { pending.len() as int } else { REPARENT_BUDGET as int }),
        ),
{
    let n = if pending.len() < REPARENT_BUDGET { pending.len() } else { REPARENT_BUDGET };
    let mut out: Vec<(Entity, Entity)> = Vec::new();
    let mut i: usize = 0;
    while i < n
        invariant
            0 <= i <= n <= pending.len(),
            grid.size_view() > 0,
            out@ == cell_parentings(grid@, grid.size_view() as int, pending@.take(i as int)),
        decreases n - i,
    {
        let (entity, tile) = pending[i];
        proof {
            assert(pending@.take(i + 1).drop_last() == pending@.take(i as int));
            assert(pending@.take(i + 1).last() == pending@[i as int]);
        }
        let chunk = grid.chunk_coord_for_position(tile);
        match grid.get_cell(chunk) {
            Some(cell) => {
                out.push((cell, entity));
            },
            None => {},
        }
        i = i + 1;
    }
    out
}

/// The (cell, creature) moves for creatures that changed tile: a creature
/// whose parent cell is not the cell of its new chunk goes under the new
/// chunk's cell, when there is one.
pub open spec fn parent_moves(
    g: Map<IVec2, Entity>,
    size: int,
    s: Seq<(Entity, IVec2, Option<IVec2>)>,
) -> Seq<(Entity, Entity)>
    decreases s.len(),
{
    if s.len() == 0 {
        Seq::empty()
    } else {
        let prev = parent_moves(g, size, s.drop_last());
        let (e, tile, parent_chunk) = s.last();
        let c = chunk_of(tile, size);
        if parent_chunk == Some(c) || !g.contains_key(c) {
            prev
        } else {
            prev.push((g[c], e))
        }
    }
}

/// Which moved creatures change spatial cell: `moved` holds each creature,
/// its new tile and the chunk of its current parent cell (`None` when the
/// parent is not a cell).
pub fn plan_parent_updates(
    grid: &SpatialCellGrid,
    moved: &Vec<(Entity, IVec2, Option<IVec2>)>,
) -> (r: Vec<(Entity, Entity)>)
    requires
        grid.size_view() > 0,
    ensures
        r@ == parent_moves(grid@, grid.size_view() as int, moved@),
{
    let mut out: Vec<(Entity, Entity)> = Vec::new();
    let mut i: usize = 0;
    while i < moved.len()
        invariant
            0 <= i <= moved.len(),
            grid.size_view() > 0,
            out@ == parent_moves(grid@, grid.size_view() as int, moved@.take(i as int)),
        decreases moved.len() - i,
    {
        let (entity, tile, parent_chunk) = moved[i];
        proof {
            assert(moved@.take(i + 1).drop_last() == moved@.take(i as int));
            assert(moved@.take(i + 1).last() == moved@[i as int]);
        }
        let chunk = grid.chunk_coord_for_position(tile);
        let same = match parent_chunk {
            Some(pc) => pc == chunk,
            None => false,
        };
        if !same {
            match grid.get_cell(chunk) {
                Some(cell) => {
                    out.push((cell, entity));
                },
                None => {},
            }
        }
        i = i + 1;
    }
    proof {
        assert(moved@.take(moved.len() as int) == moved@);
    }
    out
}

/// The creatures under the cell of chunk `c`, when the grid has a cell
/// there; `children` holds the creatures under each cell, keyed by the
/// cell's entity index.
pub open spec fn cell_children(g: Map<IVec2, Entity>, children: Map<u32, Vec<Entity>>, c: IVec2) -> Seq<Entity> {
    if g.contains_key(c) && children.contains_key(g[c].index) {
        children[g[c].index]@
    } else {
        Seq::empty()
    }
}

/// Children of the cells `(dx, -r) .. (dx, dy_end - 1)` from `cc`, in order.
pub open spec fn children_column(
    g: Map<IVec2, Entity>,
    children: Map<u32, Vec<Entity>>,
    cc: IVec2,
    r: int,
    dx: int,
    dy_end: int,
) -> Seq<Entity>
    decreases dy_end + r,
{
    if dy_end <= -r {
        Seq::empty()
    } else {
        children_column(g, children, cc, r, dx, dy_end - 1) + cell_children(
            g,
            children,
            chunk_offset(cc, dx, dy_end - 1),
        )
    }
}

/// Children of the columns `-r .. dx_end - 1` of the square of cells of
/// radius `r` around `cc`, column by column.
pub open spec fn children_area(
    g: Map<IVec2, Entity>,
    children: Map<u32, Vec<Entity>>,
    cc: IVec2,
    r: int,
    dx_end: int,
) -> Seq<Entity>
    decreases dx_end + r,
{
    if dx_end <= -r {
        Seq::empty()
    } else {
        children_area(g, children, cc, r, dx_end - 1) + children_column(g, children, cc, r, dx_end - 1, r + 1)
    }
}

/// `radius / size` rounded up (`size > 0`).
pub open spec fn ceil_div(radius: int, size: int) -> int {
    -((-radius) / size)
}

/// What a query through the cells' children returns: the creatures under
/// the cells of the square of chunks of radius `ceil_div(radius, size)`
/// around the chunk of `center`, column by column from the lowest `x`,
/// each column from the lowest `y`.
pub open spec fn children_in_radius(
    g: Map<IVec2, Entity>,
    size: int,
    children: Map<u32, Vec<Entity>>,
    center: IVec2,
    radius: int,
) -> Seq<Entity> {
    let r = ceil_div(radius, size);
    children_area(g, children, chunk_of(center, size), r, r + 1)
}

/// The square of chunks of radius `r` around `cc` has coordinates that
/// fit in `i32`.
pub open spec fn square_fits(cc: IVec2, r: int) -> bool {
    i32::MIN <= cc.x - r && cc.x + r <= i32::MAX && i32::MIN <= cc.y - r && cc.y + r <= i32::MAX
}

/// The creatures under the cells near `center`: those of every cell in
/// the square of chunks that a radius of `radius` tiles reaches (see
/// `children_in_radius`). `children` holds the creatures under each cell,
/// keyed by the cell's entity index.
pub fn entities_in_radius_via_children(
    grid: &SpatialCellGrid,
    children: &HashMap<u32, Vec<Entity>>,
    center: IVec2,
    radius: i32,
) -> (r: Vec<Entity>)
    requires
        grid.size_view() > 0,
        square_fits(
            chunk_of(center, grid.size_view() as int),
            ceil_div(radius as int, grid.size_view() as int),
        ),
    ensures
        r@ == children_in_radius(grid@, grid.size_view() as int, children@, center, radius as int),
{
    let size = grid.chunk_size();
    let neg: i64 = -(radius as i64);
    let q: i64 = match neg.checked_div_euclid(size as i64) {
        Some(v) => v,
        None => 0,
    };
    proof {
        assert(i64::MIN <= (neg as int) / (size as int) <= i64::MAX) by (nonlinear_arith)
            requires
                size >= 1,
                -0x8000_0000 <= neg <= 0x8000_0000,
        ;
        assert(-0x8000_0000 <= (neg as int) / (size as int) <= 0x8000_0000) by (nonlinear_arith)
            requires
                size >= 1,
                -0x8000_0000 <= neg <= 0x8000_0000,
        ;
    }
    let cr: i64 = -q;
    let cc = grid.chunk_coord_for_position(center);
    let ghost g = grid@;
    let ghost ch = children@;
    let ghost rr = cr as int;
    let mut results: Vec<Entity> = Vec::new();
    let mut dx: i64 = -cr;
    while dx <= cr
        invariant
            g == grid@,
            ch == children@,
            rr == cr,
            -0x8000_0000 <= cr <= 0x8000_0000,
            square_fits(cc, rr),
            -cr <= dx,
            dx <= cr + 1 || dx == -cr,
            results@ == children_area(g, ch, cc, rr, dx as int),
        decreases cr + 1 - dx,
    {
        let mut dy: i64 = -cr;
        proof {
            assert(children_column(g, ch, cc, rr, dx as int, dy as int) == Seq::<Entity>::empty());
            assert(results@ + children_column(g, ch, cc, rr, dx as int, dy as int) =~= results@);
        }
        let ghost before = results@;
        while dy <= cr
            invariant
                g == grid@,
                ch == children@,
                rr == cr,
                -0x8000_0000 <= cr <= 0x8000_0000,
                square_fits(cc, rr),
                -cr <= dx <= cr,
                -cr <= dy <= cr + 1,
                results@ == before + children_column(g, ch, cc, rr, dx as int, dy as int),
            decreases cr + 1 - dy,
        {
            let chunk = IVec2 { x: (cc.x as i64 + dx) as i32, y: (cc.y as i64 + dy) as i32 };
            let ghost mid = results@;
            match grid.get_cell(chunk) {
                Some(cell) => {
                    match children.get(&cell.index) {
                        Some(kids) => {
                            let mut j: usize = 0;
                            while j < kids.len()
                                invariant
                                    0 <= j <= kids.len(),
                                    results@ == mid + kids@.take(j as int),
                                decreases kids.len() - j,
                            {
                                results.push(kids[j]);
                                proof {
                                    assert(kids@.take(j + 1) == kids@.take(j as int).push(kids@[j as int]));
                                }
                                j = j + 1;
                            }
                            proof {
                                assert(kids@.take(kids.len() as int) == kids@);
                            }
                        },
                        None => {},
                    }
                },
                None => {},
            }
            proof {
                assert(chunk == chunk_offset(cc, dx as int, dy as int));
                assert(results@ == mid + cell_children(g, ch, chunk));
                assert(children_column(g, ch, cc, rr, dx as int, dy + 1) == children_column(
                    g,
                    ch,
                    cc,
                    rr,
                    dx as int,
                    dy as int,
                ) + cell_children(g, ch, chunk));
                assert(results@ =~= before + children_column(g, ch, cc, rr, dx as int, dy + 1));
            }
            dy = dy + 1;
        }
        proof {
            assert(children_area(g, ch, cc, rr, dx + 1) == children_area(g, ch, cc, rr, dx as int)
                + children_column(g, ch, cc, rr, dx as int, rr + 1));
        }
        dx = dx + 1;
    }
    proof {
        if cr < -cr {
            assert(children_area(g, ch, cc, rr, rr + 1) == Seq::<Entity>::empty());
            assert(children_area(g, ch, cc, rr, dx as int) == Seq::<Entity>::empty());
        }
    }
    results
}

} // verus!
