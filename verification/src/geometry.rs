use vstd::prelude::*;

verus! {

/// A tile coordinate on the simulation grid.
#[derive(Clone, Copy, PartialEq, Eq, Debug, Structural)]
pub struct IVec2 {
    pub x: i32,
    pub y: i32,
}

impl IVec2 {
    /// The origin tile.
    pub fn zero() -> (r: IVec2)
        ensures
            r.x == 0,
            r.y == 0,
    {
        IVec2 { x: 0, y: 0 }
    }

    pub fn new(x: i32, y: i32) -> (r: IVec2)
        ensures
            r.x == x,
            r.y == y,
    {
        IVec2 { x, y }
    }
}

/// Identity of a simulated entity (its index in the world).
#[derive(Clone, Copy, PartialEq, Eq, Debug, Structural)]
pub struct Entity {
    pub index: u32,
}

impl Entity {
    /// An entity id that refers to no live entity.
    pub fn placeholder() -> (e: Entity)
        ensures
            e.index == u32::MAX,
    {
        Entity { index: u32::MAX }
    }

    pub fn from_raw(index: u32) -> (e: Entity)
        ensures
            e.index == index,
    {
        Entity { index }
    }

    pub fn index(&self) -> (i: u32)
        ensures
            i == self.index,
    {
        self.index
    }
}

/// Offset that moves an `i32` into the range of `u32`.
pub open spec fn shift(v: i32) -> int {
    v + 2147483648
}

/// The integer key under which a tile is stored in hash maps.
pub open spec fn pos_key(p: IVec2) -> u64 {
    (shift(p.x) * 4294967296 + shift(p.y)) as u64
}

/// The integer key under which an ordered pair of tiles is stored.
pub open spec fn pair_key(a: IVec2, b: IVec2) -> u128 {
    (pos_key(a) * 18446744073709551616 + pos_key(b)) as u128
}

/// The integer key of an entity.
pub open spec fn entity_key(e: Entity) -> u64 {
    e.index as u64
}

pub proof fn lemma_pos_key_bounds(p: IVec2)
    ensures
        0 <= shift(p.x) * 4294967296 + shift(p.y) <= u64::MAX,
        pos_key(p) == shift(p.x) * 4294967296 + shift(p.y),
{
    assert(0 <= shift(p.x) * 4294967296 + shift(p.y) <= u64::MAX) by (nonlinear_arith)
        requires
            0 <= shift(p.x) < 4294967296,
            0 <= shift(p.y) < 4294967296,
    ;
}

/// Distinct tiles have distinct keys.
pub proof fn lemma_pos_key_injective(a: IVec2, b: IVec2)
    ensures
        pos_key(a) == pos_key(b) <==> a == b,
{
    lemma_pos_key_bounds(a);
    lemma_pos_key_bounds(b);
    if pos_key(a) == pos_key(b) {
        let xa = shift(a.x);
        let xb = shift(b.x);
        let ya = shift(a.y);
        let yb = shift(b.y);
        assert(xa == xb && ya == yb) by (nonlinear_arith)
            requires
                xa * 4294967296 + ya == xb * 4294967296 + yb,
                0 <= ya < 4294967296,
                0 <= yb < 4294967296,
                0 <= xa,
                0 <= xb,
        ;
    }
}

/// Distinct pairs of tiles have distinct keys.
pub proof fn lemma_pair_key_injective(a: IVec2, b: IVec2, c: IVec2, d: IVec2)
    ensures
        pair_key(a, b) == pair_key(c, d) <==> (a == c && b == d),
{
    lemma_pos_key_injective(a, c);
    lemma_pos_key_injective(b, d);
    let ka = pos_key(a) as int;
    let kb = pos_key(b) as int;
    let kc = pos_key(c) as int;
    let kd = pos_key(d) as int;
    assert(0 <= ka * 18446744073709551616 + kb <= u128::MAX) by (nonlinear_arith)
        requires
            0 <= ka < 18446744073709551616,
            0 <= kb < 18446744073709551616,
    ;
    assert(0 <= kc * 18446744073709551616 + kd <= u128::MAX) by (nonlinear_arith)
        requires
            0 <= kc < 18446744073709551616,
            0 <= kd < 18446744073709551616,
    ;
    if pair_key(a, b) == pair_key(c, d) {
        assert(ka == kc && kb == kd) by (nonlinear_arith)
            requires
                ka * 18446744073709551616 + kb == kc * 18446744073709551616 + kd,
                0 <= kb < 18446744073709551616,
                0 <= kd < 18446744073709551616,
                0 <= ka,
                0 <= kc,
        ;
    }
}

/// The tile whose key is `k` (every `u64` is the key of one tile).
pub open spec fn unkey(k: u64) -> IVec2 {
    IVec2 { x: (k / 4294967296 - 2147483648) as i32, y: (k % 4294967296 - 2147483648) as i32 }
}

/// Keys and tiles correspond one to one.
pub proof fn lemma_unkey(k: u64, p: IVec2)
    ensures
        pos_key(unkey(k)) == k,
        unkey(pos_key(p)) == p,
{
    let hi = k / 4294967296;
    let lo = k % 4294967296;
    assert(k == hi * 4294967296 + lo && 0 <= lo < 4294967296 && 0 <= hi < 4294967296) by (nonlinear_arith)
        requires
            hi == k / 4294967296,
            lo == k % 4294967296,
            0 <= k <= 18446744073709551615,
    ;
    let q = unkey(k);
    assert(shift(q.x) == hi && shift(q.y) == lo);
    lemma_pos_key_bounds(q);
    lemma_pos_key_bounds(p);
    let sx = shift(p.x);
    let sy = shift(p.y);
    let kp = pos_key(p);
    assert(kp / 4294967296 == sx && kp % 4294967296 == sy) by (nonlinear_arith)
        requires
            kp == sx * 4294967296 + sy,
            0 <= sy < 4294967296,
            0 <= sx,
    ;
}

/// Computes the hash-map key of a tile.
pub fn key_of(p: IVec2) -> (k: u64)
    ensures
        k == pos_key(p),
{
    proof {
        lemma_pos_key_bounds(p);
    }
    let hi: u64 = (p.x as i64 + 2147483648i64) as u64;
    let lo: u64 = (p.y as i64 + 2147483648i64) as u64;
    assert(hi * 4294967296 + lo <= u64::MAX) by (nonlinear_arith)
        requires
            hi < 4294967296,
            lo < 4294967296,
    ;
    hi * 4294967296 + lo
}

/// Computes the hash-map key of an ordered pair of tiles.
pub fn pair_key_of(a: IVec2, b: IVec2) -> (k: u128)
    ensures
        k == pair_key(a, b),
{
    let ka = key_of(a) as u128;
    let kb = key_of(b) as u128;
    assert(ka * 18446744073709551616 + kb <= u128::MAX) by (nonlinear_arith)
        requires
            ka < 18446744073709551616,
            kb < 18446744073709551616,
    ;
    ka * 18446744073709551616u128 + kb
}

/// Computes the hash-map key of an entity.
pub fn entity_key_of(e: Entity) -> (k: u64)
    ensures
        k == entity_key(e),
{
    e.index as u64
}

/// Absolute value of an integer.
pub open spec fn abs(v: int) -> int {
    if v < 0 { -v } else { v }
}

/// Manhattan (taxicab) distance between two tiles.
pub open spec fn manhattan(a: IVec2, b: IVec2) -> int {
    abs(a.x - b.x) + abs(a.y - b.y)
}

/// Euclidean-distance-squared between two tiles.
pub open spec fn dist2(a: IVec2, b: IVec2) -> int {
    (a.x - b.x) * (a.x - b.x) + (a.y - b.y) * (a.y - b.y)
}

} // verus!
