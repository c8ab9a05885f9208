use vstd::prelude::*;
use rand::Rng;
use rand::rngs::ThreadRng;
use crate::geometry::IVec2;
use crate::pathfinding::grid::{PathfindingGrid, walkable_in};
use crate::entities::movement::MoveOrder;

verus! {

/// Random draws tried before scanning the whole square.
pub const RANDOM_TRIES: u32 = 20;

/// Ticks between two runs of the wandering behaviour.
pub const WANDER_INTERVAL: u64 = 5;

/// The thread-local random generator of the `rand` crate.
#[verifier::external_type_specification]
#[verifier::external_body]
pub struct ExThreadRng(ThreadRng);

/// `rand::thread_rng()`: a handle to the thread's random generator.
#[verifier::external_body]
pub(crate) fn fresh_rng() -> ThreadRng {
    rand::thread_rng()
}

/// `rng.gen_range(-radius..=radius)` of `rand::Rng`: a random offset in
/// `-radius ..= radius` (the crate panics on an empty range, hence
/// `radius >= 0`). Which offset comes out is left open.
#[verifier::external_body]
pub(crate) fn random_offset(rng: &mut ThreadRng, radius: i32) -> (r: i32)
    requires
        radius >= 0,
    ensures
        -radius <= r <= radius,
{
    rng.gen_range(-radius..=radius)
}

/// A creature that walks around its home tile.
#[derive(Debug, Clone, Copy, PartialEq, Eq, Structural)]
pub struct Wanderer {
    pub wander_radius: i32,
    pub home_position: IVec2,
    /// Ticks to rest between two walks.
    pub idle_ticks: u32,
    /// Ticks rested so far.
    pub ticks_idle: u32,
}

impl Wanderer {
    /// A wanderer that rests 10 ticks between walks.
    pub fn new(home_position: IVec2, wander_radius: i32) -> (w: Wanderer)
        ensures
            w == (Wanderer { wander_radius, home_position, idle_ticks: 10, ticks_idle: 0 }),
    {
        Wanderer { wander_radius, home_position, idle_ticks: 10, ticks_idle: 0 }
    }

    pub fn with_idle_time(self, ticks: u32) -> (w: Wanderer)
        ensures
            w == (Wanderer { idle_ticks: ticks, ..self }),
    {
        let mut w = self;
        w.idle_ticks = ticks;
        w
    }
}

/// Tile `p` lies in the square of radius `radius` around `center`.
pub open spec fn in_square(center: IVec2, radius: int, p: IVec2) -> bool {
    center.x - radius <= p.x <= center.x + radius && center.y - radius <= p.y <= center.y + radius
}

/// The square around `center` has a tile that can be entered.
pub open spec fn square_has_walkable(g: Map<IVec2, u32>, center: IVec2, radius: int) -> bool {
    exists|p: IVec2| #[trigger] in_square(center, radius, p) && walkable_in(g, p)
}

/// `p` is the first tile that can be entered in a scan of the square
/// column by column (increasing `x`, then increasing `y`).
pub open spec fn is_scan_first(g: Map<IVec2, u32>, center: IVec2, radius: int, p: IVec2) -> bool {
    &&& in_square(center, radius, p)
    &&& walkable_in(g, p)
    &&& forall|q: IVec2|
        #[trigger] in_square(center, radius, q) && (q.x < p.x || (q.x == p.x && q.y < p.y)) ==> !walkable_in(g, q)
}

/// The first tile that can be entered in a column-by-column scan of the
/// square, if there is one.
pub open spec fn scan_first(g: Map<IVec2, u32>, center: IVec2, radius: int) -> Option<IVec2> {
    if square_has_walkable(g, center, radius) {
        Some(choose|p: IVec2| is_scan_first(g, center, radius, p))
    } else {
        None
    }
}

/// The tile that the draws `draws` give in the square of radius `radius`
/// around `center`: the first drawn tile that can be entered, else the
/// first such tile of a column-by-column scan.
pub open spec fn draws_then_scan(g: Map<IVec2, u32>, center: IVec2, radius: int, draws: Seq<(i32, i32)>) -> Option<IVec2> {
    match first_walkable(g, center, draws, 0) {
        Some(p) => Some(p),
        None => scan_first(g, center, radius),
    }
}

/// At most one tile comes first in the scan.
proof fn lemma_scan_first_unique(g: Map<IVec2, u32>, center: IVec2, radius: int, p: IVec2, q: IVec2)
    requires
        is_scan_first(g, center, radius, p),
        is_scan_first(g, center, radius, q),
    ensures
        p == q,
{
    assert(in_square(center, radius, q));
    assert(in_square(center, radius, p));
}

/// Scans the square column by column for a tile that can be entered.
fn scan_square(center: IVec2, radius: i32, grid: &PathfindingGrid) -> (r: Option<IVec2>)
    requires
        radius >= 0,
        i32::MIN <= center.x - radius,
        center.x + radius <= i32::MAX,
        i32::MIN <= center.y - radius,
        center.y + radius <= i32::MAX,
    ensures
        r == scan_first(grid@, center, radius as int),
        r matches Some(p) ==> is_scan_first(grid@, center, radius as int, p),
{
    let mut dx: i64 = -(radius as i64);
    while dx <= radius as i64
        invariant
            radius >= 0,
            -radius <= dx <= radius + 1,
            i32::MIN <= center.x - radius,
            center.x + radius <= i32::MAX,
            i32::MIN <= center.y - radius,
            center.y + radius <= i32::MAX,
            forall|p: IVec2|
                #[trigger] in_square(center, radius as int, p) && p.x < center.x + dx ==> !walkable_in(grid@, p),
        decreases radius + 1 - dx,
    {
        let mut dy: i64 = -(radius as i64);
        while dy <= radius as i64
            invariant
                radius >= 0,
                -radius <= dx <= radius,
                -radius <= dy <= radius + 1,
                i32::MIN <= center.x - radius,
                center.x + radius <= i32::MAX,
                i32::MIN <= center.y - radius,
                center.y + radius <= i32::MAX,
                forall|p: IVec2|
                    #[trigger] in_square(center, radius as int, p) && (p.x < center.x + dx || (p.x == center.x + dx
                        && p.y < center.y + dy)) ==> !walkable_in(grid@, p),
            decreases radius + 1 - dy,
        {
            let candidate = IVec2 { x: (center.x as i64 + dx) as i32, y: (center.y as i64 + dy) as i32 };
            if grid.is_walkable(candidate) {
                proof {
                    assert(in_square(center, radius as int, candidate));
                    assert(is_scan_first(grid@, center, radius as int, candidate));
                    assert(square_has_walkable(grid@, center, radius as int));
                    let c = choose|p: IVec2| is_scan_first(grid@, center, radius as int, p);
                    lemma_scan_first_unique(grid@, center, radius as int, c, candidate);
                }
                return Some(candidate);
            }
            dy = dy + 1;
        }
        dx = dx + 1;
    }
    proof {
        assert(!square_has_walkable(grid@, center, radius as int));
    }
    None
}

/// The tile that the drawn offsets `draws` give (see `draws_then_scan`):
/// the first drawn tile that can be entered, else the first such tile of
/// a column-by-column scan of the square.
pub fn walkable_from_draws(center: IVec2, radius: i32, grid: &PathfindingGrid, draws: &Vec<(i32, i32)>) -> (r: Option<IVec2>)
    requires
        radius >= 0,
        i32::MIN <= center.x - radius,
        center.x + radius <= i32::MAX,
        i32::MIN <= center.y - radius,
        center.y + radius <= i32::MAX,
        offsets_within(draws@, radius as int),
    ensures
        r == draws_then_scan(grid@, center, radius as int, draws@),
        r is None <==> !square_has_walkable(grid@, center, radius as int),
        r matches Some(p) ==> in_square(center, radius as int, p) && walkable_in(grid@, p),
{
    proof {
        lemma_first_walkable(grid@, center, draws@, 0);
    }
    match walkable_from_offsets(center, grid, draws) {
        Some(p) => {
            proof {
                let k = choose|i: int|
                    0 <= i < draws@.len() && p == (IVec2 {
                        x: (center.x + (#[trigger] draws@[i]).0) as i32,
                        y: (center.y + draws@[i].1) as i32,
                    });
                assert(in_square(center, radius as int, p));
            }
            Some(p)
        },
        None => scan_square(center, radius, grid),
    }
}

/// A tile that can be entered in the square of radius `radius` around
/// `center`: `RANDOM_TRIES` random offsets are drawn and the first drawn
/// tile that can be entered is taken, else the square is scanned column
/// by column. Which tiles are drawn is left to chance: the result is what
/// some `RANDOM_TRIES` draws in the square give, and `None` exactly when
/// the square has no tile that can be entered.
pub fn pick_random_walkable_tile(
    center: IVec2,
    radius: i32,
    grid: &PathfindingGrid,
    rng: &mut ThreadRng,
) -> (r: Option<IVec2>)
    requires
        radius >= 0,
        i32::MIN <= center.x - radius,
        center.x + radius <= i32::MAX,
        i32::MIN <= center.y - radius,
        center.y + radius <= i32::MAX,
    ensures
        exists|draws: Seq<(i32, i32)>|
            draws.len() == RANDOM_TRIES && offsets_within(draws, radius as int) && r == #[trigger] draws_then_scan(
                grid@,
                center,
                radius as int,
                draws,
            ),
        r is None <==> !square_has_walkable(grid@, center, radius as int),
        r matches Some(p) ==> in_square(center, radius as int, p) && walkable_in(grid@, p),
{
    let mut draws: Vec<(i32, i32)> = Vec::new();
    let mut attempt: u32 = 0;
    while attempt < RANDOM_TRIES
        invariant
            radius >= 0,
            draws.len() == attempt,
            attempt <= RANDOM_TRIES,
            offsets_within(draws@, radius as int),
        decreases RANDOM_TRIES - attempt,
    {
        let offset_x = random_offset(rng, radius);
        let offset_y = random_offset(rng, radius);
        draws.push((offset_x, offset_y));
        attempt = attempt + 1;
    }
    let r = walkable_from_draws(center, radius, grid, &draws);
    proof {
        assert(draws@.len() == RANDOM_TRIES);
    }
    r
}

/// The tile that some `RANDOM_TRIES` draws within `radius` give to
/// `pick_random_walkable_tile` (see `draws_then_scan`): `o` is one of its
/// possible results.
pub open spec fn pick_possible(g: Map<IVec2, u32>, center: IVec2, radius: int, o: Option<IVec2>) -> bool {
    exists|draws: Seq<(i32, i32)>|
        draws.len() == RANDOM_TRIES && offsets_within(draws, radius) && o == #[trigger] draws_then_scan(
            g,
            center,
            radius,
            draws,
        )
}

/// The order a wanderer at `position` gives itself once it picked `pick`:
/// walk there, without diagonal steps, unless it stands there already.
pub open spec fn wander_order(pick: Option<IVec2>, position: IVec2) -> Option<MoveOrder> {
    match pick {
        Some(d) => if d != position {
            Some(MoveOrder { destination: d, allow_diagonal: false })
        } else {
            None
        },
        None => None,
    }
}

/// Whether the wandering behaviour runs at this tick.
pub fn wander_tick_due(tick: u64) -> (b: bool)
    ensures
        b == (tick % WANDER_INTERVAL == 0),
{
    tick % WANDER_INTERVAL == 0
}

/// One run of the wandering behaviour for a creature at `position`: it
/// rests `WANDER_INTERVAL` more ticks; once it has rested `idle_ticks` it
/// starts resting anew and picks a tile near home, and walks there unless
/// it already stands on it (or none was found). So once the rest is over,
/// an order comes whenever the home square has a tile that can be entered
/// and the creature does not stand on one of them.
pub fn wanderer_step(
    wanderer: &mut Wanderer,
    position: IVec2,
    grid: &PathfindingGrid,
    rng: &mut ThreadRng,
) -> (order: Option<MoveOrder>)
    requires
        old(wanderer).ticks_idle <= u32::MAX - WANDER_INTERVAL,
        old(wanderer).ticks_idle + WANDER_INTERVAL >= old(wanderer).idle_ticks ==> {
            &&& old(wanderer).wander_radius >= 0
            &&& i32::MIN <= old(wanderer).home_position.x - old(wanderer).wander_radius
            &&& old(wanderer).home_position.x + old(wanderer).wander_radius <= i32::MAX
            &&& i32::MIN <= old(wanderer).home_position.y - old(wanderer).wander_radius
            &&& old(wanderer).home_position.y + old(wanderer).wander_radius <= i32::MAX
        },
    ensures
        final(wanderer).wander_radius == old(wanderer).wander_radius,
        final(wanderer).home_position == old(wanderer).home_position,
        final(wanderer).idle_ticks == old(wanderer).idle_ticks,
        old(wanderer).ticks_idle + WANDER_INTERVAL < old(wanderer).idle_ticks ==> {
            &&& final(wanderer).ticks_idle == old(wanderer).ticks_idle + WANDER_INTERVAL
            &&& order is None
        },
        old(wanderer).ticks_idle + WANDER_INTERVAL >= old(wanderer).idle_ticks ==> {
            &&& final(wanderer).ticks_idle == 0
            &&& (!square_has_walkable(grid@, old(wanderer).home_position, old(wanderer).wander_radius as int)
                ==> order is None)
            &&& (order is None ==> !square_has_walkable(
                grid@,
                old(wanderer).home_position,
                old(wanderer).wander_radius as int,
            ) || (in_square(old(wanderer).home_position, old(wanderer).wander_radius as int, position)
                && walkable_in(grid@, position)))
            &&& exists|pick: Option<IVec2>|
                #[trigger] pick_possible(grid@, old(wanderer).home_position, old(wanderer).wander_radius as int, pick)
                    && order == wander_order(pick, position)
        },
        order matches Some(o) ==> {
            &&& !o.allow_diagonal
            &&& o.destination != position
            &&& in_square(old(wanderer).home_position, old(wanderer).wander_radius as int, o.destination)
            &&& walkable_in(grid@, o.destination)
        },
{
    wanderer.ticks_idle = wanderer.ticks_idle + 5;
    if wanderer.ticks_idle < wanderer.idle_ticks {
        return None;
    }
    wanderer.ticks_idle = 0;
    let pick = pick_random_walkable_tile(wanderer.home_position, wanderer.wander_radius, grid, rng);
    proof {
        assert(pick_possible(grid@, wanderer.home_position, wanderer.wander_radius as int, pick));
    }
    match pick {
        Some(dest) => {
            if dest != position {
                Some(MoveOrder { destination: dest, allow_diagonal: false })
            } else {
                None
            }
        },
        None => None,
    }
}

/// The tiles among the outcomes `outs`, in order.
pub open spec fn somes(outs: Seq<Option<IVec2>>) -> Seq<IVec2>
    decreases outs.len(),
{
    if outs.len() == 0 {
        Seq::empty()
    } else {
        match outs.last() {
            Some(t) => somes(outs.drop_last()).push(t),
            None => somes(outs.drop_last()),
        }
    }
}

/// Every outcome of `outs` is a possible result of
/// `pick_random_walkable_tile` around `center`.
pub open spec fn picks_possible(g: Map<IVec2, u32>, center: IVec2, radius: int, outs: Seq<Option<IVec2>>) -> bool {
    forall|i: int| 0 <= i < outs.len() ==> #[trigger] pick_possible(g, center, radius, outs[i])
}

/// Spawn tiles for `count` wanderers around `center`: one tile that can be
/// entered per wanderer for which one was found, in order. The tiles are
/// those of `count` picks (`pick_random_walkable_tile`), each a possible
/// result of its draws.
pub fn wandering_spawn_tiles(count: usize, center: IVec2, spawn_radius: i32, grid: &PathfindingGrid) -> (r: Vec<IVec2>)
    requires
        spawn_radius >= 0,
        i32::MIN <= center.x - spawn_radius,
        center.x + spawn_radius <= i32::MAX,
        i32::MIN <= center.y - spawn_radius,
        center.y + spawn_radius <= i32::MAX,
    ensures
        r.len() <= count,
        square_has_walkable(grid@, center, spawn_radius as int) ==> r.len() == count,
        !square_has_walkable(grid@, center, spawn_radius as int) ==> r.len() == 0,
        forall|i: int| 0 <= i < r.len() ==> in_square(center, spawn_radius as int, #[trigger] r@[i]) && walkable_in(grid@, r@[i]),
        exists|outs: Seq<Option<IVec2>>|
            outs.len() == count && picks_possible(grid@, center, spawn_radius as int, outs) && r@
                == #[trigger] somes(outs),
{
    let mut rng = fresh_rng();
    let mut out: Vec<IVec2> = Vec::new();
    let ghost mut outs: Seq<Option<IVec2>> = Seq::empty();
    let mut i: usize = 0;
    while i < count
        invariant
            0 <= i <= count,
            spawn_radius >= 0,
            i32::MIN <= center.x - spawn_radius,
            center.x + spawn_radius <= i32::MAX,
            i32::MIN <= center.y - spawn_radius,
            center.y + spawn_radius <= i32::MAX,
            square_has_walkable(grid@, center, spawn_radius as int) ==> out.len() == i,
            !square_has_walkable(grid@, center, spawn_radius as int) ==> out.len() == 0,
            out.len() <= i,
            forall|j: int| 0 <= j < out.len() ==> in_square(center, spawn_radius as int, #[trigger] out@[j]) && walkable_in(grid@, out@[j]),
            outs.len() == i,
            picks_possible(grid@, center, spawn_radius as int, outs),
            out@ == somes(outs),
        decreases count - i,
    {
        let pick = pick_random_walkable_tile(center, spawn_radius, grid, &mut rng);
        proof {
            assert(pick_possible(grid@, center, spawn_radius as int, pick));
            let prev = outs;
            outs = outs.push(pick);
            assert(outs.drop_last() =~= prev);
            assert forall|j: int| 0 <= j < outs.len() implies #[trigger] pick_possible(
                grid@,
                center,
                spawn_radius as int,
                outs[j],
            ) by {
                if j < prev.len() {
                    assert(outs[j] == prev[j]);
                }
            }
        }
        match pick {
            Some(p) => {
                out.push(p);
            },
            None => {},
        }
        i = i + 1;
    }
    out
}

/// The first tile that can be entered among those that the offsets, from
/// index `k` on, lead to from `center`.
pub open spec fn first_walkable(g: Map<IVec2, u32>, center: IVec2, offsets: Seq<(i32, i32)>, k: int) -> Option<IVec2>
    decreases offsets.len() - k,
{
    if k < 0 || k >= offsets.len() {
        None
    } else if walkable_in(g, IVec2 { x: (center.x + offsets[k].0) as i32, y: (center.y + offsets[k].1) as i32 }) {
        Some(IVec2 { x: (center.x + offsets[k].0) as i32, y: (center.y + offsets[k].1) as i32 })
    } else {
        first_walkable(g, center, offsets, k + 1)
    }
}

proof fn lemma_first_walkable(g: Map<IVec2, u32>, center: IVec2, offsets: Seq<(i32, i32)>, k: int)
    ensures
        first_walkable(g, center, offsets, k) matches Some(p) ==> walkable_in(g, p) && exists|i: int|
            k <= i < offsets.len() && p == (IVec2 {
                x: (center.x + (#[trigger] offsets[i]).0) as i32,
                y: (center.y + offsets[i].1) as i32,
            }),
    decreases offsets.len() - k,
{
    if 0 <= k < offsets.len() {
        lemma_first_walkable(g, center, offsets, k + 1);
    }
}

/// The first tile that can be entered among those that the drawn offsets
/// lead to from `center`, in order.
pub fn walkable_from_offsets(center: IVec2, grid: &PathfindingGrid, offsets: &Vec<(i32, i32)>) -> (r: Option<IVec2>)
    requires
        forall|i: int|
            0 <= i < offsets.len() ==> i32::MIN <= center.x + (#[trigger] offsets@[i]).0 <= i32::MAX
                && i32::MIN <= center.y + offsets@[i].1 <= i32::MAX,
    ensures
        r == first_walkable(grid@, center, offsets@, 0),
{
    let mut i: usize = 0;
    while i < offsets.len()
        invariant
            0 <= i <= offsets.len(),
            forall|j: int|
                0 <= j < offsets.len() ==> i32::MIN <= center.x + (#[trigger] offsets@[j]).0 <= i32::MAX
                    && i32::MIN <= center.y + offsets@[j].1 <= i32::MAX,
            first_walkable(grid@, center, offsets@, 0) == first_walkable(grid@, center, offsets@, i as int),
        decreases offsets.len() - i,
    {
        let (dx, dy) = offsets[i];
        let candidate = IVec2 { x: center.x + dx, y: center.y + dy };
        if grid.is_walkable(candidate) {
            return Some(candidate);
        }
        i = i + 1;
    }
    None
}

/// Every offset of `offs` moves at most `radius` on each axis.
pub open spec fn offsets_within(offs: Seq<(i32, i32)>, radius: int) -> bool {
    forall|k: int|
        0 <= k < offs.len() ==> -radius <= (#[trigger] offs[k]).0 <= radius && -radius <= offs[k].1 <= radius
}

/// Up to `attempts` random tiles of the square of radius `radius` around
/// `center` are tried, and the first that can be entered is taken. Which
/// tiles are tried is left to chance: the result is what some `attempts`
/// draws of offsets in the square give; so a tile that comes back is such
/// a tile of the square, none comes back when no attempt is allowed or the
/// square has no tile that can be entered, and one always comes back when
/// an attempt is allowed and every tile of the square can be entered.
pub fn random_walkable_near(
    center: IVec2,
    radius: i32,
    attempts: usize,
    grid: &PathfindingGrid,
    rng: &mut ThreadRng,
) -> (r: Option<IVec2>)
    requires
        attempts > 0 ==> radius >= 0,
        attempts > 0 ==> i32::MIN <= center.x - radius && center.x + radius <= i32::MAX && i32::MIN
            <= center.y - radius && center.y + radius <= i32::MAX,
    ensures
        exists|offs: Seq<(i32, i32)>|
            offs.len() == attempts && offsets_within(offs, radius as int) && r == #[trigger] first_walkable(
                grid@,
                center,
                offs,
                0,
            ),
        r matches Some(p) ==> in_square(center, radius as int, p) && walkable_in(grid@, p),
        attempts == 0 ==> r is None,
        attempts > 0 && (forall|p: IVec2| #[trigger] in_square(center, radius as int, p) ==> walkable_in(grid@, p))
            ==> r is Some,
{
    let mut offsets: Vec<(i32, i32)> = Vec::new();
    let mut i: usize = 0;
    while i < attempts
        invariant
            0 <= i <= attempts,
            offsets.len() == i,
            attempts > 0 ==> radius >= 0,
            forall|k: int|
                0 <= k < offsets.len() ==> -radius <= (#[trigger] offsets@[k]).0 <= radius && -radius
                    <= offsets@[k].1 <= radius,
        decreases attempts - i,
    {
        let dx = random_offset(rng, radius);
        let dy = random_offset(rng, radius);
        offsets.push((dx, dy));
        i = i + 1;
    }
    let r = walkable_from_offsets(center, grid, &offsets);
    proof {
        lemma_first_walkable(grid@, center, offsets@, 0);
        assert(offsets_within(offsets@, radius as int));
        if attempts > 0 && (forall|p: IVec2| #[trigger] in_square(center, radius as int, p) ==> walkable_in(grid@, p)) {
            let o = offsets@[0];
            let p0 = IVec2 { x: (center.x + o.0) as i32, y: (center.y + o.1) as i32 };
            assert(in_square(center, radius as int, p0));
        }
    }
    r
}

} // verus!
