use vstd::prelude::*;
use std::collections::HashMap;
use vstd::string::StringExecFns;
use crate::entities::spawn_config::{append_decimal, decimal};
use crate::geometry::{Entity, IVec2, dist2};
use crate::entities::spatial::{
    SpatialCellGrid, ceil_div, chunk_of, children_in_radius, entities_in_radius_via_children,
    square_fits,
};

verus! {

/// Sex of a creature.
#[derive(Debug, Clone, Copy, PartialEq, Eq, Structural)]
pub enum Sex {
    Male,
    Female,
}

impl Default for Sex {
    fn default() -> (s: Sex)
        ensures
            s == Sex::Male,
    {
        Sex::Male
    }
}

/// Age of a creature in ticks, and the age at which it matures.
#[derive(Debug, Clone, Copy, PartialEq, Eq, Structural)]
pub struct Age {
    pub ticks_alive: u64,
    pub mature_at_ticks: u32,
}

impl Default for Age {
    fn default() -> (a: Age)
        ensures
            a.ticks_alive == 0,
            a.mature_at_ticks == 0,
    {
        Age { ticks_alive: 0, mature_at_ticks: 0 }
    }
}

impl Age {
    pub fn is_adult(&self) -> (b: bool)
        ensures
            b == (self.ticks_alive >= self.mature_at_ticks),
    {
        self.ticks_alive >= self.mature_at_ticks as u64
    }

    /// One more tick of life (saturating).
    pub fn grow(&mut self)
        ensures
            final(self).ticks_alive == if old(self).ticks_alive == u64::MAX {
                u64::MAX
            } else {
                (old(self).ticks_alive + 1) as u64
            },
            final(self).mature_at_ticks == old(self).mature_at_ticks,
    {
        self.ticks_alive = self.ticks_alive.saturating_add(1);
    }
}

/// Ticks before a creature may mate again.
#[derive(Debug, Clone, Copy, PartialEq, Eq, Structural)]
pub struct ReproductionCooldown {
    pub remaining_ticks: u32,
}

impl Default for ReproductionCooldown {
    fn default() -> (c: ReproductionCooldown)
        ensures
            c.remaining_ticks == 0,
    {
        ReproductionCooldown { remaining_ticks: 0 }
    }
}

impl ReproductionCooldown {
    /// One tick passes: the cooldown goes down by one, stopping at zero.
    pub fn tick(&mut self)
        ensures
            final(self).remaining_ticks == if old(self).remaining_ticks > 0 {
                (old(self).remaining_ticks - 1) as u32
            } else {
                0
            },
    {
        if self.remaining_ticks > 0 {
            self.remaining_ticks = self.remaining_ticks - 1;
        }
    }
}

/// A pregnancy in progress.
#[derive(Debug, Clone, Copy, PartialEq, Eq, Structural)]
pub struct Pregnancy {
    pub remaining_ticks: u32,
    pub litter_size: u8,
    pub father: Option<Entity>,
}

impl Pregnancy {
    /// One tick passes: the time left goes down by one, stopping at zero.
    pub fn tick(&mut self)
        ensures
            final(self).remaining_ticks == if old(self).remaining_ticks > 0 {
                (old(self).remaining_ticks - 1) as u32
            } else {
                0
            },
            final(self).litter_size == old(self).litter_size,
            final(self).father == old(self).father,
    {
        if self.remaining_ticks > 0 {
            self.remaining_ticks = self.remaining_ticks - 1;
        }
    }

    /// Whether the litter is due.
    pub fn is_due(&self) -> (b: bool)
        ensures
            b == (self.remaining_ticks == 0),
    {
        self.remaining_ticks == 0
    }
}

/// The mother of a newborn.
#[derive(Debug, Clone, Copy, PartialEq, Eq, Structural)]
pub struct Mother(pub Entity);

/// Consecutive ticks a creature has stayed fed and watered.
#[derive(Debug, Clone, Copy, PartialEq, Eq, Structural)]
pub struct WellFedStreak {
    pub ticks: u32,
}

impl Default for WellFedStreak {
    fn default() -> (w: WellFedStreak)
        ensures
            w.ticks == 0,
    {
        WellFedStreak { ticks: 0 }
    }
}

impl WellFedStreak {
    /// One more well-fed tick (saturating).
    pub fn extend(&mut self)
        ensures
            final(self).ticks == if old(self).ticks == u32::MAX {
                u32::MAX
            } else {
                (old(self).ticks + 1) as u32
            },
    {
        self.ticks = self.ticks.saturating_add(1);
    }
}

/// A pairing decided earlier: the partner, where to meet and for how long.
#[derive(Debug, Clone, Copy, PartialEq, Eq, Structural)]
pub struct MatingIntent {
    pub partner: Entity,
    pub meeting_tile: IVec2,
    pub duration_ticks: u32,
}

/// Whether a creature may mate: adult, off cooldown, fed long enough, and
/// (`condition_ok`) with enough energy and health.
pub open spec fn eligible_spec(
    age: Age,
    cooldown: ReproductionCooldown,
    wellfed: WellFedStreak,
    well_fed_required_ticks: u32,
    condition_ok: bool,
) -> bool {
    age.ticks_alive >= age.mature_at_ticks && cooldown.remaining_ticks == 0 && condition_ok
        && wellfed.ticks >= well_fed_required_ticks
}

pub fn is_eligible(
    age: &Age,
    cooldown: &ReproductionCooldown,
    wellfed: &WellFedStreak,
    well_fed_required_ticks: u32,
    condition_ok: bool,
) -> (b: bool)
    ensures
        b == eligible_spec(*age, *cooldown, *wellfed, well_fed_required_ticks, condition_ok),
{
    age.is_adult() && cooldown.remaining_ticks == 0 && condition_ok && wellfed.ticks
        >= well_fed_required_ticks
}

} // verus!

verus! {

/// What mate matching needs to know of one creature of a species.
#[derive(Debug, Clone, Copy, PartialEq, Eq, Structural)]
pub struct MateCandidate {
    pub entity: Entity,
    pub tile: IVec2,
    pub sex: Option<Sex>,
    /// Pregnant, or already paired with a mate.
    pub busy: bool,
    /// `is_eligible` held for it.
    pub eligible: bool,
    pub mating_search_radius: i32,
    pub matching_interval_ticks: u32,
    /// How long this creature mates, from its species' configuration.
    pub mating_duration_ticks: u32,
}

/// A pair formed by mate matching: they meet on the female's tile, each
/// for its own mating duration.
#[derive(Debug, Clone, Copy, PartialEq, Eq, Structural)]
pub struct MatingPair {
    pub female: Entity,
    pub male: Entity,
    pub meeting_tile: IVec2,
    pub female_duration_ticks: u32,
    pub male_duration_ticks: u32,
}

impl MatingPair {
    /// The intents a pair gives its partners: the female's names the male,
    /// the male's names the female, both the meeting tile, each with its
    /// own mating duration.
    pub fn intents(&self) -> (r: (MatingIntent, MatingIntent))
        ensures
            r.0 == (MatingIntent {
                partner: self.male,
                meeting_tile: self.meeting_tile,
                duration_ticks: self.female_duration_ticks,
            }),
            r.1 == (MatingIntent {
                partner: self.female,
                meeting_tile: self.meeting_tile,
                duration_ticks: self.male_duration_ticks,
            }),
    {
        (
            MatingIntent { partner: self.male, meeting_tile: self.meeting_tile, duration_ticks: self.female_duration_ticks },
            MatingIntent { partner: self.female, meeting_tile: self.meeting_tile, duration_ticks: self.male_duration_ticks },
        )
    }
}

/// The creature is of `sex`, free and eligible to mate.
pub open spec fn seeks_mate(c: MateCandidate, sex: Sex) -> bool {
    c.sex == Some(sex) && !c.busy && c.eligible
}

/// The creatures of `s` that seek a mate of sex `sex`, in order.
pub open spec fn seekers(s: Seq<MateCandidate>, sex: Sex) -> Seq<MateCandidate>
    decreases s.len(),
{
    if s.len() == 0 {
        Seq::empty()
    } else if seeks_mate(s.last(), sex) {
        seekers(s.drop_last(), sex).push(s.last())
    } else {
        seekers(s.drop_last(), sex)
    }
}

/// The male is within the female's search radius.
pub open spec fn in_reach(f: MateCandidate, m: MateCandidate) -> bool {
    dist2(f.tile, m.tile) <= f.mating_search_radius * f.mating_search_radius
}

/// The male at index `j` is free (not in `used`) and in reach of `f`.
pub open spec fn available(f: MateCandidate, ms: Seq<MateCandidate>, used: Set<u32>, j: int) -> bool {
    0 <= j < ms.len() && !used.contains(ms[j].entity.index) && in_reach(f, ms[j])
}

/// The male at index `j` is the nearest available one to `f`, the first
/// in order among equally near ones.
pub open spec fn is_best_male(f: MateCandidate, ms: Seq<MateCandidate>, used: Set<u32>, j: int) -> bool {
    &&& available(f, ms, used, j)
    &&& forall|k: int|
        #[trigger] available(f, ms, used, k) ==> dist2(f.tile, ms[j].tile) <= dist2(f.tile, ms[k].tile)
            && (k < j ==> dist2(f.tile, ms[j].tile) < dist2(f.tile, ms[k].tile))
}

/// Some male is available to `f`.
pub open spec fn has_available(f: MateCandidate, ms: Seq<MateCandidate>, used: Set<u32>) -> bool {
    exists|k: int| #[trigger] available(f, ms, used, k)
}

/// Greedy matching from female `i` on: each female in turn takes the
/// nearest available male, who is then used up.
pub open spec fn greedy_pairs(
    fs: Seq<MateCandidate>,
    ms: Seq<MateCandidate>,
    i: int,
    used: Set<u32>,
) -> Seq<MatingPair>
    decreases fs.len() - i,
{
    if i < 0 || i >= fs.len() {
        Seq::empty()
    } else if has_available(fs[i], ms, used) {
        let j = choose|j: int| is_best_male(fs[i], ms, used, j);
        seq![MatingPair {
            female: fs[i].entity,
            male: ms[j].entity,
            meeting_tile: fs[i].tile,
            female_duration_ticks: fs[i].mating_duration_ticks,
            male_duration_ticks: ms[j].mating_duration_ticks,
        }]
            + greedy_pairs(fs, ms, i + 1, used.insert(ms[j].entity.index))
    } else {
        greedy_pairs(fs, ms, i + 1, used)
    }
}

/// The pairs that matching forms among `animals` at `tick`: none unless
/// the tick is a multiple of the first creature's matching interval;
/// otherwise the greedy matching of the seeking females, in order, with
/// the seeking males.
pub open spec fn matching_spec(animals: Seq<MateCandidate>, tick: u64) -> Seq<MatingPair> {
    if animals.len() > 0 && tick % (animals[0].matching_interval_ticks as u64) != 0 {
        Seq::empty()
    } else {
        greedy_pairs(seekers(animals, Sex::Female), seekers(animals, Sex::Male), 0, Set::empty())
    }
}

/// At most one male is the best one.
proof fn lemma_best_unique(f: MateCandidate, ms: Seq<MateCandidate>, used: Set<u32>, a: int, b: int)
    requires
        is_best_male(f, ms, used, a),
        is_best_male(f, ms, used, b),
    ensures
        a == b,
{
    assert(available(f, ms, used, a));
    assert(available(f, ms, used, b));
}

/// Every creature of `seekers(s, sex)` comes from `s` and seeks a mate.
proof fn lemma_seekers(s: Seq<MateCandidate>, sex: Sex)
    ensures
        forall|i: int|
            0 <= i < seekers(s, sex).len() ==> seeks_mate(#[trigger] seekers(s, sex)[i], sex)
                && s.contains(seekers(s, sex)[i]),
    decreases s.len(),
{
    if s.len() > 0 {
        lemma_seekers(s.drop_last(), sex);
        let p = seekers(s.drop_last(), sex);
        assert forall|i: int| 0 <= i < seekers(s, sex).len() implies seeks_mate(
            #[trigger] seekers(s, sex)[i],
            sex,
        ) && s.contains(seekers(s, sex)[i]) by {
            if i < p.len() {
                assert(seekers(s, sex)[i] == p[i]);
                let k = choose|k: int| 0 <= k < s.drop_last().len() && s.drop_last()[k] == p[i];
                assert(s[k] == p[i]);
            } else {
                assert(s[s.len() - 1] == s.last());
            }
        }
    }
}

/// The male at index `j` is the best available one among the first `n`.
pub open spec fn best_in_prefix(f: MateCandidate, ms: Seq<MateCandidate>, used: Set<u32>, n: int, j: int) -> bool {
    &&& 0 <= j < n
    &&& available(f, ms, used, j)
    &&& forall|k: int|
        0 <= k < n && #[trigger] available(f, ms, used, k) ==> dist2(f.tile, ms[j].tile) <= dist2(
            f.tile,
            ms[k].tile,
        ) && (k < j ==> dist2(f.tile, ms[j].tile) < dist2(f.tile, ms[k].tile))
}

/// A female with an available male has a best one.
proof fn lemma_best_exists(f: MateCandidate, ms: Seq<MateCandidate>, used: Set<u32>)
    requires
        has_available(f, ms, used),
    ensures
        exists|j: int| is_best_male(f, ms, used, j),
{
    let k0 = choose|k: int| #[trigger] available(f, ms, used, k);
    let j = lemma_best_in_prefix(f, ms, used, ms.len() as int, k0);
    assert(is_best_male(f, ms, used, j));
}

proof fn lemma_best_in_prefix(f: MateCandidate, ms: Seq<MateCandidate>, used: Set<u32>, n: int, k0: int) -> (j: int)
    requires
        0 <= k0 < n <= ms.len(),
        available(f, ms, used, k0),
    ensures
        best_in_prefix(f, ms, used, n, j),
    decreases n, k0,
{
    if k0 < n - 1 {
        let b = lemma_best_in_prefix(f, ms, used, n - 1, k0);
        if available(f, ms, used, n - 1) && dist2(f.tile, ms[n - 1].tile) < dist2(f.tile, ms[b].tile) {
            assert forall|k: int| 0 <= k < n && #[trigger] available(f, ms, used, k) implies dist2(
                f.tile,
                ms[n - 1].tile,
            ) <= dist2(f.tile, ms[k].tile) && (k < n - 1 ==> dist2(f.tile, ms[n - 1].tile) < dist2(
                f.tile,
                ms[k].tile,
            )) by {
                if k < n - 1 {
                    assert(best_in_prefix(f, ms, used, n - 1, b));
                }
            }
            n - 1
        } else {
            assert forall|k: int| 0 <= k < n && #[trigger] available(f, ms, used, k) implies dist2(
                f.tile,
                ms[b].tile,
            ) <= dist2(f.tile, ms[k].tile) && (k < b ==> dist2(f.tile, ms[b].tile) < dist2(
                f.tile,
                ms[k].tile,
            )) by {
                if k < n - 1 {
                    assert(best_in_prefix(f, ms, used, n - 1, b));
                }
            }
            b
        }
    } else {
        if exists|k: int| 0 <= k < n - 1 && #[trigger] available(f, ms, used, k) {
            let k1 = choose|k: int| 0 <= k < n - 1 && #[trigger] available(f, ms, used, k);
            lemma_best_in_prefix(f, ms, used, n, k1)
        } else {
            n - 1
        }
    }
}

/// Distinct pairs formed from `used` on never share a male, and never
/// take one in `used`.
pub proof fn lemma_greedy_males_distinct(
    fs: Seq<MateCandidate>,
    ms: Seq<MateCandidate>,
    i: int,
    used: Set<u32>,
)
    ensures
        forall|k: int|
            0 <= k < greedy_pairs(fs, ms, i, used).len() ==> !used.contains(
                (#[trigger] greedy_pairs(fs, ms, i, used)[k]).male.index,
            ),
        forall|k: int, l: int|
            0 <= k < l < greedy_pairs(fs, ms, i, used).len() ==> (#[trigger] greedy_pairs(
                fs,
                ms,
                i,
                used,
            )[k]).male != (#[trigger] greedy_pairs(fs, ms, i, used)[l]).male,
    decreases fs.len() - i,
{
    if 0 <= i < fs.len() {
        if has_available(fs[i], ms, used) {
            lemma_best_exists(fs[i], ms, used);
            let j = choose|j: int| is_best_male(fs[i], ms, used, j);
            let m = ms[j].entity.index;
            lemma_greedy_males_distinct(fs, ms, i + 1, used.insert(m));
            let rest = greedy_pairs(fs, ms, i + 1, used.insert(m));
            let all = greedy_pairs(fs, ms, i, used);
            assert(all == seq![MatingPair {
            female: fs[i].entity,
            male: ms[j].entity,
            meeting_tile: fs[i].tile,
            female_duration_ticks: fs[i].mating_duration_ticks,
            male_duration_ticks: ms[j].mating_duration_ticks,
        }] + rest);
            assert forall|k: int| 0 <= k < all.len() implies !used.contains((#[trigger] all[k]).male.index) by {
                if k > 0 {
                    assert(all[k] == rest[k - 1]);
                }
            }
            assert forall|k: int, l: int| 0 <= k < l < all.len() implies (#[trigger] all[k]).male != (#[trigger] all[l]).male by {
                assert(all[l] == rest[l - 1]);
                if k > 0 {
                    assert(all[k] == rest[k - 1]);
                } else {
                    assert(!used.insert(m).contains(rest[l - 1].male.index));
                }
            }
        } else {
            lemma_greedy_males_distinct(fs, ms, i + 1, used);
            assert(greedy_pairs(fs, ms, i, used) == greedy_pairs(fs, ms, i + 1, used));
        }
    }
}

/// The pair formed by female `f` and male `m`: they meet on her tile,
/// each for its own mating duration.
pub open spec fn pair_of(f: MateCandidate, m: MateCandidate) -> MatingPair {
    MatingPair {
        female: f.entity,
        male: m.entity,
        meeting_tile: f.tile,
        female_duration_ticks: f.mating_duration_ticks,
        male_duration_ticks: m.mating_duration_ticks,
    }
}

/// `p` joins a female of `fs` from index `i` on with a male of `ms`
/// within her search radius.
pub open spec fn formed_from(fs: Seq<MateCandidate>, ms: Seq<MateCandidate>, i: int, p: MatingPair) -> bool {
    exists|a: int, b: int|
        #![trigger fs[a], ms[b]]
        i <= a < fs.len() && 0 <= b < ms.len() && in_reach(fs[a], ms[b]) && p == pair_of(fs[a], ms[b])
}

/// `p` joins a seeking female of `animals` with a seeking male of it
/// within her search radius, on her tile.
pub open spec fn seekers_in_reach(animals: Seq<MateCandidate>, p: MatingPair) -> bool {
    exists|f: MateCandidate, m: MateCandidate|
        #![trigger animals.contains(f), animals.contains(m)]
        animals.contains(f) && animals.contains(m) && seeks_mate(f, Sex::Female) && seeks_mate(m, Sex::Male)
            && in_reach(f, m) && p == pair_of(f, m)
}

/// Every pair formed from female `i` on joins a female of `fs` from index
/// `i` on with a male of `ms` within her search radius.
proof fn lemma_greedy_pairs_in_reach(fs: Seq<MateCandidate>, ms: Seq<MateCandidate>, i: int, used: Set<u32>)
    ensures
        forall|k: int|
            0 <= k < greedy_pairs(fs, ms, i, used).len() ==> formed_from(
                fs,
                ms,
                i,
                #[trigger] greedy_pairs(fs, ms, i, used)[k],
            ),
    decreases fs.len() - i,
{
    if 0 <= i < fs.len() {
        if has_available(fs[i], ms, used) {
            lemma_best_exists(fs[i], ms, used);
            let j = choose|j: int| is_best_male(fs[i], ms, used, j);
            let u2 = used.insert(ms[j].entity.index);
            lemma_greedy_pairs_in_reach(fs, ms, i + 1, u2);
            let all = greedy_pairs(fs, ms, i, used);
            let rest = greedy_pairs(fs, ms, i + 1, u2);
            assert(all == seq![pair_of(fs[i], ms[j])] + rest);
            assert forall|k: int| 0 <= k < all.len() implies formed_from(fs, ms, i, #[trigger] all[k]) by {
                if k == 0 {
                    assert(available(fs[i], ms, used, j));
                    assert(in_reach(fs[i], ms[j]) && all[k] == pair_of(fs[i], ms[j]));
                } else {
                    assert(all[k] == rest[k - 1]);
                    assert(formed_from(fs, ms, i + 1, rest[k - 1]));
                }
            }
        } else {
            lemma_greedy_pairs_in_reach(fs, ms, i + 1, used);
            let all = greedy_pairs(fs, ms, i, used);
            let rest = greedy_pairs(fs, ms, i + 1, used);
            assert(all == rest);
            assert forall|k: int| 0 <= k < all.len() implies formed_from(fs, ms, i, #[trigger] all[k]) by {
                assert(formed_from(fs, ms, i + 1, rest[k]));
            }
        }
    }
}

/// Matching pairs up only creatures of `animals` that seek a mate, a
/// female with a male, within the female's search radius, meeting on her
/// tile; and no male is in two pairs.
pub proof fn law_pairs_are_seekers_in_reach(animals: Seq<MateCandidate>, tick: u64)
    ensures
        forall|k: int|
            0 <= k < matching_spec(animals, tick).len() ==> seekers_in_reach(
                animals,
                #[trigger] matching_spec(animals, tick)[k],
            ),
        forall|k: int, l: int|
            0 <= k < l < matching_spec(animals, tick).len() ==> (#[trigger] matching_spec(animals, tick)[k]).male
                != (#[trigger] matching_spec(animals, tick)[l]).male,
{
    let fs = seekers(animals, Sex::Female);
    let ms = seekers(animals, Sex::Male);
    lemma_seekers(animals, Sex::Female);
    lemma_seekers(animals, Sex::Male);
    lemma_greedy_pairs_in_reach(fs, ms, 0, Set::empty());
    lemma_greedy_males_distinct(fs, ms, 0, Set::empty());
    let r = matching_spec(animals, tick);
    assert forall|k: int| 0 <= k < r.len() implies seekers_in_reach(animals, #[trigger] r[k]) by {
        let g = greedy_pairs(fs, ms, 0, Set::empty());
        assert(r == g);
        assert(formed_from(fs, ms, 0, g[k]));
        let (a, b) = choose|a: int, b: int|
            #![trigger fs[a], ms[b]]
            0 <= a < fs.len() && 0 <= b < ms.len() && in_reach(fs[a], ms[b]) && g[k] == pair_of(fs[a], ms[b]);
        assert(seeks_mate(fs[a], Sex::Female) && animals.contains(fs[a]));
        assert(seeks_mate(ms[b], Sex::Male) && animals.contains(ms[b]));
    }
}

/// Squared distance between two tiles, exactly.
fn dist2_of(a: IVec2, b: IVec2) -> (d: i128)
    ensures
        d == dist2(a, b),
{
    let dx: i128 = a.x as i128 - b.x as i128;
    let dy: i128 = a.y as i128 - b.y as i128;
    assert(0 <= dx * dx <= 0x1_0000_0000_0000_0000) by (nonlinear_arith)
        requires
            -0x1_0000_0000 <= dx <= 0x1_0000_0000,
    ;
    assert(0 <= dy * dy <= 0x1_0000_0000_0000_0000) by (nonlinear_arith)
        requires
            -0x1_0000_0000 <= dy <= 0x1_0000_0000,
    ;
    dx * dx + dy * dy
}

/// The creatures of `animals` that seek a mate of sex `sex`, in order.
fn collect_seekers(animals: &Vec<MateCandidate>, sex: Sex) -> (r: Vec<MateCandidate>)
    ensures
        r@ == seekers(animals@, sex),
{
    let mut out: Vec<MateCandidate> = Vec::new();
    let mut i: usize = 0;
    while i < animals.len()
        invariant
            0 <= i <= animals.len(),
            out@ == seekers(animals@.take(i as int), sex),
        decreases animals.len() - i,
    {
        let c = animals[i];
        proof {
            assert(animals@.take(i + 1).drop_last() == animals@.take(i as int));
            assert(animals@.take(i + 1).last() == c);
        }
        if c.sex == Some(sex) && !c.busy && c.eligible {
            out.push(c);
        }
        i = i + 1;
    }
    proof {
        assert(animals@.take(animals.len() as int) == animals@);
    }
    out
}

/// Forms mating pairs among the creatures of one species at `current_tick`.
/// Nothing happens unless the tick is a multiple of the first creature's
/// matching interval. Otherwise each female that is free and eligible, in
/// order, is paired with the nearest free and eligible male within her
/// search radius that no earlier female took (the first of equally near
/// ones); they meet on her tile.
pub fn select_mating_pairs(animals: &Vec<MateCandidate>, current_tick: u64) -> (r: Vec<MatingPair>)
    requires
        animals.len() > 0 ==> animals[0].matching_interval_ticks > 0,
    ensures
        r@ == matching_spec(animals@, current_tick),
        forall|k: int, l: int| 0 <= k < l < r.len() ==> r@[k].male != r@[l].male,
{
    if animals.len() > 0 && current_tick % (animals[0].matching_interval_ticks as u64) != 0 {
        return Vec::new();
    }
    let females = collect_seekers(animals, Sex::Female);
    let males = collect_seekers(animals, Sex::Male);
    let ghost fs = females@;
    let ghost ms = males@;
    let mut used: std::collections::HashSet<u32> = std::collections::HashSet::new();
    let mut pairs: Vec<MatingPair> = Vec::new();
    let mut i: usize = 0;
    proof {
        assert(used@ =~= Set::<u32>::empty());
        assert(pairs@ + greedy_pairs(fs, ms, 0, used@) =~= greedy_pairs(fs, ms, 0, Set::empty()));
    }
    while i < females.len()
        invariant
            0 <= i <= females.len(),
            fs == females@,
            fs.len() == females.len(),
            ms == males@,
            pairs@ + greedy_pairs(fs, ms, i as int, used@) == greedy_pairs(fs, ms, 0, Set::empty()),
        decreases females.len() - i,
    {
        let f = females[i];
        match best_available(f, &males, &used) {
            Some(b) => {
                let m = males[b];
                proof {
                    assert(has_available(f, ms, used@));
                    let c = choose|c: int| is_best_male(f, ms, used@, c);
                    lemma_best_unique(f, ms, used@, c, b as int);
                }
                let ghost before = used@;
                used.insert(m.entity.index);
                pairs.push(MatingPair {
                    female: f.entity,
                    male: m.entity,
                    meeting_tile: f.tile,
                    female_duration_ticks: f.mating_duration_ticks,
                    male_duration_ticks: m.mating_duration_ticks,
                });
                proof {
                    let p = MatingPair {
                    female: f.entity,
                    male: m.entity,
                    meeting_tile: f.tile,
                    female_duration_ticks: f.mating_duration_ticks,
                    male_duration_ticks: m.mating_duration_ticks,
                };
                    assert(greedy_pairs(fs, ms, i as int, before) == seq![p] + greedy_pairs(
                        fs,
                        ms,
                        i + 1,
                        used@,
                    ));
                    assert(pairs@ + greedy_pairs(fs, ms, i + 1, used@) =~= (pairs@.drop_last()
                        + greedy_pairs(fs, ms, i as int, before)));
                }
            },
            None => {
                proof {
                    assert(greedy_pairs(fs, ms, i as int, used@) == greedy_pairs(
                        fs,
                        ms,
                        i + 1,
                        used@,
                    ));
                }
            },
        }
        i = i + 1;
    }
    proof {
        assert(pairs@ =~= greedy_pairs(fs, ms, 0, Set::empty()));
        lemma_greedy_males_distinct(fs, ms, 0, Set::empty());
    }
    pairs
}

/// The value of a countdown one tick later: one less, stopping at zero.
pub open spec fn countdown(t: u32) -> u32 {
    if t > 0 { (t - 1) as u32 } else { 0 }
}

/// A countdown goes down by exactly one tick per tick while time is left,
/// and stays at zero once it got there: `t` ticks after `t` it reads zero.
pub proof fn law_countdown_steps_by_one(t: u32)
    ensures
        t > 0 ==> countdown(t) == t - 1,
        t == 0 ==> countdown(t) == 0,
        countdown(t) <= t,
        t > 0 ==> countdown(t) + 1 == t,
{
}

/// One tick passes for every reproduction cooldown and every pregnancy.
pub fn tick_reproduction_timers(
    cooldowns: &mut Vec<ReproductionCooldown>,
    pregnancies: &mut Vec<Pregnancy>,
)
    ensures
        final(cooldowns).len() == old(cooldowns).len(),
        forall|i: int|
            0 <= i < final(cooldowns).len() ==> (#[trigger] final(cooldowns)@[i]).remaining_ticks
                == countdown(old(cooldowns)@[i].remaining_ticks),
        final(pregnancies).len() == old(pregnancies).len(),
        forall|i: int|
            0 <= i < final(pregnancies).len() ==> (#[trigger] final(pregnancies)@[i]) == (Pregnancy {
                remaining_ticks: countdown(old(pregnancies)@[i].remaining_ticks),
                ..old(pregnancies)@[i]
            }),
        forall|i: int|
            0 <= i < final(cooldowns).len() ==> (#[trigger] final(cooldowns)@[i]).remaining_ticks == if old(
                cooldowns,
            )@[i].remaining_ticks > 0 {
                old(cooldowns)@[i].remaining_ticks - 1
            } else {
                0
            },
        forall|i: int|
            0 <= i < final(pregnancies).len() ==> (#[trigger] final(pregnancies)@[i]).remaining_ticks == if old(
                pregnancies,
            )@[i].remaining_ticks > 0 {
                old(pregnancies)@[i].remaining_ticks - 1
            } else {
                0
            },
{
    let mut i: usize = 0;
    while i < cooldowns.len()
        invariant
            0 <= i <= cooldowns.len(),
            cooldowns.len() == old(cooldowns).len(),
            forall|k: int|
                0 <= k < i ==> (#[trigger] cooldowns@[k]).remaining_ticks == countdown(
                    old(cooldowns)@[k].remaining_ticks,
                ),
            forall|k: int| i <= k < cooldowns.len() ==> #[trigger] cooldowns@[k] == old(cooldowns)@[k],
        decreases cooldowns.len() - i,
    {
        let mut c = cooldowns[i];
        c.tick();
        cooldowns[i] = c;
        i = i + 1;
    }
    let mut j: usize = 0;
    while j < pregnancies.len()
        invariant
            0 <= j <= pregnancies.len(),
            pregnancies.len() == old(pregnancies).len(),
            forall|k: int|
                0 <= k < j ==> (#[trigger] pregnancies@[k]) == (Pregnancy {
                    remaining_ticks: countdown(old(pregnancies)@[k].remaining_ticks),
                    ..old(pregnancies)@[k]
                }),
            forall|k: int|
                j <= k < pregnancies.len() ==> #[trigger] pregnancies@[k] == old(pregnancies)@[k],
        decreases pregnancies.len() - j,
    {
        let mut p = pregnancies[j];
        p.tick();
        pregnancies[j] = p;
        j = j + 1;
    }
}

} // verus!

verus! {

/// The first creature of `a`, from index `k` on, that is `e`.
pub open spec fn lookup_from(a: Seq<MateCandidate>, e: Entity, k: int) -> Option<MateCandidate>
    decreases a.len() - k,
{
    if k < 0 || k >= a.len() {
        None
    } else if a[k].entity == e {
        Some(a[k])
    } else {
        lookup_from(a, e, k + 1)
    }
}

/// The creatures of `es`, looked up in `animals`, that seek a female, in
/// the order of `es`; those not in `animals` are left out.
pub open spec fn males_among(animals: Seq<MateCandidate>, es: Seq<Entity>) -> Seq<MateCandidate>
    decreases es.len(),
{
    if es.len() == 0 {
        Seq::empty()
    } else {
        let prev = males_among(animals, es.drop_last());
        match lookup_from(animals, es.last(), 0) {
            Some(c) => if seeks_mate(c, Sex::Male) {
                prev.push(c)
            } else {
                prev
            },
            None => prev,
        }
    }
}

/// The males that female `f` considers: the seeking males under the cells
/// that her search radius reaches.
pub open spec fn nearby_males(
    animals: Seq<MateCandidate>,
    g: Map<IVec2, Entity>,
    size: int,
    children: Map<u32, Vec<Entity>>,
    f: MateCandidate,
) -> Seq<MateCandidate> {
    males_among(animals, children_in_radius(g, size, children, f.tile, f.mating_search_radius as int))
}

/// Greedy matching from female `i` on, each female choosing among the
/// males near her: she takes the nearest available one, who is then used up.
pub open spec fn greedy_nearby_pairs(
    fs: Seq<MateCandidate>,
    animals: Seq<MateCandidate>,
    g: Map<IVec2, Entity>,
    size: int,
    children: Map<u32, Vec<Entity>>,
    i: int,
    used: Set<u32>,
) -> Seq<MatingPair>
    decreases fs.len() - i,
{
    if i < 0 || i >= fs.len() {
        Seq::empty()
    } else {
        let ms = nearby_males(animals, g, size, children, fs[i]);
        if has_available(fs[i], ms, used) {
            let j = choose|j: int| is_best_male(fs[i], ms, used, j);
            seq![MatingPair {
            female: fs[i].entity,
            male: ms[j].entity,
            meeting_tile: fs[i].tile,
            female_duration_ticks: fs[i].mating_duration_ticks,
            male_duration_ticks: ms[j].mating_duration_ticks,
        }]
                + greedy_nearby_pairs(fs, animals, g, size, children, i + 1, used.insert(ms[j].entity.index))
        } else {
            greedy_nearby_pairs(fs, animals, g, size, children, i + 1, used)
        }
    }
}

/// The pairs that matching through the spatial cells forms at `tick`: none
/// unless the tick is a multiple of the first creature's matching
/// interval; otherwise the seeking females, in order, each take the nearest
/// available seeking male under the cells near her.
pub open spec fn nearby_matching_spec(
    animals: Seq<MateCandidate>,
    g: Map<IVec2, Entity>,
    size: int,
    children: Map<u32, Vec<Entity>>,
    tick: u64,
) -> Seq<MatingPair> {
    if animals.len() > 0 && tick % (animals[0].matching_interval_ticks as u64) != 0 {
        Seq::empty()
    } else {
        greedy_nearby_pairs(seekers(animals, Sex::Female), animals, g, size, children, 0, Set::empty())
    }
}

/// Pairs formed from `used` on never share a male, and never take one in `used`.
pub proof fn lemma_greedy_nearby_males_distinct(
    fs: Seq<MateCandidate>,
    animals: Seq<MateCandidate>,
    g: Map<IVec2, Entity>,
    size: int,
    children: Map<u32, Vec<Entity>>,
    i: int,
    used: Set<u32>,
)
    ensures
        forall|k: int|
            0 <= k < greedy_nearby_pairs(fs, animals, g, size, children, i, used).len() ==> !used.contains(
                (#[trigger] greedy_nearby_pairs(fs, animals, g, size, children, i, used)[k]).male.index,
            ),
        forall|k: int, l: int|
            0 <= k < l < greedy_nearby_pairs(fs, animals, g, size, children, i, used).len()
                ==> (#[trigger] greedy_nearby_pairs(fs, animals, g, size, children, i, used)[k]).male
                != (#[trigger] greedy_nearby_pairs(fs, animals, g, size, children, i, used)[l]).male,
    decreases fs.len() - i,
{
    if 0 <= i < fs.len() {
        let ms = nearby_males(animals, g, size, children, fs[i]);
        if has_available(fs[i], ms, used) {
            lemma_best_exists(fs[i], ms, used);
            let j = choose|j: int| is_best_male(fs[i], ms, used, j);
            let m = ms[j].entity.index;
            lemma_greedy_nearby_males_distinct(fs, animals, g, size, children, i + 1, used.insert(m));
            let rest = greedy_nearby_pairs(fs, animals, g, size, children, i + 1, used.insert(m));
            let all = greedy_nearby_pairs(fs, animals, g, size, children, i, used);
            assert(all == seq![MatingPair {
            female: fs[i].entity,
            male: ms[j].entity,
            meeting_tile: fs[i].tile,
            female_duration_ticks: fs[i].mating_duration_ticks,
            male_duration_ticks: ms[j].mating_duration_ticks,
        }] + rest);
            assert forall|k: int| 0 <= k < all.len() implies !used.contains((#[trigger] all[k]).male.index) by {
                if k > 0 {
                    assert(all[k] == rest[k - 1]);
                }
            }
            assert forall|k: int, l: int| 0 <= k < l < all.len() implies (#[trigger] all[k]).male != (#[trigger] all[l]).male by {
                assert(all[l] == rest[l - 1]);
                if k > 0 {
                    assert(all[k] == rest[k - 1]);
                } else {
                    assert(!used.insert(m).contains(rest[l - 1].male.index));
                }
            }
        } else {
            lemma_greedy_nearby_males_distinct(fs, animals, g, size, children, i + 1, used);
            assert(greedy_nearby_pairs(fs, animals, g, size, children, i, used)
                == greedy_nearby_pairs(fs, animals, g, size, children, i + 1, used));
        }
    }
}

/// A creature found by lookup is one of `a`, and is `e`.
proof fn lemma_lookup_from(a: Seq<MateCandidate>, e: Entity, k: int)
    ensures
        lookup_from(a, e, k) matches Some(c) ==> a.contains(c) && c.entity == e,
    decreases a.len() - k,
{
    if 0 <= k < a.len() {
        if a[k].entity != e {
            lemma_lookup_from(a, e, k + 1);
        }
    }
}

/// The males among `es` are seeking males of `animals`.
proof fn lemma_males_among(animals: Seq<MateCandidate>, es: Seq<Entity>)
    ensures
        forall|i: int|
            0 <= i < males_among(animals, es).len() ==> seeks_mate(#[trigger] males_among(animals, es)[i], Sex::Male)
                && animals.contains(males_among(animals, es)[i]),
    decreases es.len(),
{
    if es.len() > 0 {
        lemma_males_among(animals, es.drop_last());
        lemma_lookup_from(animals, es.last(), 0);
        let prev = males_among(animals, es.drop_last());
        let all = males_among(animals, es);
        assert forall|i: int| 0 <= i < all.len() implies seeks_mate(#[trigger] all[i], Sex::Male) && animals.contains(
            all[i],
        ) by {
            if i < prev.len() {
                assert(all[i] == prev[i]);
            }
        }
    }
}

/// `p` joins a female of `fs` from index `i` on with one of the males near
/// her, within her search radius.
pub open spec fn formed_nearby(
    fs: Seq<MateCandidate>,
    animals: Seq<MateCandidate>,
    g: Map<IVec2, Entity>,
    size: int,
    children: Map<u32, Vec<Entity>>,
    i: int,
    p: MatingPair,
) -> bool {
    exists|a: int, b: int|
        #![trigger nearby_males(animals, g, size, children, fs[a])[b]]
        i <= a < fs.len() && 0 <= b < nearby_males(animals, g, size, children, fs[a]).len() && in_reach(
            fs[a],
            nearby_males(animals, g, size, children, fs[a])[b],
        ) && p == pair_of(fs[a], nearby_males(animals, g, size, children, fs[a])[b])
}

proof fn lemma_greedy_nearby_in_reach(
    fs: Seq<MateCandidate>,
    animals: Seq<MateCandidate>,
    g: Map<IVec2, Entity>,
    size: int,
    children: Map<u32, Vec<Entity>>,
    i: int,
    used: Set<u32>,
)
    ensures
        forall|k: int|
            0 <= k < greedy_nearby_pairs(fs, animals, g, size, children, i, used).len() ==> formed_nearby(
                fs,
                animals,
                g,
                size,
                children,
                i,
                #[trigger] greedy_nearby_pairs(fs, animals, g, size, children, i, used)[k],
            ),
    decreases fs.len() - i,
{
    if 0 <= i < fs.len() {
        let ms = nearby_males(animals, g, size, children, fs[i]);
        let all = greedy_nearby_pairs(fs, animals, g, size, children, i, used);
        if has_available(fs[i], ms, used) {
            lemma_best_exists(fs[i], ms, used);
            let j = choose|j: int| is_best_male(fs[i], ms, used, j);
            let u2 = used.insert(ms[j].entity.index);
            lemma_greedy_nearby_in_reach(fs, animals, g, size, children, i + 1, u2);
            let rest = greedy_nearby_pairs(fs, animals, g, size, children, i + 1, u2);
            assert(all == seq![pair_of(fs[i], ms[j])] + rest);
            assert forall|k: int| 0 <= k < all.len() implies formed_nearby(
                fs,
                animals,
                g,
                size,
                children,
                i,
                #[trigger] all[k],
            ) by {
                if k == 0 {
                    assert(available(fs[i], ms, used, j));
                    assert(in_reach(fs[i], ms[j]) && all[k] == pair_of(fs[i], ms[j]));
                } else {
                    assert(all[k] == rest[k - 1]);
                    assert(formed_nearby(fs, animals, g, size, children, i + 1, rest[k - 1]));
                }
            }
        } else {
            lemma_greedy_nearby_in_reach(fs, animals, g, size, children, i + 1, used);
            let rest = greedy_nearby_pairs(fs, animals, g, size, children, i + 1, used);
            assert(all == rest);
            assert forall|k: int| 0 <= k < all.len() implies formed_nearby(
                fs,
                animals,
                g,
                size,
                children,
                i,
                #[trigger] all[k],
            ) by {
                assert(formed_nearby(fs, animals, g, size, children, i + 1, rest[k]));
            }
        }
    }
}

/// `p` joins a seeking female of `animals` with a seeking male of it that
/// is under the cells near her and within her search radius, on her tile.
pub open spec fn nearby_seekers_in_reach(
    animals: Seq<MateCandidate>,
    g: Map<IVec2, Entity>,
    size: int,
    children: Map<u32, Vec<Entity>>,
    p: MatingPair,
) -> bool {
    exists|f: MateCandidate, m: MateCandidate|
        #![trigger animals.contains(f), nearby_males(animals, g, size, children, f).contains(m)]
        animals.contains(f) && seeks_mate(f, Sex::Female) && nearby_males(animals, g, size, children, f).contains(m)
            && animals.contains(m) && seeks_mate(m, Sex::Male) && in_reach(f, m) && p == pair_of(f, m)
}

/// Matching through the spatial cells pairs up only creatures of
/// `animals` that seek a mate, a female with a male under the cells near
/// her, within her search radius, meeting on her tile; and no male is in
/// two pairs.
pub proof fn law_nearby_pairs_are_seekers_in_reach(
    animals: Seq<MateCandidate>,
    g: Map<IVec2, Entity>,
    size: int,
    children: Map<u32, Vec<Entity>>,
    tick: u64,
)
    ensures
        forall|k: int|
            0 <= k < nearby_matching_spec(animals, g, size, children, tick).len() ==> nearby_seekers_in_reach(
                animals,
                g,
                size,
                children,
                #[trigger] nearby_matching_spec(animals, g, size, children, tick)[k],
            ),
        forall|k: int, l: int|
            0 <= k < l < nearby_matching_spec(animals, g, size, children, tick).len() ==> (
            #[trigger] nearby_matching_spec(animals, g, size, children, tick)[k]).male != (
            #[trigger] nearby_matching_spec(animals, g, size, children, tick)[l]).male,
{
    let fs = seekers(animals, Sex::Female);
    lemma_seekers(animals, Sex::Female);
    lemma_greedy_nearby_in_reach(fs, animals, g, size, children, 0, Set::empty());
    lemma_greedy_nearby_males_distinct(fs, animals, g, size, children, 0, Set::empty());
    let r = nearby_matching_spec(animals, g, size, children, tick);
    assert forall|k: int| 0 <= k < r.len() implies nearby_seekers_in_reach(animals, g, size, children, #[trigger] r[k]) by {
        let gp = greedy_nearby_pairs(fs, animals, g, size, children, 0, Set::empty());
        assert(r == gp);
        assert(formed_nearby(fs, animals, g, size, children, 0, gp[k]));
        let (a, b) = choose|a: int, b: int|
            #![trigger nearby_males(animals, g, size, children, fs[a])[b]]
            0 <= a < fs.len() && 0 <= b < nearby_males(animals, g, size, children, fs[a]).len() && in_reach(
                fs[a],
                nearby_males(animals, g, size, children, fs[a])[b],
            ) && gp[k] == pair_of(fs[a], nearby_males(animals, g, size, children, fs[a])[b]);
        let f = fs[a];
        let ms = nearby_males(animals, g, size, children, f);
        let m = ms[b];
        lemma_males_among(animals, children_in_radius(g, size, children, f.tile, f.mating_search_radius as int));
        assert(seeks_mate(m, Sex::Male) && animals.contains(m));
        assert(ms.contains(m));
        assert(seeks_mate(f, Sex::Female) && animals.contains(f));
    }
}

/// The first creature of `animals` that is `e`, if any.
fn lookup_candidate(animals: &Vec<MateCandidate>, e: Entity) -> (r: Option<MateCandidate>)
    ensures
        r == lookup_from(animals@, e, 0),
{
    let mut i: usize = 0;
    while i < animals.len()
        invariant
            0 <= i <= animals.len(),
            lookup_from(animals@, e, 0) == lookup_from(animals@, e, i as int),
        decreases animals.len() - i,
    {
        if animals[i].entity.index == e.index {
            return Some(animals[i]);
        }
        i = i + 1;
    }
    None
}

/// The nearest available male of `males` for `f`, the first of equally
/// near ones, or `None` when none is available.
fn best_available(f: MateCandidate, males: &Vec<MateCandidate>, used: &std::collections::HashSet<u32>) -> (r: Option<usize>)
    ensures
        match r {
            Some(b) => is_best_male(f, males@, used@, b as int),
            None => !has_available(f, males@, used@),
        },
{
    let ghost ms = males@;
    let rad: i128 = f.mating_search_radius as i128;
    assert(0 <= rad * rad <= 0x1_0000_0000_0000_0000) by (nonlinear_arith)
        requires
            -0x1_0000_0000 <= rad <= 0x1_0000_0000,
    ;
    let radius2: i128 = rad * rad;
    let mut best: Option<(usize, i128)> = None;
    let mut j: usize = 0;
    while j < males.len()
        invariant
            0 <= j <= males.len(),
            ms == males@,
            radius2 == f.mating_search_radius * f.mating_search_radius,
            match best {
                Some((b, bd)) => {
                    &&& b < j
                    &&& available(f, ms, used@, b as int)
                    &&& bd == dist2(f.tile, ms[b as int].tile)
                    &&& forall|k: int|
                        0 <= k < j && #[trigger] available(f, ms, used@, k) ==> bd <= dist2(
                            f.tile,
                            ms[k].tile,
                        ) && (k < b ==> bd < dist2(f.tile, ms[k].tile))
                },
                None => forall|k: int| 0 <= k < j ==> !#[trigger] available(f, ms, used@, k),
            },
        decreases males.len() - j,
    {
        let m = males[j];
        if !used.contains(&m.entity.index) {
            let d2 = dist2_of(f.tile, m.tile);
            if d2 <= radius2 {
                let better = match best {
                    Some((_, bd)) => d2 < bd,
                    None => true,
                };
                if better {
                    best = Some((j, d2));
                }
            }
        }
        j = j + 1;
    }
    match best {
        Some((b, _)) => Some(b),
        None => None,
    }
}

/// The seeking males under the cells near female `f` (see `nearby_males`).
fn collect_nearby_males(
    animals: &Vec<MateCandidate>,
    grid: &SpatialCellGrid,
    children: &HashMap<u32, Vec<Entity>>,
    f: MateCandidate,
) -> (r: Vec<MateCandidate>)
    requires
        grid.size_view() > 0,
        square_fits(
            chunk_of(f.tile, grid.size_view() as int),
            ceil_div(f.mating_search_radius as int, grid.size_view() as int),
        ),
    ensures
        r@ == nearby_males(animals@, grid@, grid.size_view() as int, children@, f),
{
    let es = entities_in_radius_via_children(grid, children, f.tile, f.mating_search_radius);
    let mut out: Vec<MateCandidate> = Vec::new();
    let mut i: usize = 0;
    while i < es.len()
        invariant
            0 <= i <= es.len(),
            out@ == males_among(animals@, es@.take(i as int)),
        decreases es.len() - i,
    {
        proof {
            assert(es@.take(i + 1).drop_last() == es@.take(i as int));
            assert(es@.take(i + 1).last() == es@[i as int]);
        }
        match lookup_candidate(animals, es[i]) {
            Some(c) => {
                if c.sex == Some(Sex::Male) && !c.busy && c.eligible {
                    out.push(c);
                }
            },
            None => {},
        }
        i = i + 1;
    }
    proof {
        assert(es@.take(es.len() as int) == es@);
    }
    out
}

/// Forms mating pairs among the creatures of one species at `current_tick`,
/// each female looking only at the creatures under the spatial cells near
/// her. Nothing happens unless the tick is a multiple of the first
/// creature's matching interval. Otherwise each free and eligible female,
/// in order, takes the nearest free and eligible male within her search
/// radius among those under the cells that the radius reaches, and that no
/// earlier female took (the first of equally near ones, in the order the
/// cells give them); they meet on her tile. `children` holds the creatures
/// under each cell of `grid`, keyed by the cell's entity index.
pub fn select_mating_pairs_via_children(
    animals: &Vec<MateCandidate>,
    grid: &SpatialCellGrid,
    children: &HashMap<u32, Vec<Entity>>,
    current_tick: u64,
) -> (r: Vec<MatingPair>)
    requires
        animals.len() > 0 ==> animals[0].matching_interval_ticks > 0,
        grid.size_view() > 0,
        forall|i: int|
            0 <= i < animals.len() && seeks_mate(#[trigger] animals[i], Sex::Female) ==> square_fits(
                chunk_of(animals[i].tile, grid.size_view() as int),
                ceil_div(animals[i].mating_search_radius as int, grid.size_view() as int),
            ),
    ensures
        r@ == nearby_matching_spec(animals@, grid@, grid.size_view() as int, children@, current_tick),
        forall|k: int, l: int| 0 <= k < l < r.len() ==> r@[k].male != r@[l].male,
{
    if animals.len() > 0 && current_tick % (animals[0].matching_interval_ticks as u64) != 0 {
        return Vec::new();
    }
    let females = collect_seekers(animals, Sex::Female);
    let ghost fs = females@;
    let ghost a = animals@;
    let ghost g = grid@;
    let ghost size = grid.size_view() as int;
    let ghost ch = children@;
    proof {
        lemma_seekers(animals@, Sex::Female);
    }
    let mut used: std::collections::HashSet<u32> = std::collections::HashSet::new();
    let mut pairs: Vec<MatingPair> = Vec::new();
    let mut i: usize = 0;
    proof {
        assert(used@ =~= Set::<u32>::empty());
        assert(pairs@ + greedy_nearby_pairs(fs, a, g, size, ch, 0, used@) =~= greedy_nearby_pairs(
            fs,
            a,
            g,
            size,
            ch,
            0,
            Set::empty(),
        ));
    }
    while i < females.len()
        invariant
            0 <= i <= females.len(),
            fs == females@,
            fs.len() == females.len(),
            a == animals@,
            g == grid@,
            ch == children@,
            size == grid.size_view(),
            size > 0,
            forall|k: int|
                0 <= k < fs.len() ==> seeks_mate(#[trigger] fs[k], Sex::Female) && a.contains(fs[k]),
            forall|k: int|
                0 <= k < a.len() && seeks_mate(#[trigger] a[k], Sex::Female) ==> square_fits(
                    chunk_of(a[k].tile, size),
                    ceil_div(a[k].mating_search_radius as int, size),
                ),
            pairs@ + greedy_nearby_pairs(fs, a, g, size, ch, i as int, used@) == greedy_nearby_pairs(
                fs,
                a,
                g,
                size,
                ch,
                0,
                Set::empty(),
            ),
        decreases females.len() - i,
    {
        let f = females[i];
        proof {
            assert(seeks_mate(fs[i as int], Sex::Female) && a.contains(fs[i as int]));
            let k = choose|k: int| 0 <= k < a.len() && a[k] == f;
            assert(seeks_mate(a[k], Sex::Female));
        }
        let males = collect_nearby_males(animals, grid, children, f);
        let ghost ms = males@;
        match best_available(f, &males, &used) {
            Some(b) => {
                let m = males[b];
                proof {
                    assert(has_available(f, ms, used@));
                    let c = choose|c: int| is_best_male(f, ms, used@, c);
                    lemma_best_unique(f, ms, used@, c, b as int);
                }
                let ghost before = used@;
                used.insert(m.entity.index);
                pairs.push(MatingPair {
                    female: f.entity,
                    male: m.entity,
                    meeting_tile: f.tile,
                    female_duration_ticks: f.mating_duration_ticks,
                    male_duration_ticks: m.mating_duration_ticks,
                });
                proof {
                    let p = MatingPair {
                    female: f.entity,
                    male: m.entity,
                    meeting_tile: f.tile,
                    female_duration_ticks: f.mating_duration_ticks,
                    male_duration_ticks: m.mating_duration_ticks,
                };
                    assert(greedy_nearby_pairs(fs, a, g, size, ch, i as int, before) == seq![p]
                        + greedy_nearby_pairs(fs, a, g, size, ch, i + 1, used@));
                    assert(pairs@ + greedy_nearby_pairs(fs, a, g, size, ch, i + 1, used@) =~= (
                    pairs@.drop_last() + greedy_nearby_pairs(fs, a, g, size, ch, i as int, before)));
                }
            },
            None => {
                proof {
                    assert(greedy_nearby_pairs(fs, a, g, size, ch, i as int, used@)
                        == greedy_nearby_pairs(fs, a, g, size, ch, i + 1, used@));
                }
            },
        }
        i = i + 1;
    }
    proof {
        assert(pairs@ =~= greedy_nearby_pairs(fs, a, g, size, ch, 0, Set::empty()));
        lemma_greedy_nearby_males_distinct(fs, a, g, size, ch, 0, Set::empty());
    }
    pairs
}

} // verus!

verus! {

/// A pregnant creature, as birth planning sees it.
#[derive(Debug, Clone, Copy, PartialEq, Eq, Structural)]
pub struct BirthCandidate {
    pub mother: Entity,
    pub tile: IVec2,
    pub pregnancy: Pregnancy,
    /// Age at which the species matures.
    pub maturity_ticks: u32,
}

/// A newborn to spawn: its name, birth tile, mother and age.
#[derive(Debug, Clone)]
pub struct Newborn {
    pub name: String,
    pub tile: IVec2,
    pub mother: Mother,
    pub age: Age,
}

/// What a newborn is made of, as plain values.
pub open spec fn newborn_view(n: Newborn) -> (Seq<char>, IVec2, Entity, Age) {
    (n.name@, n.tile, n.mother.0, n.age)
}

/// The name of the `i`-th baby of a litter: the prefix, `_` and `i`.
pub open spec fn baby_name(prefix: Seq<char>, i: nat) -> Seq<char> {
    prefix + "_"@ + decimal(i)
}

/// The litter of a creature: `litter_size` babies named after the prefix
/// and numbered from 0, born on her tile, of age 0, maturing at the
/// species' age.
pub open spec fn litter(c: BirthCandidate, prefix: Seq<char>) -> Seq<(Seq<char>, IVec2, Entity, Age)> {
    Seq::new(
        c.pregnancy.litter_size as nat,
        |i: int| (baby_name(prefix, i as nat), c.tile, c.mother, Age { ticks_alive: 0, mature_at_ticks: c.maturity_ticks }),
    )
}

/// The newborns of the creatures whose litter is due, in order.
pub open spec fn births(cs: Seq<BirthCandidate>, prefix: Seq<char>) -> Seq<(Seq<char>, IVec2, Entity, Age)>
    decreases cs.len(),
{
    if cs.len() == 0 {
        Seq::empty()
    } else if cs.last().pregnancy.remaining_ticks == 0 {
        births(cs.drop_last(), prefix) + litter(cs.last(), prefix)
    } else {
        births(cs.drop_last(), prefix)
    }
}

/// The creatures whose litter is due, in order: their pregnancy ends.
pub open spec fn delivered(cs: Seq<BirthCandidate>) -> Seq<Entity>
    decreases cs.len(),
{
    if cs.len() == 0 {
        Seq::empty()
    } else if cs.last().pregnancy.remaining_ticks == 0 {
        delivered(cs.drop_last()).push(cs.last().mother)
    } else {
        delivered(cs.drop_last())
    }
}

/// Plans the births of a tick: every creature whose litter is due gives
/// birth on her tile to `litter_size` newborns named `<prefix>_<i>` for
/// `i` from 0, of age 0 and maturing at the species' age, and her
/// pregnancy ends. Returns the newborns, in order, and the mothers whose
/// pregnancy ends.
pub fn plan_births(candidates: &Vec<BirthCandidate>, baby_prefix: &str) -> (r: (Vec<Newborn>, Vec<Entity>))
    ensures
        r.0@.map_values(|n: Newborn| newborn_view(n)) == births(candidates@, baby_prefix@),
        r.1@ == delivered(candidates@),
{
    let mut newborns: Vec<Newborn> = Vec::new();
    let mut mothers: Vec<Entity> = Vec::new();
    let mut i: usize = 0;
    while i < candidates.len()
        invariant
            0 <= i <= candidates.len(),
            newborns@.map_values(|n: Newborn| newborn_view(n)) == births(candidates@.take(i as int), baby_prefix@),
            mothers@ == delivered(candidates@.take(i as int)),
        decreases candidates.len() - i,
    {
        let c = candidates[i];
        proof {
            assert(candidates@.take(i + 1).drop_last() == candidates@.take(i as int));
            assert(candidates@.take(i + 1).last() == c);
        }
        if c.pregnancy.remaining_ticks == 0 {
            let ghost before = newborns@.map_values(|n: Newborn| newborn_view(n));
            let n = c.pregnancy.litter_size;
            let mut k: u8 = 0;
            while k < n
                invariant
                    0 <= k <= n,
                    n == c.pregnancy.litter_size,
                    newborns@.map_values(|n: Newborn| newborn_view(n)) == before + litter(c, baby_prefix@).take(k as int),
                decreases n - k,
            {
                let mut name = String::from_str(baby_prefix);
                name.append("_");
                append_decimal(&mut name, k as u64);
                let ghost prev = newborns@;
                newborns.push(
                    Newborn {
                        name,
                        tile: c.tile,
                        mother: Mother(c.mother),
                        age: Age { ticks_alive: 0, mature_at_ticks: c.maturity_ticks },
                    },
                );
                proof {
                    reveal_strlit("_");
                    assert(newborns@ == prev.push(newborns@.last()));
                    assert(litter(c, baby_prefix@).take(k + 1) =~= litter(c, baby_prefix@).take(k as int).push(
                        litter(c, baby_prefix@)[k as int],
                    ));
                    assert(newborns@.map_values(|n: Newborn| newborn_view(n)) =~= prev.map_values(
                        |n: Newborn| newborn_view(n),
                    ).push(newborn_view(newborns@.last())));
                }
                k = k + 1;
            }
            proof {
                assert(litter(c, baby_prefix@).take(n as int) =~= litter(c, baby_prefix@));
            }
            mothers.push(c.mother);
        }
        i = i + 1;
    }
    proof {
        assert(candidates@.take(candidates.len() as int) == candidates@);
    }
    (newborns, mothers)
}

} // verus!
