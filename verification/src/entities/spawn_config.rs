use vstd::prelude::*;
use vstd::string::StringExecFns;
use std::collections::HashMap;
use rand::rngs::ThreadRng;
use crate::entities::reproduction::Sex;
use crate::entities::wandering::{in_square, offsets_within, random_offset};
use crate::geometry::{IVec2, key_of, lemma_pos_key_injective, pos_key};
use crate::pathfinding::grid::{PathfindingGrid, walkable_in};

verus! {

/// Sex given to configured spawns.
#[derive(Debug, Clone, Copy, PartialEq, Eq, Structural)]
pub enum SpawnSex {
    Male,
    Female,
}

/// Where a group spawns: around a center tile, within a search radius,
/// with a bounded number of attempts per creature.
#[derive(Debug, Clone, Copy)]
pub struct SpawnArea {
    pub center: (i32, i32),
    pub search_radius: i32,
    pub max_attempts: usize,
}

/// Console messages of a group (templates with `{name}`, `{index}`,
/// `{pos}`, `{sex}`, `{count}`, `{species}` placeholders).
#[derive(Debug, Clone)]
pub struct SpawnMessages {
    pub start_message: String,
    pub success_template: String,
    pub completion_message: String,
}

/// A group of creatures of one species to spawn.
#[derive(Debug, Clone)]
pub struct SpawnGroup {
    pub species: String,
    pub count: usize,
    /// Names, reused in turn when there are fewer than creatures.
    pub names: Vec<String>,
    pub spawn_area: SpawnArea,
    /// Sexes, applied in turn.
    pub sex_sequence: Option<Vec<SpawnSex>>,
    pub messages: Option<SpawnMessages>,
}

/// Settings of the whole spawn run.
#[derive(Debug, Clone)]
pub struct SpawnSettings {
    pub verbose_logging: bool,
    pub enable_spawning: bool,
    pub completion_message: String,
    pub post_spawn_messages: Vec<String>,
}

/// The spawn configuration: groups and settings.
#[derive(Debug, Clone)]
pub struct SpawnConfig {
    pub spawn_groups: Vec<SpawnGroup>,
    pub settings: SpawnSettings,
}

/// The decimal digit character of `d` (0 to 9).
pub open spec fn digit_char(d: nat) -> char {
    (48 + d) as char
}

/// The decimal writing of `n`, without leading zeros.
pub open spec fn decimal(n: nat) -> Seq<char>
    decreases n,
{
    if n < 10 {
        seq![digit_char(n)]
    } else {
        decimal(n / 10).push(digit_char(n % 10))
    }
}

/// Appends the decimal writing of `n` to `s`.
pub(crate) fn append_decimal(s: &mut String, n: u64)
    ensures
        final(s)@ == old(s)@ + decimal(n as nat),
    decreases n,
{
    if n >= 10 {
        append_decimal(s, n / 10);
    }
    let d = n % 10;
    proof {
        reveal_strlit("0");
        reveal_strlit("1");
        reveal_strlit("2");
        reveal_strlit("3");
        reveal_strlit("4");
        reveal_strlit("5");
        reveal_strlit("6");
        reveal_strlit("7");
        reveal_strlit("8");
        reveal_strlit("9");
    }
    let ghost mid = s@;
    match d {
        0 => s.append("0"),
        1 => s.append("1"),
        2 => s.append("2"),
        3 => s.append("3"),
        4 => s.append("4"),
        5 => s.append("5"),
        6 => s.append("6"),
        7 => s.append("7"),
        8 => s.append("8"),
        _ => s.append("9"),
    }
    proof {
        assert(s@ == mid + seq![digit_char(d as nat)]);
        if n >= 10 {
            assert(decimal(n as nat) == decimal((n / 10) as nat).push(digit_char((n % 10) as nat)));
        }
        assert(s@ =~= old(s)@ + decimal(n as nat));
    }
}

/// `prefix` followed by `_` and the decimal writing of `n`.
pub open spec fn numbered(prefix: Seq<char>, n: nat) -> Seq<char> {
    prefix + seq!['_'] + decimal(n)
}

/// The name of creature `entity_index` of group `group_index`.
pub open spec fn name_for(groups: Seq<SpawnGroup>, group_index: int, entity_index: int) -> Seq<char> {
    if 0 <= group_index < groups.len() {
        let g = groups[group_index];
        if g.names@.len() == 0 {
            numbered(g.species@, (entity_index + 1) as nat)
        } else {
            g.names@[entity_index % (g.names@.len() as int)]@
        }
    } else {
        numbered("Entity"@, (entity_index + 1) as nat)
    }
}

/// `g` is the group with exactly these contents.
pub open spec fn group_is(
    g: SpawnGroup,
    species: Seq<char>,
    count: usize,
    names: Seq<Seq<char>>,
    center: (i32, i32),
    search_radius: i32,
    max_attempts: usize,
    sexes: Option<Seq<SpawnSex>>,
    messages: (Seq<char>, Seq<char>, Seq<char>),
) -> bool {
    &&& g.species@ == species
    &&& g.count == count
    &&& g.names@.len() == names.len()
    &&& forall|i: int| 0 <= i < names.len() ==> (#[trigger] g.names@[i])@ == names[i]
    &&& g.spawn_area.center == center
    &&& g.spawn_area.search_radius == search_radius
    &&& g.spawn_area.max_attempts == max_attempts
    &&& match sexes {
        Some(sx) => g.sex_sequence matches Some(v) && v@ == sx,
        None => g.sex_sequence is None,
    }
    &&& g.messages matches Some(m) && m.start_message@ == messages.0 && m.success_template@
        == messages.1 && m.completion_message@ == messages.2
}

/// The built-in configuration: five rabbits, a deer pair and a raccoon
/// pair, with verbose logging and spawning on.
pub open spec fn is_default_config(c: SpawnConfig) -> bool {
    &&& c.spawn_groups@.len() == 3
    &&& group_is(
        c.spawn_groups@[0],
        "Rabbit"@,
        5,
        seq!["Bugs"@, "Roger"@, "Thumper"@, "Peter"@, "Clover"@],
        (0i32, 0i32),
        15,
        30,
        None,
        ("🎯 LIFE_SIMULATOR: Spawning 5 rabbits for testing..."@, "   ✅ Spawned rabbit #{index}: {name} 🐇 at {pos}"@, "✅ LIFE_SIMULATOR: Spawned {count} rabbits successfully!"@),
    )
    &&& group_is(
        c.spawn_groups@[1],
        "Deer"@,
        2,
        seq!["Stag"@, "Doe"@],
        (0i32, 0i32),
        5,
        50,
        Some(seq![SpawnSex::Male, SpawnSex::Female]),
        ("🦌 Spawning deer pair near origin..."@, "   🦌 Spawned deer {name} ({sex}) at {pos}"@, "🦌 Deer pair ready for testing ({count} spawned)"@),
    )
    &&& group_is(
        c.spawn_groups@[2],
        "Raccoon"@,
        2,
        seq!["Bandit"@, "Maple"@],
        (-30i32, 10i32),
        30,
        200,
        Some(seq![SpawnSex::Male, SpawnSex::Female]),
        ("🦝 Spawning raccoon pair near watering hole..."@, "   🦝 Spawned raccoon {name} ({sex}) at {pos}"@, "🦝 Raccoon pair active near campsite ({count} spawned)"@),
    )
    &&& c.settings.verbose_logging
    &&& c.settings.enable_spawning
    &&& c.settings.completion_message@ == "🌐 LIFE_SIMULATOR: View at http://127.0.0.1:54321/viewer.html\n🌐 LIFE_SIMULATOR: Entity API at http://127.0.0.1:54321/api/entities"@
    &&& c.settings.post_spawn_messages@.len() == 3
    &&& c.settings.post_spawn_messages@[0]@ == "📊 Rabbits will only move when thirsty/hungry (no wandering)"@
    &&& c.settings.post_spawn_messages@[1]@ == "🧠 Behavior: Drinks at 15% thirst, grazes at 3-8 tile range"@
    &&& c.settings.post_spawn_messages@[2]@ == "🦌 Example: Deer follow their mothers while idle"@
}

impl Default for SpawnConfig {
    fn default() -> (c: SpawnConfig)
        ensures
            is_default_config(c),
    {
        let g0 = SpawnGroup {
            species: "Rabbit".to_string(),
            count: 5,
            names: vec!["Bugs".to_string(), "Roger".to_string(), "Thumper".to_string(), "Peter".to_string(), "Clover".to_string()],
            spawn_area: SpawnArea { center: (0, 0), search_radius: 15, max_attempts: 30 },
            sex_sequence: None,
            messages: Some(SpawnMessages {
                start_message: "🎯 LIFE_SIMULATOR: Spawning 5 rabbits for testing...".to_string(),
                success_template: "   ✅ Spawned rabbit #{index}: {name} 🐇 at {pos}".to_string(),
                completion_message: "✅ LIFE_SIMULATOR: Spawned {count} rabbits successfully!".to_string(),
            }),
        };
        let g1 = SpawnGroup {
            species: "Deer".to_string(),
            count: 2,
            names: vec!["Stag".to_string(), "Doe".to_string()],
            spawn_area: SpawnArea { center: (0, 0), search_radius: 5, max_attempts: 50 },
            sex_sequence: Some(vec![SpawnSex::Male, SpawnSex::Female]),
            messages: Some(SpawnMessages {
                start_message: "🦌 Spawning deer pair near origin...".to_string(),
                success_template: "   🦌 Spawned deer {name} ({sex}) at {pos}".to_string(),
                completion_message: "🦌 Deer pair ready for testing ({count} spawned)".to_string(),
            }),
        };
        let g2 = SpawnGroup {
            species: "Raccoon".to_string(),
            count: 2,
            names: vec!["Bandit".to_string(), "Maple".to_string()],
            spawn_area: SpawnArea { center: (-30, 10), search_radius: 30, max_attempts: 200 },
            sex_sequence: Some(vec![SpawnSex::Male, SpawnSex::Female]),
            messages: Some(SpawnMessages {
                start_message: "🦝 Spawning raccoon pair near watering hole...".to_string(),
                success_template: "   🦝 Spawned raccoon {name} ({sex}) at {pos}".to_string(),
                completion_message: "🦝 Raccoon pair active near campsite ({count} spawned)".to_string(),
            }),
        };
        let settings = SpawnSettings {
            verbose_logging: true,
            enable_spawning: true,
            completion_message: "🌐 LIFE_SIMULATOR: View at http://127.0.0.1:54321/viewer.html\n🌐 LIFE_SIMULATOR: Entity API at http://127.0.0.1:54321/api/entities".to_string(),
            post_spawn_messages: vec!["📊 Rabbits will only move when thirsty/hungry (no wandering)".to_string(), "🧠 Behavior: Drinks at 15% thirst, grazes at 3-8 tile range".to_string(), "🦌 Example: Deer follow their mothers while idle".to_string()],
        };
        let c = SpawnConfig { spawn_groups: vec![g0, g1, g2], settings };
        c
    }
}

impl SpawnConfig {
    /// The name of creature `entity_index` of group `group_index`: the
    /// group's names in turn, or the species and the creature's number
    /// from 1 when the group has no names (`Entity_<number>` for an
    /// unknown group).
    pub fn get_name_for_group(&self, group_index: usize, entity_index: usize) -> (r: String)
        requires
            entity_index < usize::MAX,
        ensures
            r@ == name_for(self.spawn_groups@, group_index as int, entity_index as int),
    {
        proof {
            reveal_strlit("_");
            reveal_strlit("Entity");
        }
        if group_index < self.spawn_groups.len() {
            let group = &self.spawn_groups[group_index];
            if group.names.len() == 0 {
                let mut s = group.species.clone();
                s.append("_");
                append_decimal(&mut s, (entity_index + 1) as u64);
                s
            } else {
                let i = entity_index % group.names.len();
                group.names[i].clone()
            }
        } else {
            let mut s = String::from_str("Entity");
            s.append("_");
            append_decimal(&mut s, (entity_index + 1) as u64);
            s
        }
    }
}

/// The sex applied to creature `entity_index` of a group: the group's
/// sex sequence in turn, if it has one.
pub fn sex_for_entity(group: &SpawnGroup, entity_index: usize) -> (r: Option<Sex>)
    requires
        group.sex_sequence matches Some(v) ==> v@.len() > 0,
    ensures
        r == match group.sex_sequence {
            Some(v) => Some(
                match v@[entity_index as int % v@.len() as int] {
                    SpawnSex::Male => Sex::Male,
                    SpawnSex::Female => Sex::Female,
                },
            ),
            None => None::<Sex>,
        },
{
    match &group.sex_sequence {
        Some(v) => {
            let s = v[entity_index % v.len()];
            Some(
                match s {
                    SpawnSex::Male => Sex::Male,
                    SpawnSex::Female => Sex::Female,
                },
            )
        },
        None => None,
    }
}

} // verus!

verus! {

/// Terrain names of the world's tiles, as a loaded world gives them.
pub struct TerrainMap {
    tiles: HashMap<u64, String>,
}

impl View for TerrainMap {
    type V = Map<IVec2, Seq<char>>;

    closed spec fn view(&self) -> Map<IVec2, Seq<char>> {
        Map::new(|p: IVec2| self.tiles@.contains_key(pos_key(p)), |p: IVec2| self.tiles@[pos_key(p)]@)
    }
}

impl TerrainMap {
    pub fn new() -> (t: TerrainMap)
        ensures
            t@ == Map::<IVec2, Seq<char>>::empty(),
    {
        let t = TerrainMap { tiles: HashMap::new() };
        assert(t@ =~= Map::<IVec2, Seq<char>>::empty());
        t
    }

    /// Records the terrain of a tile.
    pub fn set_terrain(&mut self, pos: IVec2, name: String)
        ensures
            final(self)@ == old(self)@.insert(pos, name@),
    {
        let k = key_of(pos);
        let ghost n = name@;
        self.tiles.insert(k, name);
        proof {
            assert forall|p: IVec2| #![auto] p != pos implies pos_key(p) != pos_key(pos) by {
                lemma_pos_key_injective(p, pos);
            }
        }
        assert(self@ =~= old(self)@.insert(pos, n));
    }

    /// The terrain of tile `(x, y)`, if it is known.
    pub fn get_terrain_at(&self, x: i32, y: i32) -> (r: Option<String>)
        ensures
            match r {
                Some(s) => self@.contains_key(IVec2 { x, y }) && s@ == self@[IVec2 { x, y }],
                None => !self@.contains_key(IVec2 { x, y }),
            },
    {
        let k = key_of(IVec2 { x, y });
        match self.tiles.get(&k) {
            Some(s) => Some(s.clone()),
            None => None,
        }
    }
}

/// Terrain on which creatures are spawned: grass or forest.
pub open spec fn spawn_terrain(t: Seq<char>) -> bool {
    t == "Grass"@ || t == "Forest"@
}

/// Whether creatures may be spawned on this terrain.
pub fn is_spawn_terrain(terrain: &String) -> (b: bool)
    ensures
        b == spawn_terrain(terrain@),
        b <==> (terrain@ == "Grass"@ || terrain@ == "Forest"@),
{
    let grass = String::from_str("Grass");
    let forest = String::from_str("Forest");
    *terrain == grass || *terrain == forest
}

/// Creatures spawn on grass and on forest, and on no other terrain.
pub proof fn law_spawn_terrain_is_grass_or_forest(t: Seq<char>)
    ensures
        spawn_terrain(t) <==> (t == "Grass"@ || t == "Forest"@),
        spawn_terrain("Grass"@),
        spawn_terrain("Forest"@),
{
}

/// A tile that a spawn search returns lies on grass or forest, can be
/// entered and has a terrain recorded.
pub proof fn law_spawn_tile_terrain(g: Map<IVec2, u32>, t: Map<IVec2, Seq<char>>, p: IVec2)
    ensures
        spawn_tile_ok(g, t, p) <==> (walkable_in(g, p) && t.contains_key(p) && (t[p] == "Grass"@ || t[p]
            == "Forest"@)),
{
}

/// A tile fit for a spawn: it can be entered and its terrain is grass or forest.
pub open spec fn spawn_tile_ok(g: Map<IVec2, u32>, t: Map<IVec2, Seq<char>>, p: IVec2) -> bool {
    walkable_in(g, p) && t.contains_key(p) && spawn_terrain(t[p])
}

/// The tile `offset` away from `center`.
pub open spec fn offset_tile(center: (i32, i32), offset: (i32, i32)) -> IVec2 {
    IVec2 { x: (center.0 + offset.0) as i32, y: (center.1 + offset.1) as i32 }
}

/// Every offset leads from `center` to a tile whose coordinates fit in `i32`.
pub open spec fn offsets_fit(center: (i32, i32), offsets: Seq<(i32, i32)>) -> bool {
    forall|i: int|
        0 <= i < offsets.len() ==> i32::MIN <= center.0 + (#[trigger] offsets[i]).0 <= i32::MAX
            && i32::MIN <= center.1 + offsets[i].1 <= i32::MAX
}

/// The first tile fit for a spawn among those that the offsets from index
/// `k` on lead to.
pub open spec fn first_spawn_tile(
    g: Map<IVec2, u32>,
    t: Map<IVec2, Seq<char>>,
    center: (i32, i32),
    offsets: Seq<(i32, i32)>,
    k: int,
) -> Option<IVec2>
    decreases offsets.len() - k,
{
    if k < 0 || k >= offsets.len() {
        None
    } else if spawn_tile_ok(g, t, offset_tile(center, offsets[k])) {
        Some(offset_tile(center, offsets[k]))
    } else {
        first_spawn_tile(g, t, center, offsets, k + 1)
    }
}

/// Number of attempts that `offsets` allow in `area`.
pub open spec fn attempts(area: SpawnArea, offsets: Seq<(i32, i32)>) -> int {
    if offsets.len() < area.max_attempts { offsets.len() as int } else { area.max_attempts as int }
}

proof fn lemma_first_spawn_tile(
    g: Map<IVec2, u32>,
    t: Map<IVec2, Seq<char>>,
    center: (i32, i32),
    offsets: Seq<(i32, i32)>,
    k: int,
)
    ensures
        first_spawn_tile(g, t, center, offsets, k) matches Some(p) ==> spawn_tile_ok(g, t, p) && exists|i: int|
            k <= i < offsets.len() && p == offset_tile(center, #[trigger] offsets[i]),
    decreases offsets.len() - k,
{
    if 0 <= k < offsets.len() {
        lemma_first_spawn_tile(g, t, center, offsets, k + 1);
    }
}

/// The spawn tile that the drawn offsets give in `area`: the first tile,
/// among those that the first `max_attempts` offsets lead to from the
/// area's center, that can be entered and lies on grass or forest.
pub fn spawn_position_from_offsets(
    area: &SpawnArea,
    grid: &PathfindingGrid,
    terrain: &TerrainMap,
    offsets: &Vec<(i32, i32)>,
) -> (r: Option<IVec2>)
    requires
        offsets_fit(area.center, offsets@),
    ensures
        r == first_spawn_tile(grid@, terrain@, area.center, offsets@.take(attempts(*area, offsets@)), 0),
{
    let n = if offsets.len() < area.max_attempts { offsets.len() } else { area.max_attempts };
    let ghost tried = offsets@.take(n as int);
    let mut i: usize = 0;
    while i < n
        invariant
            0 <= i <= n <= offsets.len(),
            tried == offsets@.take(n as int),
            n as int == attempts(*area, offsets@),
            offsets_fit(area.center, offsets@),
            first_spawn_tile(grid@, terrain@, area.center, tried, 0) == first_spawn_tile(
                grid@,
                terrain@,
                area.center,
                tried,
                i as int,
            ),
        decreases n - i,
    {
        let (dx, dy) = offsets[i];
        assert(tried[i as int] == offsets@[i as int]);
        let candidate = IVec2 { x: area.center.0 + dx, y: area.center.1 + dy };
        if grid.is_walkable(candidate) {
            match terrain.get_terrain_at(candidate.x, candidate.y) {
                Some(name) => {
                    if is_spawn_terrain(&name) {
                        assert(candidate == offset_tile(area.center, tried[i as int]));
                        assert(spawn_tile_ok(grid@, terrain@, candidate));
                        return Some(candidate);
                    }
                },
                None => {},
            }
        }
        i = i + 1;
    }
    None
}

/// Looks for a spawn tile in `area`: up to `max_attempts` random tiles of
/// the square of radius `search_radius` around the center are tried, and
/// the first that can be entered and lies on grass or forest is taken.
/// Which tiles are tried is left to chance: the result is what some
/// `max_attempts` draws of offsets in the square give; so a tile that
/// comes back is such a tile of the square, none comes back when no
/// attempt is allowed or the square has no such tile, and one always comes
/// back when an attempt is allowed and every tile of the square is such a
/// tile.
pub fn find_spawn_position(
    area: &SpawnArea,
    grid: &PathfindingGrid,
    terrain: &TerrainMap,
    rng: &mut ThreadRng,
) -> (r: Option<IVec2>)
    requires
        area.max_attempts > 0 ==> area.search_radius >= 0,
        area.max_attempts > 0 ==> i32::MIN <= area.center.0 - area.search_radius && area.center.0
            + area.search_radius <= i32::MAX && i32::MIN <= area.center.1 - area.search_radius
            && area.center.1 + area.search_radius <= i32::MAX,
    ensures
        r matches Some(p) ==> in_square(
            IVec2 { x: area.center.0, y: area.center.1 },
            area.search_radius as int,
            p,
        ) && spawn_tile_ok(grid@, terrain@, p),
        r matches Some(p) ==> terrain@.contains_key(p) && (terrain@[p] == "Grass"@ || terrain@[p] == "Forest"@),
        area.max_attempts == 0 ==> r is None,
        exists|offs: Seq<(i32, i32)>|
            offs.len() == area.max_attempts && offsets_within(offs, area.search_radius as int) && r
                == #[trigger] first_spawn_tile(grid@, terrain@, area.center, offs, 0),
        area.max_attempts > 0 && (forall|p: IVec2|
            #[trigger] in_square(IVec2 { x: area.center.0, y: area.center.1 }, area.search_radius as int, p)
                ==> spawn_tile_ok(grid@, terrain@, p)) ==> r is Some,
{
    let mut offsets: Vec<(i32, i32)> = Vec::new();
    let mut i: usize = 0;
    while i < area.max_attempts
        invariant
            0 <= i <= area.max_attempts,
            offsets.len() == i,
            area.max_attempts > 0 ==> area.search_radius >= 0,
            forall|k: int|
                0 <= k < offsets.len() ==> -area.search_radius <= (#[trigger] offsets@[k]).0
                    <= area.search_radius && -area.search_radius <= offsets@[k].1 <= area.search_radius,
        decreases area.max_attempts - i,
    {
        let dx = random_offset(rng, area.search_radius);
        let dy = random_offset(rng, area.search_radius);
        offsets.push((dx, dy));
        i = i + 1;
    }
    let r = spawn_position_from_offsets(area, grid, terrain, &offsets);
    proof {
        let tried = offsets@.take(attempts(*area, offsets@));
        lemma_first_spawn_tile(grid@, terrain@, area.center, tried, 0);
        match r {
            Some(p) => {
                let k = choose|k: int| 0 <= k < tried.len() && p == offset_tile(area.center, #[trigger] tried[k]);
                assert(tried[k] == offsets@[k]);
            },
            None => {},
        }
        assert(offsets@.take(attempts(*area, offsets@)) =~= offsets@);
        assert(offsets_within(offsets@, area.search_radius as int));
        let c = IVec2 { x: area.center.0, y: area.center.1 };
        if area.max_attempts > 0 && (forall|p: IVec2|
            #[trigger] in_square(c, area.search_radius as int, p) ==> spawn_tile_ok(grid@, terrain@, p)) {
            let p0 = offset_tile(area.center, offsets@[0]);
            assert(in_square(c, area.search_radius as int, p0));
        }
    }
    r
}


/// The sex a group gives its creature `i` (see `sex_for_entity`).
pub open spec fn group_sex(g: SpawnGroup, i: int) -> Option<Sex> {
    match g.sex_sequence {
        Some(v) => Some(
            match v@[i % v@.len() as int] {
                SpawnSex::Male => Sex::Male,
                SpawnSex::Female => Sex::Female,
            },
        ),
        None => None,
    }
}

/// What a spawn run can be asked for: every group's search square stays
/// inside the `i32` range when attempts are allowed, no sex sequence is
/// empty, and no count reaches `usize::MAX`.
pub open spec fn config_plannable(groups: Seq<SpawnGroup>) -> bool {
    forall|g: int|
        0 <= g < groups.len() ==> {
            let a = (#[trigger] groups[g]).spawn_area;
            &&& (a.max_attempts > 0 ==> a.search_radius >= 0 && i32::MIN <= a.center.0 - a.search_radius
                && a.center.0 + a.search_radius <= i32::MAX && i32::MIN <= a.center.1 - a.search_radius
                && a.center.1 + a.search_radius <= i32::MAX)
            &&& (groups[g].sex_sequence matches Some(v) ==> v@.len() > 0)
            &&& groups[g].count < usize::MAX
        }
}

/// A creature a spawn run places: its group and number in the group, its
/// species, name, sex and tile.
#[derive(Debug)]
pub struct PlannedSpawn {
    pub group_index: usize,
    pub entity_index: usize,
    pub species: String,
    pub name: String,
    pub sex: Option<Sex>,
    pub tile: IVec2,
}

/// `p` is what the run gives creature `p.entity_index` of group
/// `p.group_index`: the group's species, the name and sex that the
/// configuration assigns, and a walkable grass or forest tile of the
/// group's search square.
pub open spec fn planned_right(
    groups: Seq<SpawnGroup>,
    grid: Map<IVec2, u32>,
    terrain: Map<IVec2, Seq<char>>,
    p: PlannedSpawn,
) -> bool {
    let g = p.group_index as int;
    let i = p.entity_index as int;
    &&& 0 <= g < groups.len()
    &&& 0 <= i < groups[g].count
    &&& p.species@ == groups[g].species@
    &&& p.name@ == name_for(groups, g, i)
    &&& p.sex == group_sex(groups[g], i)
    &&& in_square(
        IVec2 { x: groups[g].spawn_area.center.0, y: groups[g].spawn_area.center.1 },
        groups[g].spawn_area.search_radius as int,
        p.tile,
    )
    &&& spawn_tile_ok(grid, terrain, p.tile)
}

/// Creature `i` of group `g` is among the placed creatures `r`.
pub open spec fn placed(r: Seq<PlannedSpawn>, g: int, i: int) -> bool {
    exists|k: int| 0 <= k < r.len() && (#[trigger] r[k]).group_index == g && r[k].entity_index == i
}

/// Creature (`g`, `i`) comes before creature (`h`, `j`): by group, then by
/// number.
pub open spec fn spawn_before(g: int, i: int, h: int, j: int) -> bool {
    g < h || (g == h && i < j)
}

/// Every tile of group `g`'s search square is a walkable grass or forest
/// tile, and an attempt is allowed: no draw can miss.
pub open spec fn group_always_fits(
    groups: Seq<SpawnGroup>,
    grid: Map<IVec2, u32>,
    terrain: Map<IVec2, Seq<char>>,
    g: int,
) -> bool {
    let a = groups[g].spawn_area;
    &&& a.max_attempts > 0
    &&& forall|p: IVec2|
        #[trigger] in_square(IVec2 { x: a.center.0, y: a.center.1 }, a.search_radius as int, p)
            ==> spawn_tile_ok(grid, terrain, p)
}

/// `o` is a possible result of `find_spawn_position` in `area`: what some
/// `max_attempts` draws within the search radius give.
pub open spec fn spawn_possible(
    area: SpawnArea,
    grid: Map<IVec2, u32>,
    terrain: Map<IVec2, Seq<char>>,
    o: Option<IVec2>,
) -> bool {
    exists|offs: Seq<(i32, i32)>|
        offs.len() == area.max_attempts && offsets_within(offs, area.search_radius as int) && o
            == #[trigger] first_spawn_tile(grid, terrain, area.center, offs, 0)
}

/// `o` holds one possible search outcome per creature of `group`.
pub open spec fn group_outcomes_ok(
    group: SpawnGroup,
    grid: Map<IVec2, u32>,
    terrain: Map<IVec2, Seq<char>>,
    o: Seq<Option<IVec2>>,
) -> bool {
    &&& o.len() == group.count
    &&& forall|i: int| 0 <= i < o.len() ==> #[trigger] spawn_possible(group.spawn_area, grid, terrain, o[i])
}

/// `outs` holds, group by group, one possible search outcome per creature.
pub open spec fn outcomes_possible(
    groups: Seq<SpawnGroup>,
    grid: Map<IVec2, u32>,
    terrain: Map<IVec2, Seq<char>>,
    outs: Seq<Seq<Option<IVec2>>>,
) -> bool {
    &&& outs.len() == groups.len()
    &&& forall|k: int| 0 <= k < outs.len() ==> #[trigger] group_outcomes_ok(groups[k], grid, terrain, outs[k])
}

/// The placements that the outcomes `o` of group `g` give: (group, number,
/// tile) for each creature whose search found a tile, in order.
pub open spec fn group_places(g: int, o: Seq<Option<IVec2>>) -> Seq<(int, int, IVec2)>
    decreases o.len(),
{
    if o.len() == 0 {
        Seq::empty()
    } else {
        let rest = group_places(g, o.drop_last());
        match o.last() {
            Some(t) => rest.push((g, o.len() - 1, t)),
            None => rest,
        }
    }
}

/// The placements that the outcomes of all groups give, group by group.
pub open spec fn all_places(outs: Seq<Seq<Option<IVec2>>>) -> Seq<(int, int, IVec2)>
    decreases outs.len(),
{
    if outs.len() == 0 {
        Seq::empty()
    } else {
        all_places(outs.drop_last()) + group_places(outs.len() - 1, outs.last())
    }
}

/// The group, number and tile of a placed creature.
pub open spec fn place_key(p: PlannedSpawn) -> (int, int, IVec2) {
    (p.group_index as int, p.entity_index as int, p.tile)
}

/// The creatures a spawn run places, group by group and in order within a
/// group: for each creature of each group a spawn tile is looked for
/// (`find_spawn_position`) and, when one is found, the creature is placed
/// there with its configured name and sex. Nothing is placed when spawning
/// is disabled. Which tiles come out is left to chance: the placements are
/// those that some possible outcome of each search gives, and a creature
/// is always placed when its group's square admits no miss.
pub fn plan_config_spawns(
    config: &SpawnConfig,
    grid: &PathfindingGrid,
    terrain: &TerrainMap,
    rng: &mut ThreadRng,
) -> (r: Vec<PlannedSpawn>)
    requires
        config_plannable(config.spawn_groups@),
    ensures
        !config.settings.enable_spawning ==> r@.len() == 0,
        forall|k: int| 0 <= k < r@.len() ==> planned_right(config.spawn_groups@, grid@, terrain@, #[trigger] r@[k]),
        forall|k: int, l: int|
            0 <= k < l < r@.len() ==> spawn_before(
                r@[k].group_index as int,
                r@[k].entity_index as int,
                r@[l].group_index as int,
                r@[l].entity_index as int,
            ),
        config.settings.enable_spawning ==> forall|g: int, i: int|
            0 <= g < config.spawn_groups@.len() && 0 <= i < config.spawn_groups@[g].count && group_always_fits(
                config.spawn_groups@,
                grid@,
                terrain@,
                g,
            ) ==> #[trigger] placed(r@, g, i),
        config.settings.enable_spawning ==> exists|outs: Seq<Seq<Option<IVec2>>>|
            #[trigger] outcomes_possible(config.spawn_groups@, grid@, terrain@, outs) && r@.map_values(
                |p: PlannedSpawn| place_key(p),
            ) == all_places(outs),
{
    let mut out: Vec<PlannedSpawn> = Vec::new();
    if !config.settings.enable_spawning {
        return out;
    }
    let ghost groups = config.spawn_groups@;
    let ghost mut done: Seq<Seq<Option<IVec2>>> = Seq::empty();
    proof {
        assert(out@.map_values(|p: PlannedSpawn| place_key(p)) =~= all_places(done));
    }
    let mut gi: usize = 0;
    while gi < config.spawn_groups.len()
        invariant
            done.len() == gi,
            forall|k: int| 0 <= k < done.len() ==> #[trigger] group_outcomes_ok(groups[k], grid@, terrain@, done[k]),
            out@.map_values(|p: PlannedSpawn| place_key(p)) == all_places(done),
            groups == config.spawn_groups@,
            config.settings.enable_spawning,
            config_plannable(groups),
            0 <= gi <= groups.len(),
            forall|k: int| 0 <= k < out@.len() ==> planned_right(groups, grid@, terrain@, #[trigger] out@[k]),
            forall|k: int| 0 <= k < out@.len() ==> (#[trigger] out@[k]).group_index < gi,
            forall|k: int, l: int|
                0 <= k < l < out@.len() ==> spawn_before(
                    out@[k].group_index as int,
                    out@[k].entity_index as int,
                    out@[l].group_index as int,
                    out@[l].entity_index as int,
                ),
            forall|g: int, i: int|
                0 <= g < gi && 0 <= i < groups[g].count && group_always_fits(groups, grid@, terrain@, g)
                    ==> #[trigger] placed(out@, g, i),
        decreases groups.len() - gi,
    {
        let group = &config.spawn_groups[gi];
        proof {
            assert(groups[gi as int] == *group);
        }
        let ghost mut cur: Seq<Option<IVec2>> = Seq::empty();
        proof {
            assert(group_places(gi as int, cur) =~= Seq::<(int, int, IVec2)>::empty());
            assert(all_places(done) + group_places(gi as int, cur) =~= all_places(done));
        }
        let mut ei: usize = 0;
        while ei < group.count
            invariant
                done.len() == gi,
                forall|k: int| 0 <= k < done.len() ==> #[trigger] group_outcomes_ok(groups[k], grid@, terrain@, done[k]),
                cur.len() == ei,
                forall|i: int| 0 <= i < cur.len() ==> #[trigger] spawn_possible(group.spawn_area, grid@, terrain@, cur[i]),
                out@.map_values(|p: PlannedSpawn| place_key(p)) == all_places(done) + group_places(gi as int, cur),
                groups == config.spawn_groups@,
                config_plannable(groups),
                0 <= gi < groups.len(),
                *group == groups[gi as int],
                0 <= ei <= group.count,
                forall|k: int| 0 <= k < out@.len() ==> planned_right(groups, grid@, terrain@, #[trigger] out@[k]),
                forall|k: int|
                    0 <= k < out@.len() ==> spawn_before(
                        (#[trigger] out@[k]).group_index as int,
                        out@[k].entity_index as int,
                        gi as int,
                        ei as int,
                    ),
                forall|k: int, l: int|
                    0 <= k < l < out@.len() ==> spawn_before(
                        out@[k].group_index as int,
                        out@[k].entity_index as int,
                        out@[l].group_index as int,
                        out@[l].entity_index as int,
                    ),
                forall|g: int, i: int|
                    0 <= g < gi && 0 <= i < groups[g].count && group_always_fits(groups, grid@, terrain@, g)
                        ==> #[trigger] placed(out@, g, i),
                forall|i: int|
                    0 <= i < ei && group_always_fits(groups, grid@, terrain@, gi as int)
                        ==> #[trigger] placed(out@, gi as int, i),
            decreases group.count - ei,
        {
            proof {
                assert(groups[gi as int] == *group);
            }
            let found = find_spawn_position(&group.spawn_area, grid, terrain, rng);
            let ghost prev_cur = cur;
            let ghost keys_before = out@.map_values(|p: PlannedSpawn| place_key(p));
            proof {
                assert(spawn_possible(group.spawn_area, grid@, terrain@, found));
                cur = cur.push(found);
                assert(cur.drop_last() =~= prev_cur);
                assert forall|i: int| 0 <= i < cur.len() implies #[trigger] spawn_possible(
                    group.spawn_area,
                    grid@,
                    terrain@,
                    cur[i],
                ) by {
                    if i < prev_cur.len() {
                        assert(cur[i] == prev_cur[i]);
                    }
                }
            }
            match found {
                Some(tile) => {
                    let name = config.get_name_for_group(gi, ei);
                    let sex = sex_for_entity(group, ei);
                    let species = group.species.clone();
                    let p = PlannedSpawn { group_index: gi, entity_index: ei, species, name, sex, tile };
                    let ghost before = out@;
                    let ghost pg = p;
                    out.push(p);
                    proof {
                        assert(out@ == before.push(pg));
                        assert(out@.map_values(|p: PlannedSpawn| place_key(p)) =~= keys_before.push(place_key(pg)));
                        assert(group_places(gi as int, cur) == group_places(gi as int, prev_cur).push(
                            (gi as int, ei as int, tile),
                        ));
                        assert(out@.map_values(|p: PlannedSpawn| place_key(p)) =~= all_places(done) + group_places(
                            gi as int,
                            cur,
                        ));
                        assert(planned_right(groups, grid@, terrain@, pg));
                        assert forall|k: int| 0 <= k < out@.len() implies planned_right(
                            groups,
                            grid@,
                            terrain@,
                            #[trigger] out@[k],
                        ) by {
                            if k < before.len() {
                                assert(out@[k] == before[k]);
                            }
                        }
                        assert forall|k: int|
                            0 <= k < out@.len() implies spawn_before(
                            (#[trigger] out@[k]).group_index as int,
                            out@[k].entity_index as int,
                            gi as int,
                            ei + 1,
                        ) by {
                            if k < before.len() {
                                assert(out@[k] == before[k]);
                            }
                        }
                        assert forall|k: int, l: int|
                            0 <= k < l < out@.len() implies spawn_before(
                            out@[k].group_index as int,
                            out@[k].entity_index as int,
                            out@[l].group_index as int,
                            out@[l].entity_index as int,
                        ) by {
                            assert(out@[k] == before[k]);
                            if l < before.len() {
                                assert(out@[l] == before[l]);
                            }
                        }
                        assert forall|g: int, i: int|
                            0 <= g < gi && 0 <= i < groups[g].count && group_always_fits(groups, grid@, terrain@, g)
                                implies #[trigger] placed(out@, g, i) by {
                            assert(placed(before, g, i));
                            let k = choose|k: int| 0 <= k < before.len() && (#[trigger] before[k]).group_index == g && before[k].entity_index == i;
                            assert(out@[k] == before[k]);
                            assert(out@[k].group_index == g && out@[k].entity_index == i);
                        }
                        assert forall|i: int|
                            0 <= i < ei + 1 && group_always_fits(groups, grid@, terrain@, gi as int)
                                implies #[trigger] placed(out@, gi as int, i) by {
                            if i < ei {
                                assert(placed(before, gi as int, i));
                                let k = choose|k: int| 0 <= k < before.len() && (#[trigger] before[k]).group_index == gi && before[k].entity_index == i;
                                assert(out@[k] == before[k]);
                                assert(out@[k].group_index == gi && out@[k].entity_index == i);
                            } else {
                                assert(out@[before.len() as int] == pg);
                                assert(out@[before.len() as int].group_index == gi && out@[before.len() as int].entity_index == i);
                            }
                        }
                    }
                },
                None => {
                    proof {
                        assert(!group_always_fits(groups, grid@, terrain@, gi as int));
                        assert forall|k: int|
                            0 <= k < out@.len() implies spawn_before(
                            (#[trigger] out@[k]).group_index as int,
                            out@[k].entity_index as int,
                            gi as int,
                            ei + 1,
                        ) by {}
                    }
                },
            }
            proof {
                if found is None {
                    assert(group_places(gi as int, cur) == group_places(gi as int, prev_cur));
                }
            }
            ei = ei + 1;
        }
        proof {
            assert forall|k: int| 0 <= k < out@.len() implies (#[trigger] out@[k]).group_index < gi + 1 by {}
            let prev_done = done;
            assert(groups[gi as int] == *group);
            assert(group_outcomes_ok(groups[gi as int], grid@, terrain@, cur));
            done = done.push(cur);
            assert(done.drop_last() =~= prev_done);
            assert(all_places(done) == all_places(prev_done) + group_places(gi as int, cur));
            assert forall|k: int| 0 <= k < done.len() implies #[trigger] group_outcomes_ok(
                groups[k],
                grid@,
                terrain@,
                done[k],
            ) by {
                if k < prev_done.len() {
                    assert(done[k] == prev_done[k]);
                }
            }
        }
        gi = gi + 1;
    }
    proof {
        assert(outcomes_possible(groups, grid@, terrain@, done));
    }
    out
}

} // verus!
