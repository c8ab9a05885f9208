use vstd::prelude::*;
use rand::rngs::ThreadRng;
use vstd::string::StringExecFns;
use crate::entities::spawn_config::{append_decimal, numbered};
use crate::entities::wandering::{in_square, pick_possible, pick_random_walkable_tile, picks_possible, somes, square_has_walkable};
use crate::geometry::IVec2;
use crate::pathfinding::grid::{PathfindingGrid, walkable_in};

verus! {

/// What the program needs to know of a species to spawn, move and show
/// its creatures. The viewer scale is kept in hundredths (120 stands for
/// 1.2).
#[derive(Debug, Clone, Copy)]
pub struct SpeciesDescriptor {
    pub species: &'static str,
    pub name_prefix: &'static str,
    pub emoji: &'static str,
    /// Ticks per tile.
    pub movement_speed: u32,
    pub wander_radius: i32,
    pub is_juvenile: bool,
    pub juvenile_name_prefix: Option<&'static str>,
    /// Lower is drawn first (behind).
    pub viewer_order: i32,
    pub viewer_scale_percent: u32,
    pub viewer_color: &'static str,
}

/// The species of the simulation, in registry order: humans, rabbits,
/// deer, raccoons, bears, foxes and wolves.
pub open spec fn species_table() -> Seq<SpeciesDescriptor> {
    seq![
        SpeciesDescriptor {
            species: "Human",
            name_prefix: "Person",
            emoji: "🧍‍♂️",
            movement_speed: 30,
            wander_radius: 30,
            is_juvenile: false,
            juvenile_name_prefix: None,
            viewer_order: 100,
            viewer_scale_percent: 120,
            viewer_color: "#4a90e2",
        },
        SpeciesDescriptor {
            species: "Rabbit",
            name_prefix: "Rabbit",
            emoji: "🐇",
            movement_speed: 20,
            wander_radius: 15,
            is_juvenile: false,
            juvenile_name_prefix: Some("Bunny"),
            viewer_order: 50,
            viewer_scale_percent: 50,
            viewer_color: "#8b4513",
        },
        SpeciesDescriptor {
            species: "Deer",
            name_prefix: "Deer",
            emoji: "🦌",
            movement_speed: 10,
            wander_radius: 40,
            is_juvenile: false,
            juvenile_name_prefix: Some("Fawn"),
            viewer_order: 60,
            viewer_scale_percent: 90,
            viewer_color: "#a0522d",
        },
        SpeciesDescriptor {
            species: "Raccoon",
            name_prefix: "Raccoon",
            emoji: "🦝",
            movement_speed: 16,
            wander_radius: 25,
            is_juvenile: false,
            juvenile_name_prefix: Some("Kit"),
            viewer_order: 55,
            viewer_scale_percent: 65,
            viewer_color: "#696969",
        },
        SpeciesDescriptor {
            species: "Bear",
            name_prefix: "Bear",
            emoji: "🐻",
            movement_speed: 12,
            wander_radius: 80,
            is_juvenile: false,
            juvenile_name_prefix: Some("Cub"),
            viewer_order: 70,
            viewer_scale_percent: 120,
            viewer_color: "#3b2f2f",
        },
        SpeciesDescriptor {
            species: "Fox",
            name_prefix: "Fox",
            emoji: "🦊",
            movement_speed: 16,
            wander_radius: 40,
            is_juvenile: false,
            juvenile_name_prefix: Some("Kit"),
            viewer_order: 65,
            viewer_scale_percent: 60,
            viewer_color: "#c1440e",
        },
        SpeciesDescriptor {
            species: "Wolf",
            name_prefix: "Wolf",
            emoji: "🐺",
            movement_speed: 12,
            wander_radius: 200,
            is_juvenile: false,
            juvenile_name_prefix: Some("Pup"),
            viewer_order: 80,
            viewer_scale_percent: 90,
            viewer_color: "#666666",
        },
    ]
}

/// Index of the first descriptor of `s` for `species`.
pub open spec fn first_descriptor(s: Seq<SpeciesDescriptor>, species: Seq<char>) -> Option<int>
    decreases s.len(),
{
    if s.len() == 0 {
        None
    } else {
        match first_descriptor(s.drop_last(), species) {
            Some(i) => Some(i),
            None => if s.last().species@ == species {
                Some(s.len() - 1)
            } else {
                None
            },
        }
    }
}

proof fn lemma_first_descriptor_prefix(s: Seq<SpeciesDescriptor>, n: int, species: Seq<char>)
    requires
        0 < n <= s.len(),
        first_descriptor(s.take(n - 1), species) is None,
        s[n - 1].species@ == species,
    ensures
        first_descriptor(s, species) == Some(n - 1),
    decreases s.len(),
{
    if n < s.len() {
        assert(s.drop_last().take(n - 1) =~= s.take(n - 1));
        assert(s.drop_last()[n - 1] == s[n - 1]);
        lemma_first_descriptor_prefix(s.drop_last(), n, species);
    } else {
        assert(s.drop_last() =~= s.take(n - 1));
    }
}

/// Every index found by `first_descriptor` holds the name looked up, and
/// `None` means that no descriptor has it.
proof fn lemma_first_descriptor(s: Seq<SpeciesDescriptor>, species: Seq<char>)
    ensures
        match first_descriptor(s, species) {
            Some(i) => 0 <= i < s.len() && s[i].species@ == species && forall|j: int|
                0 <= j < i ==> #[trigger] s[j].species@ != species,
            None => forall|j: int| 0 <= j < s.len() ==> #[trigger] s[j].species@ != species,
        },
    decreases s.len(),
{
    if s.len() > 0 {
        let p = s.drop_last();
        lemma_first_descriptor(p, species);
        assert forall|j: int| 0 <= j < p.len() implies #[trigger] s[j] == p[j] by {}
    }
}

/// In the full registry no two species share a name; looking up the name
/// of a descriptor finds that descriptor, and any other name finds none.
pub proof fn law_registry_lookup(name: Seq<char>)
    ensures
        forall|i: int, j: int|
            0 <= i < j < species_table().len() ==> species_table()[i].species@ != species_table()[j].species@,
        forall|i: int|
            0 <= i < species_table().len() ==> first_descriptor(species_table(), #[trigger] species_table()[i].species@)
                == Some(i),
        (forall|i: int| 0 <= i < species_table().len() ==> #[trigger] species_table()[i].species@ != name)
            ==> first_descriptor(species_table(), name) is None,
{
    reveal_strlit("Human");
    reveal_strlit("Rabbit");
    reveal_strlit("Deer");
    reveal_strlit("Raccoon");
    reveal_strlit("Bear");
    reveal_strlit("Fox");
    reveal_strlit("Wolf");
    let t = species_table();
    assert(t.len() == 7);
    assert forall|i: int, j: int| 0 <= i < j < t.len() implies t[i].species@ != t[j].species@ by {
        if t[i].species@ == t[j].species@ {
            assert(t[i].species@.len() == t[j].species@.len());
            assert(t[i].species@[0] == t[j].species@[0]);
        }
    }
    assert forall|i: int| 0 <= i < t.len() implies first_descriptor(t, #[trigger] t[i].species@) == Some(i) by {
        lemma_first_descriptor(t, t[i].species@);
        match first_descriptor(t, t[i].species@) {
            Some(k) => {
                if k < i {
                    assert(t[k].species@ != t[i].species@);
                } else if k > i {
                    assert(t[i].species@ != t[i].species@);
                }
            },
            None => {
                assert(t[i].species@ != t[i].species@);
            },
        }
    }
    lemma_first_descriptor(t, name);
    if forall|i: int| 0 <= i < t.len() ==> #[trigger] t[i].species@ != name {
        match first_descriptor(t, name) {
            Some(k) => {
                assert(t[k].species@ != name);
            },
            None => {},
        }
    }
}

/// The registry of the species that can be spawned.
pub struct SpeciesRegistry {
    descriptors: Vec<SpeciesDescriptor>,
}

impl SpeciesRegistry {
    pub closed spec fn descriptors_view(&self) -> Seq<SpeciesDescriptor> {
        self.descriptors@
    }

    /// The registry of all species of the simulation (`species_table`).
    pub fn new() -> (r: SpeciesRegistry)
        ensures
            r.descriptors_view() == species_table(),
    {
        let descriptors: Vec<SpeciesDescriptor> = vec![
            SpeciesDescriptor {
                species: "Human",
                name_prefix: "Person",
                emoji: "🧍‍♂️",
                movement_speed: 30,
                wander_radius: 30,
                is_juvenile: false,
                juvenile_name_prefix: None,
                viewer_order: 100,
                viewer_scale_percent: 120,
                viewer_color: "#4a90e2",
            },
            SpeciesDescriptor {
                species: "Rabbit",
                name_prefix: "Rabbit",
                emoji: "🐇",
                movement_speed: 20,
                wander_radius: 15,
                is_juvenile: false,
                juvenile_name_prefix: Some("Bunny"),
                viewer_order: 50,
                viewer_scale_percent: 50,
                viewer_color: "#8b4513",
            },
            SpeciesDescriptor {
                species: "Deer",
                name_prefix: "Deer",
                emoji: "🦌",
                movement_speed: 10,
                wander_radius: 40,
                is_juvenile: false,
                juvenile_name_prefix: Some("Fawn"),
                viewer_order: 60,
                viewer_scale_percent: 90,
                viewer_color: "#a0522d",
            },
            SpeciesDescriptor {
                species: "Raccoon",
                name_prefix: "Raccoon",
                emoji: "🦝",
                movement_speed: 16,
                wander_radius: 25,
                is_juvenile: false,
                juvenile_name_prefix: Some("Kit"),
                viewer_order: 55,
                viewer_scale_percent: 65,
                viewer_color: "#696969",
            },
            SpeciesDescriptor {
                species: "Bear",
                name_prefix: "Bear",
                emoji: "🐻",
                movement_speed: 12,
                wander_radius: 80,
                is_juvenile: false,
                juvenile_name_prefix: Some("Cub"),
                viewer_order: 70,
                viewer_scale_percent: 120,
                viewer_color: "#3b2f2f",
            },
            SpeciesDescriptor {
                species: "Fox",
                name_prefix: "Fox",
                emoji: "🦊",
                movement_speed: 16,
                wander_radius: 40,
                is_juvenile: false,
                juvenile_name_prefix: Some("Kit"),
                viewer_order: 65,
                viewer_scale_percent: 60,
                viewer_color: "#c1440e",
            },
            SpeciesDescriptor {
                species: "Wolf",
                name_prefix: "Wolf",
                emoji: "🐺",
                movement_speed: 12,
                wander_radius: 200,
                is_juvenile: false,
                juvenile_name_prefix: Some("Pup"),
                viewer_order: 80,
                viewer_scale_percent: 90,
                viewer_color: "#666666",
            },
        ];
        let r = SpeciesRegistry { descriptors };
        assert(r.descriptors_view() =~= species_table());
        r
    }

    pub fn get_descriptors(&self) -> (r: &[SpeciesDescriptor])
        ensures
            r@ == self.descriptors_view(),
    {
        self.descriptors.as_slice()
    }

    /// The first descriptor for a species.
    pub fn find_by_species(&self, species: &str) -> (r: Option<&SpeciesDescriptor>)
        ensures
            match first_descriptor(self.descriptors_view(), species@) {
                Some(i) => r == Some(&self.descriptors_view()[i]),
                None => r is None,
            },
    {
        let wanted = species.to_string();
        let mut i: usize = 0;
        while i < self.descriptors.len()
            invariant
                0 <= i <= self.descriptors@.len(),
                wanted@ == species@,
                first_descriptor(self.descriptors@.take(i as int), species@) is None,
            decreases self.descriptors@.len() - i,
        {
            proof {
                assert(self.descriptors@.take(i + 1).drop_last() =~= self.descriptors@.take(i as int));
            }
            let name = self.descriptors[i].species.to_string();
            if name == wanted {
                proof {
                    lemma_first_descriptor_prefix(self.descriptors@, i as int + 1, species@);
                }
                return Some(&self.descriptors[i]);
            }
            i = i + 1;
        }
        proof {
            assert(self.descriptors@.take(self.descriptors@.len() as int) =~= self.descriptors@);
        }
        None
    }

    /// The human descriptor of the full registry.
    pub fn human(&self) -> (d: &SpeciesDescriptor)
        requires
            self.descriptors_view() == species_table(),
        ensures
            *d == species_table()[0],
    {
        &self.descriptors[0]
    }

    /// The rabbit descriptor of the full registry.
    pub fn rabbit(&self) -> (d: &SpeciesDescriptor)
        requires
            self.descriptors_view() == species_table(),
        ensures
            *d == species_table()[1],
    {
        &self.descriptors[1]
    }

    /// The deer descriptor of the full registry.
    pub fn deer(&self) -> (d: &SpeciesDescriptor)
        requires
            self.descriptors_view() == species_table(),
        ensures
            *d == species_table()[2],
    {
        &self.descriptors[2]
    }

    /// The raccoon descriptor of the full registry.
    pub fn raccoon(&self) -> (d: &SpeciesDescriptor)
        requires
            self.descriptors_view() == species_table(),
        ensures
            *d == species_table()[3],
    {
        &self.descriptors[3]
    }

    /// The wolf descriptor of the full registry.
    pub fn wolf(&self) -> (d: &SpeciesDescriptor)
        requires
            self.descriptors_view() == species_table(),
        ensures
            *d == species_table()[6],
    {
        &self.descriptors[6]
    }
    /// The creatures of a batch of `count` of `species` spawned around
    /// `center`: when the square of radius `spawn_radius` around `center`
    /// has a tile that can be entered, creature `i` (from 0) is named after
    /// the species' name prefix, `_` and `i`, and stands on such a tile
    /// (which one is left to chance); otherwise none is spawned.
    pub fn plan_species_batch(
        &self,
        species: &str,
        count: usize,
        center: IVec2,
        spawn_radius: i32,
        grid: &PathfindingGrid,
        rng: &mut ThreadRng,
    ) -> (r: Vec<(String, IVec2)>)
        requires
            first_descriptor(self.descriptors_view(), species@) is Some,
            spawn_radius >= 0,
            i32::MIN <= center.x - spawn_radius,
            center.x + spawn_radius <= i32::MAX,
            i32::MIN <= center.y - spawn_radius,
            center.y + spawn_radius <= i32::MAX,
        ensures
            r@.len() == if square_has_walkable(grid@, center, spawn_radius as int) {
                count as int
            } else {
                0
            },
            forall|i: int|
                0 <= i < r@.len() ==> {
                    &&& (#[trigger] r@[i]).0@ == numbered(
                        self.descriptors_view()[first_descriptor(self.descriptors_view(), species@).unwrap()].name_prefix@,
                        i as nat,
                    )
                    &&& in_square(center, spawn_radius as int, r@[i].1)
                    &&& walkable_in(grid@, r@[i].1)
                },
            exists|outs: Seq<Option<IVec2>>|
                outs.len() == count && picks_possible(grid@, center, spawn_radius as int, outs)
                    && r@.map_values(|e: (String, IVec2)| e.1) == #[trigger] somes(outs),
    {
        let d = match self.find_by_species(species) {
            Some(d) => d,
            None => {
                return Vec::new();
            },
        };
        let ghost prefix = d.name_prefix@;
        let ghost has = square_has_walkable(grid@, center, spawn_radius as int);
        let mut out: Vec<(String, IVec2)> = Vec::new();
        let ghost mut outs: Seq<Option<IVec2>> = Seq::empty();
        proof {
            assert(out@.map_values(|e: (String, IVec2)| e.1) =~= somes(outs));
        }
        let mut i: usize = 0;
        while i < count
            invariant
                0 <= i <= count,
                outs.len() == i,
                picks_possible(grid@, center, spawn_radius as int, outs),
                out@.map_values(|e: (String, IVec2)| e.1) == somes(outs),
                spawn_radius >= 0,
                i32::MIN <= center.x - spawn_radius,
                center.x + spawn_radius <= i32::MAX,
                i32::MIN <= center.y - spawn_radius,
                center.y + spawn_radius <= i32::MAX,
                has == square_has_walkable(grid@, center, spawn_radius as int),
                prefix == d.name_prefix@,
                out@.len() == if has { i as int } else { 0 },
                forall|j: int|
                    0 <= j < out@.len() ==> {
                        &&& (#[trigger] out@[j]).0@ == numbered(prefix, j as nat)
                        &&& in_square(center, spawn_radius as int, out@[j].1)
                        &&& walkable_in(grid@, out@[j].1)
                    },
            decreases count - i,
        {
            let pick = pick_random_walkable_tile(center, spawn_radius, grid, rng);
            let ghost prev_outs = outs;
            proof {
                assert(pick_possible(grid@, center, spawn_radius as int, pick));
                outs = outs.push(pick);
                assert(outs.drop_last() =~= prev_outs);
                assert forall|j: int| 0 <= j < outs.len() implies #[trigger] pick_possible(
                    grid@,
                    center,
                    spawn_radius as int,
                    outs[j],
                ) by {
                    if j < prev_outs.len() {
                        assert(outs[j] == prev_outs[j]);
                    }
                }
            }
            match pick {
                Some(pos) => {
                    let mut name = String::from_str(d.name_prefix);
                    name.append("_");
                    proof {
                        reveal_strlit("_");
                    }
                    append_decimal(&mut name, i as u64);
                    let ghost before = out@;
                    proof {
                        assert(name@ =~= numbered(prefix, i as nat));
                    }
                    out.push((name, pos));
                    proof {
                        assert(out@.map_values(|e: (String, IVec2)| e.1) =~= before.map_values(
                            |e: (String, IVec2)| e.1,
                        ).push(pos));
                        assert forall|j: int| 0 <= j < out@.len() implies {
                            &&& (#[trigger] out@[j]).0@ == numbered(prefix, j as nat)
                            &&& in_square(center, spawn_radius as int, out@[j].1)
                            &&& walkable_in(grid@, out@[j].1)
                        } by {
                            if j < before.len() {
                                assert(out@[j] == before[j]);
                            }
                        }
                    }
                },
                None => {},
            }
            i = i + 1;
        }
        out
    }
}

} // verus!
