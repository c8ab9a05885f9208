use vstd::prelude::*;

verus! {

/// Which per-species systems a species has.
#[derive(Debug, Clone, Copy)]
pub struct SpeciesSystemsDescriptor {
    pub species: &'static str,
    pub has_mate_matching: bool,
    pub has_birth_system: bool,
    pub has_planner_system: bool,
}

impl SpeciesSystemsDescriptor {
    /// A species with no system yet.
    pub fn new(species: &'static str) -> (d: SpeciesSystemsDescriptor)
        ensures
            d.species@ == species@,
            !d.has_mate_matching,
            !d.has_birth_system,
            !d.has_planner_system,
    {
        SpeciesSystemsDescriptor { species, has_mate_matching: false, has_birth_system: false, has_planner_system: false }
    }

    pub fn with_mate_matching(self) -> (d: SpeciesSystemsDescriptor)
        ensures
            d.species@ == self.species@,
            d.has_mate_matching,
            d.has_birth_system == self.has_birth_system,
            d.has_planner_system == self.has_planner_system,
    {
        let mut d = self;
        d.has_mate_matching = true;
        d
    }

    pub fn with_birth_system(self) -> (d: SpeciesSystemsDescriptor)
        ensures
            d.species@ == self.species@,
            d.has_mate_matching == self.has_mate_matching,
            d.has_birth_system,
            d.has_planner_system == self.has_planner_system,
    {
        let mut d = self;
        d.has_birth_system = true;
        d
    }

    pub fn with_planner_system(self) -> (d: SpeciesSystemsDescriptor)
        ensures
            d.species@ == self.species@,
            d.has_mate_matching == self.has_mate_matching,
            d.has_birth_system == self.has_birth_system,
            d.has_planner_system,
    {
        let mut d = self;
        d.has_planner_system = true;
        d
    }
}

/// Kind of per-species system.
#[derive(Debug, Clone, Copy, PartialEq, Eq, Structural)]
pub enum SystemKind {
    MateMatching,
    Birth,
    Planner,
}

/// Whether a descriptor lists a system of kind `k`.
pub open spec fn has_kind(d: SpeciesSystemsDescriptor, k: SystemKind) -> bool {
    match k {
        SystemKind::MateMatching => d.has_mate_matching,
        SystemKind::Birth => d.has_birth_system,
        SystemKind::Planner => d.has_planner_system,
    }
}

/// The species of the descriptors of `s` that list kind `k`, in order.
pub open spec fn species_with(s: Seq<SpeciesSystemsDescriptor>, k: SystemKind) -> Seq<Seq<char>>
    decreases s.len(),
{
    if s.len() == 0 {
        Seq::empty()
    } else if has_kind(s.last(), k) {
        species_with(s.drop_last(), k).push(s.last().species@)
    } else {
        species_with(s.drop_last(), k)
    }
}

/// Index of the first descriptor of `s` for `species`.
pub open spec fn first_for(s: Seq<SpeciesSystemsDescriptor>, species: Seq<char>) -> Option<int>
    decreases s.len(),
{
    if s.len() == 0 {
        None
    } else {
        match first_for(s.drop_last(), species) {
            Some(i) => Some(i),
            None => if s.last().species@ == species {
                Some(s.len() - 1)
            } else {
                None
            },
        }
    }
}

/// The species and the systems they run: rabbits, deer and raccoons, each
/// with mate matching, births and action planning.
pub struct SpeciesSystemsRegistry {
    descriptors: Vec<SpeciesSystemsDescriptor>,
}

impl SpeciesSystemsRegistry {
    pub closed spec fn descriptors_view(&self) -> Seq<SpeciesSystemsDescriptor> {
        self.descriptors@
    }

    pub fn new() -> (r: SpeciesSystemsRegistry)
        ensures
            r.descriptors_view().len() == 3,
            r.descriptors_view()[0].species@ == "Rabbit"@,
            r.descriptors_view()[1].species@ == "Deer"@,
            r.descriptors_view()[2].species@ == "Raccoon"@,
            forall|i: int, k: SystemKind| 0 <= i < 3 ==> #[trigger] has_kind(r.descriptors_view()[i], k),
    {
        let mut descriptors: Vec<SpeciesSystemsDescriptor> = Vec::new();
        descriptors.push(SpeciesSystemsDescriptor::new("Rabbit").with_mate_matching().with_birth_system().with_planner_system());
        descriptors.push(SpeciesSystemsDescriptor::new("Deer").with_mate_matching().with_birth_system().with_planner_system());
        descriptors.push(SpeciesSystemsDescriptor::new("Raccoon").with_mate_matching().with_birth_system().with_planner_system());
        SpeciesSystemsRegistry { descriptors }
    }

    pub fn get_descriptors(&self) -> (r: &[SpeciesSystemsDescriptor])
        ensures
            r@ == self.descriptors_view(),
    {
        self.descriptors.as_slice()
    }

    /// The species with systems of kind `k`, in order.
    fn species_with_kind(&self, k: SystemKind) -> (r: Vec<&'static str>)
        ensures
            r@.map_values(|s: &'static str| s@) == species_with(self.descriptors@, k),
    {
        let mut out: Vec<&'static str> = Vec::new();
        let mut i: usize = 0;
        while i < self.descriptors.len()
            invariant
                0 <= i <= self.descriptors@.len(),
                out@.map_values(|s: &'static str| s@) == species_with(self.descriptors@.take(i as int), k),
            decreases self.descriptors@.len() - i,
        {
            let d = self.descriptors[i];
            proof {
                assert(self.descriptors@.take(i + 1).drop_last() =~= self.descriptors@.take(i as int));
                assert(self.descriptors@.take(i + 1).last() == d);
            }
            let listed = match k {
                SystemKind::MateMatching => d.has_mate_matching,
                SystemKind::Birth => d.has_birth_system,
                SystemKind::Planner => d.has_planner_system,
            };
            let ghost before = out@;
            if listed {
                out.push(d.species);
                proof {
                    assert(out@.map_values(|s: &'static str| s@) =~= before.map_values(|s: &'static str| s@).push(d.species@));
                }
            }
            i = i + 1;
        }
        proof {
            assert(self.descriptors@.take(self.descriptors@.len() as int) =~= self.descriptors@);
        }
        out
    }

    pub fn get_species_with_mate_matching(&self) -> (r: Vec<&'static str>)
        ensures
            r@.map_values(|s: &'static str| s@) == species_with(self.descriptors_view(), SystemKind::MateMatching),
    {
        self.species_with_kind(SystemKind::MateMatching)
    }

    pub fn get_species_with_birth_systems(&self) -> (r: Vec<&'static str>)
        ensures
            r@.map_values(|s: &'static str| s@) == species_with(self.descriptors_view(), SystemKind::Birth),
    {
        self.species_with_kind(SystemKind::Birth)
    }

    pub fn get_species_with_planner_systems(&self) -> (r: Vec<&'static str>)
        ensures
            r@.map_values(|s: &'static str| s@) == species_with(self.descriptors_view(), SystemKind::Planner),
    {
        self.species_with_kind(SystemKind::Planner)
    }

    /// The first descriptor for a species.
    pub fn find_by_species(&self, species: &str) -> (r: Option<&SpeciesSystemsDescriptor>)
        ensures
            match first_for(self.descriptors_view(), species@) {
                Some(i) => r == Some(&self.descriptors_view()[i]),
                None => r is None,
            },
    {
        let wanted = species.to_string();
        let mut i: usize = 0;
        while i < self.descriptors.len()
            invariant
                0 <= i <= self.descriptors@.len(),
                wanted@ == species@,
                first_for(self.descriptors@.take(i as int), species@) is None,
            decreases self.descriptors@.len() - i,
        {
            proof {
                assert(self.descriptors@.take(i + 1).drop_last() =~= self.descriptors@.take(i as int));
            }
            let name = self.descriptors[i].species.to_string();
            if name == wanted {
                proof {
                    lemma_first_for_prefix(self.descriptors@, i as int + 1, species@);
                }
                return Some(&self.descriptors[i]);
            }
            i = i + 1;
        }
        proof {
            assert(self.descriptors@.take(self.descriptors@.len() as int) =~= self.descriptors@);
        }
        None
    }

    pub fn species_has_mate_matching(&self, species: &str) -> (b: bool)
        ensures
            b == match first_for(self.descriptors_view(), species@) {
                Some(i) => self.descriptors_view()[i].has_mate_matching,
                None => false,
            },
    {
        match self.find_by_species(species) {
            Some(d) => d.has_mate_matching,
            None => false,
        }
    }

    pub fn species_has_birth_system(&self, species: &str) -> (b: bool)
        ensures
            b == match first_for(self.descriptors_view(), species@) {
                Some(i) => self.descriptors_view()[i].has_birth_system,
                None => false,
            },
    {
        match self.find_by_species(species) {
            Some(d) => d.has_birth_system,
            None => false,
        }
    }

    pub fn species_has_planner_system(&self, species: &str) -> (b: bool)
        ensures
            b == match first_for(self.descriptors_view(), species@) {
                Some(i) => self.descriptors_view()[i].has_planner_system,
                None => false,
            },
    {
        match self.find_by_species(species) {
            Some(d) => d.has_planner_system,
            None => false,
        }
    }
}

/// A match found within the first `n` descriptors stays the first match.
proof fn lemma_first_for_prefix(s: Seq<SpeciesSystemsDescriptor>, n: int, species: Seq<char>)
    requires
        0 < n <= s.len(),
        first_for(s.take(n - 1), species) is None,
        s[n - 1].species@ == species,
    ensures
        first_for(s, species) == Some(n - 1),
    decreases s.len(),
{
    if n < s.len() {
        assert(s.drop_last().take(n - 1) =~= s.take(n - 1));
        assert(s.drop_last()[n - 1] == s[n - 1]);
        lemma_first_for_prefix(s.drop_last(), n, species);
    } else {
        assert(s.drop_last() =~= s.take(n - 1));
    }
}

/// The species that run mate matching.
pub fn get_mate_matching_system_names() -> (r: Vec<&'static str>)
    ensures
        r@.map_values(|s: &'static str| s@) == seq!["Rabbit"@, "Deer"@, "Raccoon"@],
{
    let reg = SpeciesSystemsRegistry::new();
    let r = reg.get_species_with_mate_matching();
    proof {
        lemma_all_three(reg.descriptors_view(), SystemKind::MateMatching);
    }
    r
}

/// The species that give birth.
pub fn get_birth_system_names() -> (r: Vec<&'static str>)
    ensures
        r@.map_values(|s: &'static str| s@) == seq!["Rabbit"@, "Deer"@, "Raccoon"@],
{
    let reg = SpeciesSystemsRegistry::new();
    let r = reg.get_species_with_birth_systems();
    proof {
        lemma_all_three(reg.descriptors_view(), SystemKind::Birth);
    }
    r
}

/// The species that plan actions.
pub fn get_planner_system_names() -> (r: Vec<&'static str>)
    ensures
        r@.map_values(|s: &'static str| s@) == seq!["Rabbit"@, "Deer"@, "Raccoon"@],
{
    let reg = SpeciesSystemsRegistry::new();
    let r = reg.get_species_with_planner_systems();
    proof {
        lemma_all_three(reg.descriptors_view(), SystemKind::Planner);
    }
    r
}

proof fn lemma_all_three(s: Seq<SpeciesSystemsDescriptor>, k: SystemKind)
    requires
        s.len() == 3,
        s[0].species@ == "Rabbit"@,
        s[1].species@ == "Deer"@,
        s[2].species@ == "Raccoon"@,
        forall|i: int, k2: SystemKind| 0 <= i < 3 ==> #[trigger] has_kind(s[i], k2),
    ensures
        species_with(s, k) == seq!["Rabbit"@, "Deer"@, "Raccoon"@],
{
    assert(has_kind(s[0], k) && has_kind(s[1], k) && has_kind(s[2], k));
    let s2 = s.drop_last();
    let s1 = s2.drop_last();
    let s0 = s1.drop_last();
    assert(s0 =~= Seq::<SpeciesSystemsDescriptor>::empty());
    assert(s1.last() == s[0]);
    assert(s2.last() == s[1]);
    assert(s.last() == s[2]);
    assert(species_with(s0, k) == Seq::<Seq<char>>::empty());
    assert(species_with(s1, k) == species_with(s0, k).push(s[0].species@));
    assert(species_with(s1, k) =~= seq!["Rabbit"@]);
    assert(species_with(s2, k) == species_with(s1, k).push(s[1].species@));
    assert(species_with(s2, k) =~= seq!["Rabbit"@, "Deer"@]);
    assert(species_with(s, k) == species_with(s2, k).push(s[2].species@));
}

} // verus!
