use vstd::prelude::*;
use crate::geometry::{Entity, IVec2};

verus! {

/// Kind of social group a leader heads.
#[derive(Debug, Clone, Copy, PartialEq, Eq, Hash, Structural)]
pub enum GroupType {
    Pack,
    Herd,
    Flock,
    Warren,
    Colony,
    School,
}

/// The lowercase name of a group kind.
pub open spec fn group_name(g: GroupType) -> Seq<char> {
    match g {
        GroupType::Pack => "pack"@,
        GroupType::Herd => "herd"@,
        GroupType::Flock => "flock"@,
        GroupType::Warren => "warren"@,
        GroupType::Colony => "colony"@,
        GroupType::School => "school"@,
    }
}

impl GroupType {
    pub fn name(&self) -> (s: &'static str)
        ensures
            s@ == group_name(*self),
    {
        match self {
            GroupType::Pack => "pack",
            GroupType::Herd => "herd",
            GroupType::Flock => "flock",
            GroupType::Warren => "warren",
            GroupType::Colony => "colony",
            GroupType::School => "school",
        }
    }
}

/// `s` without the occurrences of `e`, in order.
pub open spec fn without(s: Seq<Entity>, e: Entity) -> Seq<Entity>
    decreases s.len(),
{
    if s.len() == 0 {
        Seq::empty()
    } else if s.last() != e {
        without(s.drop_last(), e).push(s.last())
    } else {
        without(s.drop_last(), e)
    }
}

/// Whether `e` occurs in `v`.
fn holds_entity(v: &Vec<Entity>, e: Entity) -> (b: bool)
    ensures
        b == v@.contains(e),
{
    let mut i: usize = 0;
    while i < v.len()
        invariant
            0 <= i <= v.len(),
            forall|j: int| 0 <= j < i ==> v@[j] != e,
        decreases v.len() - i,
    {
        if v[i] == e {
            assert(v@[i as int] == e);
            return true;
        }
        i = i + 1;
    }
    false
}

/// `v` without the occurrences of `e`.
fn drop_entity(v: &Vec<Entity>, e: Entity) -> (r: Vec<Entity>)
    ensures
        r@ == without(v@, e),
{
    let mut out: Vec<Entity> = Vec::new();
    let mut i: usize = 0;
    while i < v.len()
        invariant
            0 <= i <= v.len(),
            out@ == without(v@.take(i as int), e),
        decreases v.len() - i,
    {
        proof {
            assert(v@.take(i + 1).drop_last() == v@.take(i as int));
            assert(v@.take(i + 1).last() == v@[i as int]);
        }
        if v[i] != e {
            out.push(v[i]);
        }
        i = i + 1;
    }
    proof {
        assert(v@.take(v.len() as int) == v@);
    }
    out
}

/// Removing `e` leaves no occurrence of it, keeps every other element,
/// and keeps a list without duplicates free of them.
pub proof fn lemma_without(s: Seq<Entity>, e: Entity)
    ensures
        !without(s, e).contains(e),
        forall|x: Entity| x != e ==> (without(s, e).contains(x) <==> s.contains(x)),
        s.no_duplicates() ==> without(s, e).no_duplicates(),
        s.contains(e) && s.no_duplicates() ==> without(s, e).len() == s.len() - 1,
        !s.contains(e) ==> without(s, e) == s,
    decreases s.len(),
{
    if s.len() > 0 {
        let p = s.drop_last();
        lemma_without(p, e);
        let w = without(s, e);
        let wp = without(p, e);
        assert forall|x: Entity| #[trigger] p.contains(x) implies s.contains(x) by {
            let i = choose|i: int| 0 <= i < p.len() && p[i] == x;
            assert(s[i] == x);
        }
        assert forall|x: Entity| #[trigger] s.contains(x) implies p.contains(x) || x == s.last() by {
            let i = choose|i: int| 0 <= i < s.len() && s[i] == x;
            if i < s.len() - 1 {
                assert(p[i] == x);
            }
        }
        if s.last() != e {
            assert forall|x: Entity| #[trigger] w.contains(x) implies wp.contains(x) || x == s.last() by {
                let i = choose|i: int| 0 <= i < w.len() && w[i] == x;
                if i < w.len() - 1 {
                    assert(wp[i] == x);
                }
            }
            assert forall|x: Entity| #[trigger] wp.contains(x) implies w.contains(x) by {
                let i = choose|i: int| 0 <= i < wp.len() && wp[i] == x;
                assert(w[i] == x);
            }
            assert(w[w.len() - 1] == s.last());
            if s.no_duplicates() {
                assert(!p.contains(s.last())) by {
                    if p.contains(s.last()) {
                        let i = choose|i: int| 0 <= i < p.len() && p[i] == s.last();
                        assert(s[i] == s[s.len() - 1]);
                    }
                }
                assert forall|i: int, j: int| 0 <= i < j < w.len() implies w[i] != w[j] by {
                    if j == w.len() - 1 {
                        assert(wp.contains(w[i]));
                    } else {
                        assert(w[i] == wp[i] && w[j] == wp[j]);
                    }
                }
            }
            if !s.contains(e) {
                assert(w =~= s);
            }
        } else {
            if s.contains(e) && s.no_duplicates() {
                assert(!p.contains(e)) by {
                    if p.contains(e) {
                        let i = choose|i: int| 0 <= i < p.len() && p[i] == e;
                        assert(s[i] == s[s.len() - 1]);
                    }
                }
                assert(wp == p);
            }
            assert(s[s.len() - 1] == e);
        }
    } else {
        assert(without(s, e) =~= s);
    }
}

/// Head of a social group, with the members that joined it.
#[derive(Debug, Clone)]
pub struct PackLeader {
    pub members: Vec<Entity>,
    pub formed_tick: u64,
    pub group_type: GroupType,
}

impl PackLeader {
    pub fn new(formed_tick: u64, group_type: GroupType) -> (l: PackLeader)
        ensures
            l.members@ == Seq::<Entity>::empty(),
            l.formed_tick == formed_tick,
            l.group_type == group_type,
    {
        PackLeader { members: Vec::new(), formed_tick, group_type }
    }

    /// Adds a member, unless it is one already.
    pub fn add_member(&mut self, member: Entity)
        ensures
            final(self).members@ == if old(self).members@.contains(member) {
                old(self).members@
            } else {
                old(self).members@.push(member)
            },
            final(self).formed_tick == old(self).formed_tick,
            final(self).group_type == old(self).group_type,
            old(self).members@.no_duplicates() ==> final(self).members@.no_duplicates(),
    {
        if !holds_entity(&self.members, member) {
            let ghost before = self.members@;
            self.members.push(member);
            proof {
                assert forall|i: int, j: int|
                    before.no_duplicates() && 0 <= i < j < self.members@.len() implies self.members@[i]
                    != self.members@[j] by {
                    if j == before.len() {
                        assert(before.contains(self.members@[i]));
                    }
                }
            }
        }
    }

    /// Removes every occurrence of a member.
    pub fn remove_member(&mut self, member: Entity)
        ensures
            final(self).members@ == without(old(self).members@, member),
            !final(self).members@.contains(member),
            forall|x: Entity| x != member ==> (final(self).members@.contains(x) <==> old(self).members@.contains(x)),
            final(self).formed_tick == old(self).formed_tick,
            final(self).group_type == old(self).group_type,
    {
        proof {
            lemma_without(self.members@, member);
        }
        self.members = drop_entity(&self.members, member);
    }

    pub fn member_count(&self) -> (n: usize)
        ensures
            n == self.members@.len(),
    {
        self.members.len()
    }

    pub fn has_member(&self, member: Entity) -> (b: bool)
        ensures
            b == self.members@.contains(member),
    {
        holds_entity(&self.members, member)
    }
}

/// Membership of a creature in a group.
#[derive(Debug, Clone, Copy, PartialEq, Eq, Structural)]
pub struct PackMember {
    pub leader: Entity,
    pub joined_tick: u64,
    pub group_type: GroupType,
}

impl PackMember {
    pub fn new(leader: Entity, joined_tick: u64, group_type: GroupType) -> (m: PackMember)
        ensures
            m == (PackMember { leader, joined_tick, group_type }),
    {
        PackMember { leader, joined_tick, group_type }
    }
}

/// Tick at which a creature was born.
#[derive(Debug, Clone, Copy, PartialEq, Eq, Structural)]
pub struct BirthInfo {
    pub born_tick: u64,
}

impl BirthInfo {
    pub fn new(born_tick: u64) -> (b: BirthInfo)
        ensures
            b.born_tick == born_tick,
    {
        BirthInfo { born_tick }
    }
}

/// A parent and the children it gave birth to.
#[derive(Debug, Clone)]
pub struct LegacyParentOf {
    pub children: Vec<Entity>,
    pub first_birth_tick: u64,
}

impl LegacyParentOf {
    pub fn new(first_birth_tick: u64) -> (p: LegacyParentOf)
        ensures
            p.children@ == Seq::<Entity>::empty(),
            p.first_birth_tick == first_birth_tick,
    {
        LegacyParentOf { children: Vec::new(), first_birth_tick }
    }

    /// Adds a child, unless it is one already.
    pub fn add_child(&mut self, child: Entity)
        ensures
            final(self).children@ == if old(self).children@.contains(child) {
                old(self).children@
            } else {
                old(self).children@.push(child)
            },
            final(self).first_birth_tick == old(self).first_birth_tick,
            old(self).children@.no_duplicates() ==> final(self).children@.no_duplicates(),
    {
        if !holds_entity(&self.children, child) {
            let ghost before = self.children@;
            self.children.push(child);
            proof {
                assert forall|i: int, j: int|
                    before.no_duplicates() && 0 <= i < j < self.children@.len() implies self.children@[i]
                    != self.children@[j] by {
                    if j == before.len() {
                        assert(before.contains(self.children@[i]));
                    }
                }
            }
        }
    }

    /// Removes every occurrence of a child.
    pub fn remove_child(&mut self, child: Entity)
        ensures
            final(self).children@ == without(old(self).children@, child),
            !final(self).children@.contains(child),
            forall|x: Entity| x != child ==> (final(self).children@.contains(x) <==> old(self).children@.contains(x)),
            final(self).first_birth_tick == old(self).first_birth_tick,
    {
        proof {
            lemma_without(self.children@, child);
        }
        self.children = drop_entity(&self.children, child);
    }

    pub fn child_count(&self) -> (n: usize)
        ensures
            n == self.children@.len(),
    {
        self.children.len()
    }

    pub fn has_child(&self, child: Entity) -> (b: bool)
        ensures
            b == self.children@.contains(child),
    {
        holds_entity(&self.children, child)
    }
}

/// A child and the parent it was born to.
#[derive(Debug, Clone, Copy, PartialEq, Eq, Structural)]
pub struct LegacyChildOf {
    pub parent: Entity,
    pub born_tick: u64,
}

impl LegacyChildOf {
    pub fn new(parent: Entity, born_tick: u64) -> (c: LegacyChildOf)
        ensures
            c == (LegacyChildOf { parent, born_tick }),
    {
        LegacyChildOf { parent, born_tick }
    }
}

/// The creature courted by a suitor, and where they meet.
#[derive(Debug, Clone, Copy, PartialEq, Eq, Structural)]
pub struct MatingTarget {
    pub suitor: Entity,
    pub meeting_tile: IVec2,
    pub started_tick: u64,
}

/// The creature courting a partner, and where they meet.
#[derive(Debug, Clone, Copy, PartialEq, Eq, Structural)]
pub struct ActiveMate {
    pub partner: Entity,
    pub meeting_tile: IVec2,
    pub started_tick: u64,
}

/// Prey being hunted, and by whom.
#[derive(Debug, Clone, Copy, PartialEq, Eq, Structural)]
pub struct HuntingTarget {
    pub predator: Entity,
    pub started_tick: u64,
}

/// Predator on a hunt, and its target.
#[derive(Debug, Clone, Copy, PartialEq, Eq, Structural)]
pub struct ActiveHunter {
    pub target: Entity,
    pub started_tick: u64,
}

/// The children, in order, whose recorded parent is not among `living`.
pub open spec fn orphans(children: Seq<(Entity, LegacyChildOf)>, living: Seq<Entity>) -> Seq<Entity>
    decreases children.len(),
{
    if children.len() == 0 {
        Seq::empty()
    } else if !living.contains(children.last().1.parent) {
        orphans(children.drop_last(), living).push(children.last().0)
    } else {
        orphans(children.drop_last(), living)
    }
}

/// The children whose parent no longer exists: they lose their
/// child-of record.
pub fn cleanup_orphaned_children(children: &Vec<(Entity, LegacyChildOf)>, living: &Vec<Entity>) -> (r: Vec<Entity>)
    ensures
        r@ == orphans(children@, living@),
{
    let mut out: Vec<Entity> = Vec::new();
    let mut i: usize = 0;
    while i < children.len()
        invariant
            0 <= i <= children.len(),
            out@ == orphans(children@.take(i as int), living@),
        decreases children.len() - i,
    {
        proof {
            assert(children@.take(i + 1).drop_last() == children@.take(i as int));
            assert(children@.take(i + 1).last() == children@[i as int]);
        }
        let (child, child_of) = children[i];
        if !holds_entity(living, child_of.parent) {
            out.push(child);
        }
        i = i + 1;
    }
    proof {
        assert(children@.take(children.len() as int) == children@);
    }
    out
}

} // verus!
