use vstd::prelude::*;
use std::collections::HashMap;
use crate::geometry::{IVec2, pos_key, key_of, lemma_pos_key_injective};

verus! {

/// Movement costs of the tiles of the world; a tile with no recorded cost,
/// or with cost `u32::MAX`, cannot be entered.
pub struct PathfindingGrid {
    costs: HashMap<u64, u32>,
}

impl View for PathfindingGrid {
    type V = Map<IVec2, u32>;

    closed spec fn view(&self) -> Map<IVec2, u32> {
        Map::new(
            |p: IVec2| self.costs@.contains_key(pos_key(p)),
            |p: IVec2| self.costs@[pos_key(p)],
        )
    }
}

/// Cost of entering a tile under a cost map (`u32::MAX` for unknown tiles).
pub open spec fn cost_in(m: Map<IVec2, u32>, p: IVec2) -> u32 {
    if m.contains_key(p) { m[p] } else { u32::MAX }
}

/// Whether a tile can be entered under a cost map.
pub open spec fn walkable_in(m: Map<IVec2, u32>, p: IVec2) -> bool {
    cost_in(m, p) < u32::MAX
}

impl PathfindingGrid {
    /// Keys of the tiles that can be entered.
    pub closed spec fn walkable_keys(&self) -> Set<u64> {
        self.costs@.dom().filter(|k: u64| self.costs@[k] < u32::MAX)
    }

    pub proof fn lemma_walkable_keys(&self, p: IVec2)
        ensures
            self.walkable_keys().finite(),
            self.walkable_keys().contains(pos_key(p)) == walkable_in(self@, p),
    {
        assert(self.costs@.dom().finite());
    }

    pub fn new() -> (g: PathfindingGrid)
        ensures
            g@ == Map::<IVec2, u32>::empty(),
    {
        let g = PathfindingGrid { costs: HashMap::new() };
        assert(g@ =~= Map::<IVec2, u32>::empty());
        g
    }

    /// Records the movement cost of a tile.
    pub fn set_cost(&mut self, pos: IVec2, cost: u32)
        ensures
            final(self)@ == old(self)@.insert(pos, cost),
    {
        let k = key_of(pos);
        self.costs.insert(k, cost);
        proof {
            assert forall|p: IVec2| #![auto] p != pos implies pos_key(p) != pos_key(pos) by {
                lemma_pos_key_injective(p, pos);
            }
        }
        assert(self@ =~= old(self)@.insert(pos, cost));
    }

    /// Movement cost of a tile (`u32::MAX` for unknown or impassable tiles).
    pub fn get_cost(&self, pos: IVec2) -> (c: u32)
        ensures
            c == cost_in(self@, pos),
    {
        let k = key_of(pos);
        match self.costs.get(&k) {
            Some(c) => *c,
            None => u32::MAX,
        }
    }

    /// Whether a tile can be entered.
    pub fn is_walkable(&self, pos: IVec2) -> (b: bool)
        ensures
            b == walkable_in(self@, pos),
    {
        self.get_cost(pos) < u32::MAX
    }

    /// Forgets a tile, which makes it impassable.
    pub fn remove(&mut self, pos: IVec2)
        ensures
            final(self)@ == old(self)@.remove(pos),
    {
        let k = key_of(pos);
        self.costs.remove(&k);
        proof {
            assert forall|p: IVec2| #![auto] p != pos implies pos_key(p) != pos_key(pos) by {
                lemma_pos_key_injective(p, pos);
            }
        }
        assert(self@ =~= old(self)@.remove(pos));
    }

    /// Forgets every tile.
    pub fn clear(&mut self)
        ensures
            final(self)@ == Map::<IVec2, u32>::empty(),
    {
        self.costs.clear();
        assert(self@ =~= Map::<IVec2, u32>::empty());
    }
}

impl Default for PathfindingGrid {
    fn default() -> (g: PathfindingGrid)
        ensures
            g@ == Map::<IVec2, u32>::empty(),
    {
        PathfindingGrid::new()
    }
}

} // verus!
