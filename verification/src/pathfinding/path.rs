use vstd::prelude::*;
use crate::geometry::IVec2;

verus! {

/// The index a route of `len` waypoints reaches from index `i` with one
/// call of `advance`.
pub open spec fn next_index(len: nat, i: nat) -> nat {
    if i < len {
        i + 1
    } else {
        i
    }
}

/// The index a route of `len` waypoints reaches from index `i` with `k`
/// calls of `advance` in a row.
pub open spec fn index_after(len: nat, i: nat, k: nat) -> nat
    decreases k,
{
    if k == 0 {
        i
    } else {
        next_index(len, index_after(len, i, (k - 1) as nat))
    }
}

/// From any reached index `i` (at most `len`), `k` calls of `advance` in a
/// row reach index `min(i + k, len)`: a new route advanced `k` times has
/// waypoint `k` as its next target if there is one, the waypoints from
/// `min(k, len)` on remaining, and is complete exactly when `k >= len`;
/// a complete route stays where it is.
pub proof fn law_advance_k_times(len: nat, i: nat, k: nat)
    requires
        i <= len,
    ensures
        index_after(len, i, k) == if i + k < len {
            i + k
        } else {
            len
        },
    decreases k,
{
    if k > 0 {
        law_advance_k_times(len, i, (k - 1) as nat);
    }
}

/// A computed route: the tiles to step onto, in order, and how many of
/// them have been reached so far.
#[derive(Debug)]
pub struct Path {
    waypoints: Vec<IVec2>,
    current_index: usize,
}

impl Path {
    #[verifier::type_invariant]
    spec fn inv(self) -> bool {
        self.current_index <= self.waypoints.len()
    }

    /// The tiles of the route, in order.
    pub closed spec fn waypoints_view(self) -> Seq<IVec2> {
        self.waypoints@
    }

    /// How many waypoints have been reached.
    pub closed spec fn index_view(self) -> nat {
        self.current_index as nat
    }

    /// Creates a route that has not been started.
    pub fn new(waypoints: Vec<IVec2>) -> (p: Path)
        ensures
            p.waypoints_view() == waypoints@,
            p.index_view() == 0,
    {
        Path { waypoints, current_index: 0 }
    }

    /// The tile to step onto next, if any remains.
    pub fn current_target(&self) -> (t: Option<IVec2>)
        ensures
            t == (if self.index_view() < self.waypoints_view().len() {
                Some(self.waypoints_view()[self.index_view() as int])
            } else {
                None::<IVec2>
            }),
    {
        proof {
            use_type_invariant(self);
        }
        if self.current_index < self.waypoints.len() {
            Some(self.waypoints[self.current_index])
        } else {
            None
        }
    }

    /// Moves on to the next waypoint (no effect once the route is done).
    pub fn advance(&mut self)
        ensures
            final(self).waypoints_view() == old(self).waypoints_view(),
            final(self).index_view() == next_index(old(self).waypoints_view().len(), old(self).index_view()),
    {
        proof {
            use_type_invariant(&*self);
        }
        if self.current_index < self.waypoints.len() {
            self.current_index = self.current_index + 1;
        }
    }

    /// Whether every waypoint has been reached.
    pub fn is_complete(&self) -> (b: bool)
        ensures
            b == (self.index_view() >= self.waypoints_view().len()),
    {
        self.current_index >= self.waypoints.len()
    }

    /// The waypoints not reached yet.
    pub fn remaining(&self) -> (r: &[IVec2])
        ensures
            r@ == self.waypoints_view().subrange(
                self.index_view() as int,
                self.waypoints_view().len() as int,
            ),
    {
        proof {
            use_type_invariant(self);
        }
        let (_, rest) = self.waypoints.as_slice().split_at(self.current_index);
        rest
    }

    /// A copy of all waypoints of the route.
    pub(crate) fn clone_waypoints(&self) -> (v: Vec<IVec2>)
        ensures
            v@ == self.waypoints_view(),
    {
        let v = self.waypoints.clone();
        assert(v@ =~= self.waypoints@);
        v
    }

    /// All waypoints of the route.
    pub fn all_waypoints(&self) -> (r: &[IVec2])
        ensures
            r@ == self.waypoints_view(),
    {
        self.waypoints.as_slice()
    }
}

impl Clone for Path {
    fn clone(&self) -> (r: Path)
        ensures
            r.waypoints_view() == self.waypoints_view(),
            r.index_view() == self.index_view(),
    {
        proof {
            use_type_invariant(self);
        }
        let w = self.waypoints.clone();
        assert(w@ =~= self.waypoints@);
        Path { waypoints: w, current_index: self.current_index }
    }
}

} // verus!
