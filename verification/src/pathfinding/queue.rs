use vstd::prelude::*;
use std::collections::{HashMap, HashSet, VecDeque};
use crate::geometry::{Entity, IVec2, pair_key, pair_key_of, lemma_pair_key_injective};
use crate::pathfinding::request::{PathPriority, PathReason, PathRequest, PathRequestId};

verus! {

/// What identifies a request for deduplication: who asks, from where, to where.
pub type RequestKey = (Entity, IVec2, IVec2);

/// The deduplication key of a request.
pub open spec fn req_key(r: PathRequest) -> RequestKey {
    (r.entity, r.from, r.to)
}

/// The set of (entity, from, to) triples of the requests waiting in the
/// queues, held as a map from the (from, to) pair to the entity indices.
struct PendingSet {
    by_route: HashMap<u128, HashSet<u32>>,
}

impl View for PendingSet {
    type V = Set<RequestKey>;

    closed spec fn view(&self) -> Set<RequestKey> {
        Set::new(
            |t: RequestKey|
                self.by_route@.contains_key(pair_key(t.1, t.2)) && self.by_route@[pair_key(
                    t.1,
                    t.2,
                )]@.contains(t.0.index),
        )
    }
}

impl PendingSet {
    fn new() -> (s: PendingSet)
        ensures
            s@ == Set::<RequestKey>::empty(),
    {
        let s = PendingSet { by_route: HashMap::new() };
        assert(s@ =~= Set::<RequestKey>::empty());
        s
    }

    fn contains(&self, entity: Entity, from: IVec2, to: IVec2) -> (b: bool)
        ensures
            b == self@.contains((entity, from, to)),
    {
        let k = pair_key_of(from, to);
        match self.by_route.get(&k) {
            Some(set) => set.contains(&entity.index),
            None => false,
        }
    }

    fn insert(&mut self, entity: Entity, from: IVec2, to: IVec2)
        ensures
            final(self)@ == old(self)@.insert((entity, from, to)),
    {
        let k = pair_key_of(from, to);
        let mut set = match self.by_route.remove(&k) {
            Some(s) => s,
            None => HashSet::new(),
        };
        set.insert(entity.index);
        self.by_route.insert(k, set);
        proof {
            assert forall|t: RequestKey| #![auto]
                self@.contains(t) == old(self)@.insert((entity, from, to)).contains(t) by {
                lemma_pair_key_injective(t.1, t.2, from, to);
            }
        }
        assert(self@ =~= old(self)@.insert((entity, from, to)));
    }

    fn remove(&mut self, entity: Entity, from: IVec2, to: IVec2)
        ensures
            final(self)@ == old(self)@.remove((entity, from, to)),
    {
        let k = pair_key_of(from, to);
        let ghost before = self.by_route@;
        match self.by_route.remove(&k) {
            Some(mut set) => {
                let ghost had = set@;
                assert(had == before[k]@);
                set.remove(&entity.index);
                assert(set@ == had.remove(entity.index));
                if !set.is_empty() {
                    self.by_route.insert(k, set);
                    assert(self.by_route@ == before.insert(k, set));
                } else {
                    assert(self.by_route@ == before.remove(k));
                    assert forall|i: u32| had.contains(i) implies i == entity.index by {
                        assert(!set@.contains(i));
                    }
                }
            },
            None => {
                assert(self.by_route@ == before);
            },
        }
        proof {
            assert forall|t: RequestKey| #![auto]
                self@.contains(t) == old(self)@.remove((entity, from, to)).contains(t) by {
                lemma_pair_key_injective(t.1, t.2, from, to);
            }
        }
        assert(self@ =~= old(self)@.remove((entity, from, to)));
    }
}

} // verus!

verus! {

/// The keys of the requests in `s`.
pub open spec fn keys_of(s: Seq<PathRequest>) -> Set<RequestKey> {
    Set::new(|t: RequestKey| exists|i: int| 0 <= i < s.len() && #[trigger] req_key(s[i]) == t)
}

/// No two requests of `s` share a key.
pub open spec fn distinct_keys(s: Seq<PathRequest>) -> bool {
    forall|i: int, j: int| 0 <= i < j < s.len() ==> req_key(#[trigger] s[i]) != req_key(#[trigger] s[j])
}

/// Every request of `s` has priority `p`.
pub open spec fn all_priority(s: Seq<PathRequest>, p: PathPriority) -> bool {
    forall|i: int| 0 <= i < s.len() ==> (#[trigger] s[i]).priority == p
}

/// Rank of a priority: urgent requests are served first, lazy ones last.
pub open spec fn priority_rank(p: PathPriority) -> int {
    match p {
        PathPriority::Urgent => 0,
        PathPriority::Normal => 1,
        PathPriority::Lazy => 2,
    }
}

/// The smaller of two counts.
pub open spec fn min_count(a: int, b: int) -> int {
    if a < b { a } else { b }
}

proof fn lemma_keys_push(s: Seq<PathRequest>, r: PathRequest)
    requires
        distinct_keys(s),
        !keys_of(s).contains(req_key(r)),
    ensures
        keys_of(s.push(r)) == keys_of(s).insert(req_key(r)),
        distinct_keys(s.push(r)),
{
    let t = s.push(r);
    assert forall|k: RequestKey| #![auto] keys_of(t).contains(k) == keys_of(s).insert(req_key(r)).contains(k) by {
        if keys_of(t).contains(k) {
            let i = choose|i: int| 0 <= i < t.len() && #[trigger] req_key(t[i]) == k;
            if i < s.len() {
                assert(t[i] == s[i]);
            }
        }
        if keys_of(s).contains(k) {
            let i = choose|i: int| 0 <= i < s.len() && #[trigger] req_key(s[i]) == k;
            assert(t[i] == s[i]);
        }
        if k == req_key(r) {
            assert(t[s.len() as int] == r);
        }
    }
    assert(keys_of(t) =~= keys_of(s).insert(req_key(r)));
    assert forall|i: int, j: int| 0 <= i < j < t.len() implies req_key(#[trigger] t[i]) != req_key(#[trigger] t[j]) by {
        if j == s.len() {
            assert(t[i] == s[i]);
            assert(keys_of(s).contains(req_key(s[i])));
        } else {
            assert(t[i] == s[i] && t[j] == s[j]);
        }
    }
}

proof fn lemma_keys_concat(a: Seq<PathRequest>, b: Seq<PathRequest>)
    ensures
        keys_of(a + b) == keys_of(a).union(keys_of(b)),
{
    let c = a + b;
    assert forall|k: RequestKey| #![auto] keys_of(c).contains(k) == keys_of(a).union(keys_of(b)).contains(k) by {
        if keys_of(c).contains(k) {
            let i = choose|i: int| 0 <= i < c.len() && #[trigger] req_key(c[i]) == k;
            if i < a.len() {
                assert(c[i] == a[i]);
            } else {
                assert(c[i] == b[i - a.len()]);
            }
        }
        if keys_of(a).contains(k) {
            let i = choose|i: int| 0 <= i < a.len() && #[trigger] req_key(a[i]) == k;
            assert(c[i] == a[i]);
        }
        if keys_of(b).contains(k) {
            let i = choose|i: int| 0 <= i < b.len() && #[trigger] req_key(b[i]) == k;
            assert(c[i + a.len()] == b[i]);
        }
    }
    assert(keys_of(c) =~= keys_of(a).union(keys_of(b)));
}

proof fn lemma_keys_split(s: Seq<PathRequest>, a: int)
    requires
        distinct_keys(s),
        0 <= a <= s.len(),
    ensures
        keys_of(s) == keys_of(s.take(a)).union(keys_of(s.skip(a))),
        keys_of(s.take(a)).disjoint(keys_of(s.skip(a))),
        distinct_keys(s.skip(a)),
{
    assert(s == s.take(a) + s.skip(a));
    lemma_keys_concat(s.take(a), s.skip(a));
    let t = s.take(a);
    let u = s.skip(a);
    assert forall|k: RequestKey| keys_of(t).contains(k) implies !keys_of(u).contains(k) by {
        let i = choose|i: int| 0 <= i < t.len() && #[trigger] req_key(t[i]) == k;
        if keys_of(u).contains(k) {
            let j = choose|j: int| 0 <= j < u.len() && #[trigger] req_key(u[j]) == k;
            assert(s[i] == t[i] && s[j + a] == u[j]);
        }
    }
    assert forall|i: int, j: int| 0 <= i < j < u.len() implies req_key(#[trigger] u[i]) != req_key(#[trigger] u[j]) by {
        assert(u[i] == s[i + a] && u[j] == s[j + a]);
    }
}

/// Moves requests from the front of `queue` to the end of `out` until
/// `out` holds `max_count` requests or `queue` is empty, and drops their
/// keys from `pending`.
fn take_from(
    queue: &mut VecDeque<PathRequest>,
    pending: &mut PendingSet,
    out: &mut Vec<PathRequest>,
    max_count: usize,
)
    requires
        old(out).len() <= max_count,
        distinct_keys(old(queue)@),
    ensures
        ({
            let a = min_count(max_count - old(out).len(), old(queue)@.len() as int);
            &&& final(out)@ == old(out)@ + old(queue)@.take(a)
            &&& final(queue)@ == old(queue)@.skip(a)
            &&& final(pending)@ == old(pending)@.difference(keys_of(old(queue)@.take(a)))
        }),
{
    let ghost q0 = queue@;
    let ghost o0 = out@;
    let ghost p0 = pending@;
    while out.len() < max_count
        invariant
            o0.len() <= out.len() <= max_count,
            out@ == o0 + q0.take(out.len() - o0.len()),
            queue@ == q0.skip(out.len() - o0.len()),
            pending@ == p0.difference(keys_of(q0.take(out.len() - o0.len()))),
            out.len() - o0.len() <= q0.len(),
        ensures
            out@ == o0 + q0.take(out.len() - o0.len()),
            queue@ == q0.skip(out.len() - o0.len()),
            pending@ == p0.difference(keys_of(q0.take(out.len() - o0.len()))),
            out.len() - o0.len() == min_count(max_count - o0.len(), q0.len() as int),
        decreases max_count - out.len(),
    {
        let ghost i = out.len() - o0.len();
        match queue.pop_front() {
            Some(request) => {
                pending.remove(request.entity, request.from, request.to);
                out.push(request);
                proof {
                    assert(request == q0[i]);
                    assert(q0.take(i + 1) == q0.take(i).push(q0[i]));
                    assert(out@ =~= o0 + q0.take(i + 1));
                    assert(queue@ =~= q0.skip(i + 1));
                    assert forall|k: RequestKey| #![auto] keys_of(q0.take(i + 1)).contains(k)
                        == keys_of(q0.take(i)).insert(req_key(q0[i])).contains(k) by {
                        let t = q0.take(i + 1);
                        if keys_of(t).contains(k) {
                            let j = choose|j: int| 0 <= j < t.len() && #[trigger] req_key(t[j]) == k;
                            if j < i {
                                assert(q0.take(i)[j] == t[j]);
                            }
                        }
                        if keys_of(q0.take(i)).contains(k) {
                            let j = choose|j: int| 0 <= j < i && #[trigger] req_key(q0.take(i)[j]) == k;
                            assert(t[j] == q0.take(i)[j]);
                        }
                        if k == req_key(q0[i]) {
                            assert(t[i] == q0[i]);
                        }
                    }
                    assert(keys_of(q0.take(i + 1)) =~= keys_of(q0.take(i)).insert(req_key(q0[i])));
                    assert(pending@ =~= p0.difference(keys_of(q0.take(i + 1))));
                }
            },
            None => {
                proof {
                    assert(q0.skip(i).len() == 0);
                }
                break ;
            },
        }
    }
}

proof fn lemma_after_drain(
    u: Seq<PathRequest>,
    n: Seq<PathRequest>,
    l: Seq<PathRequest>,
    a: int,
    b: int,
    c: int,
)
    requires
        distinct_keys(u),
        distinct_keys(n),
        distinct_keys(l),
        keys_of(u).disjoint(keys_of(n)),
        keys_of(u).disjoint(keys_of(l)),
        keys_of(n).disjoint(keys_of(l)),
        0 <= a <= u.len(),
        0 <= b <= n.len(),
        0 <= c <= l.len(),
    ensures
        keys_of(u).union(keys_of(n)).union(keys_of(l)).difference(keys_of(u.take(a))).difference(
            keys_of(n.take(b)),
        ).difference(keys_of(l.take(c))) == keys_of(u.skip(a)).union(keys_of(n.skip(b))).union(
            keys_of(l.skip(c)),
        ),
        distinct_keys(u.skip(a)),
        distinct_keys(n.skip(b)),
        distinct_keys(l.skip(c)),
        keys_of(u.skip(a)).disjoint(keys_of(n.skip(b))),
        keys_of(u.skip(a)).disjoint(keys_of(l.skip(c))),
        keys_of(n.skip(b)).disjoint(keys_of(l.skip(c))),
{
    lemma_keys_split(u, a);
    lemma_keys_split(n, b);
    lemma_keys_split(l, c);
    let lhs = keys_of(u).union(keys_of(n)).union(keys_of(l)).difference(keys_of(u.take(a))).difference(
        keys_of(n.take(b)),
    ).difference(keys_of(l.take(c)));
    let rhs = keys_of(u.skip(a)).union(keys_of(n.skip(b))).union(keys_of(l.skip(c)));
    assert(lhs =~= rhs);
    assert forall|k: RequestKey| keys_of(u.skip(a)).contains(k) implies !keys_of(n.skip(b)).contains(k)
        && !keys_of(l.skip(c)).contains(k) by {
        assert(keys_of(u).contains(k));
    }
    assert forall|k: RequestKey| keys_of(n.skip(b)).contains(k) implies !keys_of(l.skip(c)).contains(k) by {
        assert(keys_of(n).contains(k));
    }
}

proof fn lemma_skip_priority(s: Seq<PathRequest>, a: int, p: PathPriority)
    requires
        all_priority(s, p),
        0 <= a <= s.len(),
    ensures
        all_priority(s.skip(a), p),
{
    assert forall|i: int| 0 <= i < s.skip(a).len() implies (#[trigger] s.skip(a)[i]).priority
        == p by {
        assert(s.skip(a)[i] == s[i + a]);
    }
}

proof fn lemma_drained_order(
    u: Seq<PathRequest>,
    n: Seq<PathRequest>,
    l: Seq<PathRequest>,
    a: int,
    b: int,
    c: int,
)
    requires
        all_priority(u, PathPriority::Urgent),
        all_priority(n, PathPriority::Normal),
        all_priority(l, PathPriority::Lazy),
        0 <= a <= u.len(),
        0 <= b <= n.len(),
        0 <= c <= l.len(),
    ensures
        ({
            let r = u.take(a) + n.take(b) + l.take(c);
            forall|i: int, j: int|
                0 <= i < j < r.len() ==> priority_rank(r[i].priority) <= priority_rank(r[j].priority)
        }),
{
    let r = u.take(a) + n.take(b) + l.take(c);
    assert forall|i: int, j: int| 0 <= i < j < r.len() implies priority_rank(r[i].priority)
        <= priority_rank(r[j].priority) by {
        if i < a {
            assert(r[i] == u[i]);
        } else if i < a + b {
            assert(r[i] == n[i - a]);
        } else {
            assert(r[i] == l[i - a - b]);
        }
        if j < a {
            assert(r[j] == u[j]);
        } else if j < a + b {
            assert(r[j] == n[j - a]);
        } else {
            assert(r[j] == l[j - a - b]);
        }
    }
}

/// Requests waiting for a path, served urgent first, then normal, then
/// lazy, each in arrival order; a request for an (entity, from, to) that
/// is already waiting is not queued again.
pub struct PathfindingQueue {
    urgent_queue: VecDeque<PathRequest>,
    normal_queue: VecDeque<PathRequest>,
    lazy_queue: VecDeque<PathRequest>,
    paths_per_tick: usize,
    pending_requests: PendingSet,
    next_id: u64,
    total_paths_processed: u64,
}

impl PathfindingQueue {
    pub closed spec fn urgent_view(&self) -> Seq<PathRequest> {
        self.urgent_queue@
    }

    pub closed spec fn normal_view(&self) -> Seq<PathRequest> {
        self.normal_queue@
    }

    pub closed spec fn lazy_view(&self) -> Seq<PathRequest> {
        self.lazy_queue@
    }

    /// Every waiting request, in the order they will be served.
    pub open spec fn queued(&self) -> Seq<PathRequest> {
        self.urgent_view() + self.normal_view() + self.lazy_view()
    }

    /// Whether a request for this (entity, from, to) is waiting.
    pub open spec fn is_pending(&self, entity: Entity, from: IVec2, to: IVec2) -> bool {
        keys_of(self.queued()).contains((entity, from, to))
    }

    pub closed spec fn budget_view(&self) -> usize {
        self.paths_per_tick
    }

    /// The identifier number the next request gets.
    pub closed spec fn next_id_view(&self) -> u64 {
        self.next_id
    }

    pub closed spec fn processed_view(&self) -> u64 {
        self.total_paths_processed
    }

    /// The queue is consistent: each queue holds only requests of its
    /// priority, no key waits twice, and the deduplication set holds
    /// exactly the keys of the waiting requests.
    pub closed spec fn wf(&self) -> bool {
        &&& all_priority(self.urgent_queue@, PathPriority::Urgent)
        &&& all_priority(self.normal_queue@, PathPriority::Normal)
        &&& all_priority(self.lazy_queue@, PathPriority::Lazy)
        &&& distinct_keys(self.urgent_queue@)
        &&& distinct_keys(self.normal_queue@)
        &&& distinct_keys(self.lazy_queue@)
        &&& keys_of(self.urgent_queue@).disjoint(keys_of(self.normal_queue@))
        &&& keys_of(self.urgent_queue@).disjoint(keys_of(self.lazy_queue@))
        &&& keys_of(self.normal_queue@).disjoint(keys_of(self.lazy_queue@))
        &&& self.pending_requests@ == keys_of(self.urgent_queue@).union(
            keys_of(self.normal_queue@),
        ).union(keys_of(self.lazy_queue@))
    }

    /// In a well-formed queue each of the three queues holds only requests
    /// of its priority, and no (entity, from, to) waits twice over all of them.
    pub proof fn law_queue_consistency(&self)
        requires
            self.wf(),
        ensures
            all_priority(self.urgent_view(), PathPriority::Urgent),
            all_priority(self.normal_view(), PathPriority::Normal),
            all_priority(self.lazy_view(), PathPriority::Lazy),
            distinct_keys(self.queued()),
    {
        let u = self.urgent_queue@;
        let n = self.normal_queue@;
        let l = self.lazy_queue@;
        let q = self.queued();
        assert forall|i: int, j: int| 0 <= i < j < q.len() implies req_key(#[trigger] q[i]) != req_key(#[trigger] q[j]) by {
            let a = u.len() as int;
            let b = (u.len() + n.len()) as int;
            if j < a {
                assert(q[i] == u[i] && q[j] == u[j]);
            } else if j < b {
                assert(q[j] == n[j - a]);
                assert(keys_of(n).contains(req_key(n[j - a])));
                if i < a {
                    assert(q[i] == u[i]);
                    assert(keys_of(u).contains(req_key(u[i])));
                } else {
                    assert(q[i] == n[i - a]);
                }
            } else {
                assert(q[j] == l[j - b]);
                assert(keys_of(l).contains(req_key(l[j - b])));
                if i < a {
                    assert(q[i] == u[i]);
                    assert(keys_of(u).contains(req_key(u[i])));
                } else if i < b {
                    assert(q[i] == n[i - a]);
                    assert(keys_of(n).contains(req_key(n[i - a])));
                } else {
                    assert(q[i] == l[i - b]);
                }
            }
        }
    }

    /// A queue serving at most `paths_per_tick` paths per tick.
    pub fn new(paths_per_tick: usize) -> (q: PathfindingQueue)
        ensures
            q.wf(),
            q.urgent_view() == Seq::<PathRequest>::empty(),
            q.normal_view() == Seq::<PathRequest>::empty(),
            q.lazy_view() == Seq::<PathRequest>::empty(),
            q.budget_view() == paths_per_tick,
            q.next_id_view() == 1,
            q.processed_view() == 0,
    {
        let q = PathfindingQueue {
            urgent_queue: VecDeque::new(),
            normal_queue: VecDeque::new(),
            lazy_queue: VecDeque::new(),
            paths_per_tick,
            pending_requests: PendingSet::new(),
            next_id: 1,
            total_paths_processed: 0,
        };
        assert(keys_of(q.urgent_queue@) =~= Set::<RequestKey>::empty());
        assert(keys_of(q.normal_queue@) =~= Set::<RequestKey>::empty());
        assert(keys_of(q.lazy_queue@) =~= Set::<RequestKey>::empty());
        assert(q.pending_requests@ =~= keys_of(q.urgent_queue@).union(keys_of(q.normal_queue@)).union(keys_of(q.lazy_queue@)));
        q
    }

    /// Asks for a path; returns a fresh identifier. A request for an
    /// (entity, from, to) that is already waiting only uses up an
    /// identifier; otherwise the request joins the queue of its priority.
    pub fn request_path(
        &mut self,
        entity: Entity,
        from: IVec2,
        to: IVec2,
        priority: PathPriority,
        reason: PathReason,
        requested_tick: u64,
    ) -> (id: PathRequestId)
        requires
            old(self).wf(),
            old(self).next_id_view() < u64::MAX,
        ensures
            final(self).wf(),
            id.value() == old(self).next_id_view(),
            final(self).next_id_view() == old(self).next_id_view() + 1,
            final(self).budget_view() == old(self).budget_view(),
            final(self).processed_view() == old(self).processed_view(),
            final(self).is_pending(entity, from, to),
            old(self).is_pending(entity, from, to) ==> {
                &&& final(self).urgent_view() == old(self).urgent_view()
                &&& final(self).normal_view() == old(self).normal_view()
                &&& final(self).lazy_view() == old(self).lazy_view()
            },
            !old(self).is_pending(entity, from, to) ==> {
                let r = PathRequest { id, entity, from, to, priority, reason, requested_tick };
                match priority {
                    PathPriority::Urgent => {
                        &&& final(self).urgent_view() == old(self).urgent_view().push(r)
                        &&& final(self).normal_view() == old(self).normal_view()
                        &&& final(self).lazy_view() == old(self).lazy_view()
                    },
                    PathPriority::Normal => {
                        &&& final(self).urgent_view() == old(self).urgent_view()
                        &&& final(self).normal_view() == old(self).normal_view().push(r)
                        &&& final(self).lazy_view() == old(self).lazy_view()
                    },
                    PathPriority::Lazy => {
                        &&& final(self).urgent_view() == old(self).urgent_view()
                        &&& final(self).normal_view() == old(self).normal_view()
                        &&& final(self).lazy_view() == old(self).lazy_view().push(r)
                    },
                }
            },
    {
        let id = PathRequestId::new(self.next_id);
        self.next_id = self.next_id + 1;
        proof {
            lemma_keys_concat(self.urgent_queue@, self.normal_queue@);
            lemma_keys_concat(self.urgent_queue@ + self.normal_queue@, self.lazy_queue@);
        }
        if self.pending_requests.contains(entity, from, to) {
            return id;
        }
        let request = PathRequest::new(id, entity, from, to, priority, reason, requested_tick);
        self.pending_requests.insert(entity, from, to);
        let ghost k = req_key(request);
        match priority {
            PathPriority::Urgent => {
                proof {
                    lemma_keys_push(self.urgent_queue@, request);
                }
                self.urgent_queue.push_back(request);
            },
            PathPriority::Normal => {
                proof {
                    lemma_keys_push(self.normal_queue@, request);
                }
                self.normal_queue.push_back(request);
            },
            PathPriority::Lazy => {
                proof {
                    lemma_keys_push(self.lazy_queue@, request);
                }
                self.lazy_queue.push_back(request);
            },
        }
        proof {
            assert(self.pending_requests@ =~= keys_of(self.urgent_queue@).union(
                keys_of(self.normal_queue@),
            ).union(keys_of(self.lazy_queue@)));
            lemma_keys_concat(self.urgent_queue@, self.normal_queue@);
            lemma_keys_concat(self.urgent_queue@ + self.normal_queue@, self.lazy_queue@);
        }
        id
    }

    /// Hands out up to `max_count` waiting requests: urgent ones first,
    /// then normal, then lazy, each in arrival order.
    pub fn drain(&mut self, max_count: usize) -> (r: Vec<PathRequest>)
        requires
            old(self).wf(),
            old(self).processed_view() + min_count(max_count as int, old(self).queued().len() as int)
                <= u64::MAX,
        ensures
            final(self).wf(),
            ({
                let u = old(self).urgent_view();
                let n = old(self).normal_view();
                let l = old(self).lazy_view();
                let a = min_count(max_count as int, u.len() as int);
                let b = min_count(max_count - a, n.len() as int);
                let c = min_count(max_count - a - b, l.len() as int);
                &&& r@ == u.take(a) + n.take(b) + l.take(c)
                &&& final(self).urgent_view() == u.skip(a)
                &&& final(self).normal_view() == n.skip(b)
                &&& final(self).lazy_view() == l.skip(c)
            }),
            r@ == old(self).queued().take(min_count(max_count as int, old(self).queued().len() as int)),
            final(self).queued() == old(self).queued().skip(
                min_count(max_count as int, old(self).queued().len() as int),
            ),
            forall|i: int, j: int|
                0 <= i < j < r.len() ==> priority_rank(r@[i].priority) <= priority_rank(r@[j].priority),
            final(self).processed_view() == old(self).processed_view() + r.len(),
            final(self).budget_view() == old(self).budget_view(),
            final(self).next_id_view() == old(self).next_id_view(),
    {
        let ghost u = self.urgent_queue@;
        let ghost n = self.normal_queue@;
        let ghost l = self.lazy_queue@;
        let mut requests: Vec<PathRequest> = Vec::new();
        take_from(&mut self.urgent_queue, &mut self.pending_requests, &mut requests, max_count);
        let ghost a = min_count(max_count as int, u.len() as int);
        take_from(&mut self.normal_queue, &mut self.pending_requests, &mut requests, max_count);
        let ghost b = min_count(max_count - a, n.len() as int);
        take_from(&mut self.lazy_queue, &mut self.pending_requests, &mut requests, max_count);
        let ghost c = min_count(max_count - a - b, l.len() as int);
        proof {
            assert(requests@ =~= u.take(a) + n.take(b) + l.take(c));
            lemma_after_drain(u, n, l, a, b, c);
            lemma_skip_priority(u, a, PathPriority::Urgent);
            lemma_skip_priority(n, b, PathPriority::Normal);
            lemma_skip_priority(l, c, PathPriority::Lazy);
            let q = u + n + l;
            let k = min_count(max_count as int, q.len() as int);
            assert(k == a + b + c);
            assert(requests@ =~= q.take(k));
            assert(self.urgent_queue@ + self.normal_queue@ + self.lazy_queue@ =~= q.skip(k));
            lemma_drained_order(u, n, l, a, b, c);
        }
        self.total_paths_processed = self.total_paths_processed + requests.len() as u64;
        requests
    }

    /// Lengths of the urgent, normal and lazy queues.
    pub fn queue_sizes(&self) -> (r: (usize, usize, usize))
        ensures
            r == (self.urgent_view().len() as usize, self.normal_view().len() as usize,
            self.lazy_view().len() as usize),
    {
        (self.urgent_queue.len(), self.normal_queue.len(), self.lazy_queue.len())
    }

    /// Number of waiting requests.
    pub fn total_queued(&self) -> (n: usize)
        requires
            self.queued().len() <= usize::MAX,
        ensures
            n == self.queued().len(),
    {
        self.urgent_queue.len() + self.normal_queue.len() + self.lazy_queue.len()
    }

    /// Paths to compute per tick.
    pub fn paths_per_tick(&self) -> (n: usize)
        ensures
            n == self.budget_view(),
    {
        self.paths_per_tick
    }

    /// Requests handed out by `drain` so far.
    pub fn total_processed(&self) -> (n: u64)
        ensures
            n == self.processed_view(),
    {
        self.total_paths_processed
    }
}

impl Default for PathfindingQueue {
    fn default() -> (q: PathfindingQueue)
        ensures
            q.wf(),
            q.queued() == Seq::<PathRequest>::empty(),
            q.budget_view() == 40,
            q.next_id_view() == 1,
            q.processed_view() == 0,
    {
        let q = PathfindingQueue::new(40);
        assert(q.queued() =~= Seq::<PathRequest>::empty());
        q
    }
}

} // verus!
