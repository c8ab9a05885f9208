use vstd::prelude::*;
use std::collections::HashMap;
use crate::geometry::{IVec2, pair_key, pair_key_of};
use crate::keys::collect_keys;

verus! {

/// A cached route and the tick at which it was stored.
pub type CacheEntry = (Vec<IVec2>, u64);

/// The entries of `m` that are still valid at tick `now` when entries stay
/// valid for `duration` ticks.
pub open spec fn fresh_part(
    m: Map<u128, CacheEntry>,
    now: u64,
    duration: u64,
) -> Map<u128, CacheEntry> {
    m.restrict(m.dom().filter(|k: u128| now - m[k].1 <= duration))
}

/// `k` is one of the first `n` elements of `s`.
pub open spec fn among_first(s: Seq<u128>, n: int, k: u128) -> bool {
    exists|t: int| 0 <= t < n && s[t] == k
}

/// The entries left once a full cache (`max` entries or more) has
/// dropped the entries that expired by tick `now`.
pub open spec fn after_expiry(
    m0: Map<u128, CacheEntry>,
    max: nat,
    now: u64,
    duration: u64,
) -> Map<u128, CacheEntry> {
    if m0.len() >= max {
        fresh_part(m0, now, duration)
    } else {
        m0
    }
}

/// `k` is an entry of `m` stored no later than any other (an oldest one).
pub open spec fn oldest_in(m: Map<u128, CacheEntry>, k: u128) -> bool {
    m.contains_key(k) && forall|j: u128| #[trigger] m.contains_key(j) ==> m[k].1 <= m[j].1
}

/// What storing `entry` under `key` does to the entries `m0`, giving `m2`:
/// when the cache is full (`max` entries or more) the expired entries are
/// dropped and, if it is still full and not empty, an oldest entry (one
/// stored at the earliest tick) is evicted.
pub open spec fn insert_outcome(
    m0: Map<u128, CacheEntry>,
    m2: Map<u128, CacheEntry>,
    max: nat,
    duration: u64,
    key: u128,
    entry: CacheEntry,
) -> bool {
    let m1 = after_expiry(m0, max, entry.1, duration);
    if m0.len() >= max && m1.len() >= max && m1.len() > 0 {
        exists|k: u128| #[trigger] oldest_in(m1, k) && m2 == m1.remove(k).insert(key, entry)
    } else {
        m2 == m1.insert(key, entry)
    }
}

/// Every entry of `m` was stored at or before tick `now`.
pub open spec fn stored_by(m: Map<u128, CacheEntry>, now: u64) -> bool {
    forall|k: u128| #[trigger] m.contains_key(k) ==> m[k].1 <= now
}

/// A route just stored is found under its key, with its tick.
pub proof fn law_cache_read_after_write(
    m0: Map<u128, CacheEntry>,
    m2: Map<u128, CacheEntry>,
    max: nat,
    duration: u64,
    origin: IVec2,
    dest: IVec2,
    entry: CacheEntry,
)
    requires
        insert_outcome(m0, m2, max, duration, pair_key(origin, dest), entry),
    ensures
        m2.contains_key(pair_key(origin, dest)),
        m2[pair_key(origin, dest)] == entry,
{
    let m1 = after_expiry(m0, max, entry.1, duration);
    if m0.len() >= max && m1.len() >= max && m1.len() > 0 {
        let k = choose|k: u128| #[trigger] oldest_in(m1, k) && m2 == m1.remove(k).insert(pair_key(origin, dest), entry);
    }
}

/// Storing a route never takes a cache of positive capacity beyond it.
pub proof fn law_cache_capacity(
    m0: Map<u128, CacheEntry>,
    m2: Map<u128, CacheEntry>,
    max: nat,
    duration: u64,
    key: u128,
    entry: CacheEntry,
)
    requires
        m0.dom().finite(),
        0 < max,
        m0.len() <= max,
        insert_outcome(m0, m2, max, duration, key, entry),
    ensures
        m2.len() <= max,
{
    let m1 = after_expiry(m0, max, entry.1, duration);
    let f = m0.dom().filter(|k: u128| entry.1 - m0[k].1 <= duration);
    assert(f.subset_of(m0.dom()));
    vstd::set_lib::lemma_len_subset(f, m0.dom());
    assert(m1.dom().subset_of(m0.dom()));
    vstd::set_lib::lemma_len_subset(m1.dom(), m0.dom());
    if m0.len() >= max && m1.len() >= max && m1.len() > 0 {
        let k = choose|k: u128| #[trigger] oldest_in(m1, k) && m2 == m1.remove(k).insert(key, entry);
        assert(m1.remove(k).len() == m1.len() - 1);
        assert(m2.dom() =~= m1.remove(k).dom().insert(key));
    } else {
        assert(m2.dom() =~= m1.dom().insert(key));
    }
}

/// Routes already computed, keyed by (origin, destination), kept for a
/// limited number of ticks and up to a maximum number of entries, with
/// counters of lookups that found or missed a valid route.
pub struct PathCache {
    /// Stored routes under the key `pair_key(origin, destination)`.
    pub cache: HashMap<u128, CacheEntry>,
    max_entries: usize,
    cache_duration_ticks: u64,
    pub hits: u64,
    pub misses: u64,
}

impl PathCache {
    /// The stored routes with the tick each was stored at.
    pub closed spec fn entries(&self) -> Map<u128, CacheEntry> {
        self.cache@
    }

    /// Lookups that found a valid route.
    pub closed spec fn hit_count(&self) -> u64 {
        self.hits
    }

    /// Lookups that found no valid route.
    pub closed spec fn miss_count(&self) -> u64 {
        self.misses
    }

    /// Most entries kept before eviction starts.
    pub closed spec fn max_entries_view(&self) -> nat {
        self.max_entries as nat
    }

    /// How many ticks an entry stays valid.
    pub closed spec fn duration_view(&self) -> u64 {
        self.cache_duration_ticks
    }

    /// Creates an empty cache with the given capacity and validity period.
    pub fn new(max_entries: usize, cache_duration_ticks: u64) -> (c: PathCache)
        ensures
            c.entries() == Map::<u128, CacheEntry>::empty(),
            c.max_entries_view() == max_entries,
            c.duration_view() == cache_duration_ticks,
            c.hit_count() == 0,
            c.miss_count() == 0,
    {
        PathCache {
            cache: HashMap::with_capacity(max_entries),
            max_entries,
            cache_duration_ticks,
            hits: 0,
            misses: 0,
        }
    }

    /// Looks up a still-valid route from `origin` to `dest`, counting the
    /// lookup as a hit or a miss.
    pub fn get(&mut self, origin: IVec2, dest: IVec2, current_tick: u64) -> (r: Option<
        Vec<IVec2>,
    >)
        requires
            old(self).entries().contains_key(pair_key(origin, dest)) ==> old(self).entries()[pair_key(
                origin,
                dest,
            )].1 <= current_tick,
            old(self).hit_count() < u64::MAX,
            old(self).miss_count() < u64::MAX,
        ensures
            final(self).entries() == old(self).entries(),
            final(self).max_entries_view() == old(self).max_entries_view(),
            final(self).duration_view() == old(self).duration_view(),
            ({
                let k = pair_key(origin, dest);
                let m = old(self).entries();
                if m.contains_key(k) && current_tick - m[k].1 <= old(self).duration_view() {
                    &&& r is Some
                    &&& r->0@ == m[k].0@
                    &&& final(self).hit_count() == old(self).hit_count() + 1
                    &&& final(self).miss_count() == old(self).miss_count()
                } else {
                    &&& r is None
                    &&& final(self).hit_count() == old(self).hit_count()
                    &&& final(self).miss_count() == old(self).miss_count() + 1
                }
            }),
    {
        let k = pair_key_of(origin, dest);
        let result = match self.cache.get(&k) {
            Some(entry) => {
                if current_tick - entry.1 <= self.cache_duration_ticks {
                    let p = entry.0.clone();
                    assert(p@ =~= entry.0@);
                    Some(p)
                } else {
                    None
                }
            },
            None => None,
        };
        if result.is_some() {
            self.hits = self.hits + 1;
        } else {
            self.misses = self.misses + 1;
        }
        result
    }

    /// Sets both counters back to zero.
    pub fn reset_metrics(&mut self)
        ensures
            final(self).entries() == old(self).entries(),
            final(self).max_entries_view() == old(self).max_entries_view(),
            final(self).duration_view() == old(self).duration_view(),
            final(self).hit_count() == 0,
            final(self).miss_count() == 0,
    {
        self.hits = 0;
        self.misses = 0;
    }

    /// Drops the entries that are no longer valid at `current_tick`.
    fn retain_fresh(&mut self, current_tick: u64)
        requires
            stored_by(old(self).entries(), current_tick),
        ensures
            final(self).entries() == fresh_part(
                old(self).entries(),
                current_tick,
                old(self).duration_view(),
            ),
            final(self).max_entries_view() == old(self).max_entries_view(),
            final(self).duration_view() == old(self).duration_view(),
            final(self).hit_count() == old(self).hit_count(),
            final(self).miss_count() == old(self).miss_count(),
    {
        let keys = collect_keys(&self.cache);
        let ghost m0 = self.cache@;
        let dur = self.cache_duration_ticks;
        let mut i: usize = 0;
        while i < keys.len()
            invariant
                0 <= i <= keys.len(),
                keys@.to_set() == m0.dom(),
                keys@.no_duplicates(),
                stored_by(m0, current_tick),
                dur == self.cache_duration_ticks,
                self.max_entries == old(self).max_entries,
                self.cache_duration_ticks == old(self).cache_duration_ticks,
                self.hits == old(self).hit_count(),
                self.misses == old(self).miss_count(),
                m0 == old(self).entries(),
                self.cache@ == m0.restrict(
                    m0.dom().filter(
                        |k: u128| !among_first(keys@, i as int, k) || current_tick - m0[k].1
                            <= dur,
                    ),
                ),
            decreases keys.len() - i,
        {
            let k = keys[i];
            proof {
                assert(keys@.to_set().contains(k));
            }
            let expired = match self.cache.get(&k) {
                Some(entry) => current_tick - entry.1 > dur,
                None => false,
            };
            let ghost before = self.cache@;
            if expired {
                self.cache.remove(&k);
            }
            proof {
                assert forall|j: u128|
                    among_first(keys@, i + 1, j) <==> (among_first(keys@, i as int, j) || j
                        == k) by {
                    if among_first(keys@, i + 1, j) {
                        let t = choose|t: int| 0 <= t < i + 1 && keys@[t] == j;
                        if t < i {
                            assert(among_first(keys@, i as int, j));
                        }
                    }
                    if among_first(keys@, i as int, j) {
                        let t = choose|t: int| 0 <= t < i && keys@[t] == j;
                        assert(0 <= t < i + 1 && keys@[t] == j);
                    }
                    if j == k {
                        assert(0 <= i < i + 1 && keys@[i as int] == j);
                    }
                }
                assert(self.cache@ =~= m0.restrict(
                    m0.dom().filter(
                        |j: u128| !among_first(keys@, i + 1, j) || current_tick - m0[j].1 <= dur,
                    ),
                ));
            }
            i = i + 1;
        }
        proof {
            assert forall|j: u128| m0.dom().contains(j) implies among_first(
                keys@,
                keys.len() as int,
                j,
            ) by {
                assert(keys@.to_set().contains(j));
                let t = choose|t: int| 0 <= t < keys.len() && keys@[t] == j;
            }
            assert(self.cache@ =~= fresh_part(m0, current_tick, dur));
        }
    }

    /// A key, among `keys` (all the keys held), whose entry was stored at
    /// the earliest tick.
    fn oldest_key(&self, keys: &Vec<u128>) -> (k: u128)
        requires
            keys@.len() > 0,
            keys@.to_set() == self.cache@.dom(),
        ensures
            oldest_in(self.cache@, k),
    {
        let ghost m = self.cache@;
        let mut best = keys[0];
        proof {
            assert(keys@.to_set().contains(keys@[0]));
        }
        let mut best_tick = match self.cache.get(&best) {
            Some(e) => e.1,
            None => 0,
        };
        let mut i: usize = 1;
        while i < keys.len()
            invariant
                1 <= i <= keys.len(),
                keys@.to_set() == m.dom(),
                m == self.cache@,
                m.contains_key(best),
                best_tick == m[best].1,
                forall|t: int| 0 <= t < i ==> best_tick <= m[#[trigger] keys@[t]].1,
            decreases keys.len() - i,
        {
            let k = keys[i];
            proof {
                assert(keys@.to_set().contains(k));
            }
            let t = match self.cache.get(&k) {
                Some(e) => e.1,
                None => best_tick,
            };
            if t < best_tick {
                best = k;
                best_tick = t;
            }
            i = i + 1;
        }
        proof {
            assert forall|j: u128| #[trigger] m.contains_key(j) implies m[best].1 <= m[j].1 by {
                assert(keys@.to_set().contains(j));
                let t = choose|t: int| 0 <= t < keys@.len() && keys@[t] == j;
            }
        }
        best
    }

    /// Stores a route computed at `current_tick`. When the cache is full,
    /// expired entries are dropped first and, if it is still full, an
    /// oldest entry (stored at the earliest tick) is evicted.
    pub fn insert(&mut self, origin: IVec2, dest: IVec2, path: Vec<IVec2>, current_tick: u64)
        requires
            old(self).entries().len() >= old(self).max_entries_view() ==> stored_by(
                old(self).entries(),
                current_tick,
            ),
        ensures
            final(self).max_entries_view() == old(self).max_entries_view(),
            final(self).duration_view() == old(self).duration_view(),
            final(self).hit_count() == old(self).hit_count(),
            final(self).miss_count() == old(self).miss_count(),
            insert_outcome(
                old(self).entries(),
                final(self).entries(),
                old(self).max_entries_view(),
                old(self).duration_view(),
                pair_key(origin, dest),
                (path, current_tick),
            ),
    {
        let key = pair_key_of(origin, dest);
        let ghost mut evicted: Option<u128> = None;
        let full = self.cache.len() >= self.max_entries;
        if full {
            self.retain_fresh(current_tick);
        }
        let ghost m1 = self.cache@;
        if full && self.cache.len() >= self.max_entries {
            let keys = collect_keys(&self.cache);
            if keys.len() > 0 {
                let oldest = self.oldest_key(&keys);
                proof {
                    evicted = Some(oldest);
                }
                self.cache.remove(&oldest);
            }
        }
        let ghost mid = self.cache@;
        self.cache.insert(key, (path, current_tick));
        proof {
            assert(full == (old(self).cache@.len() >= old(self).max_entries));
            if full {
                assert(m1 == fresh_part(old(self).cache@, current_tick, old(self).cache_duration_ticks));
            } else {
                assert(m1 == old(self).cache@);
            }
            if full && m1.len() >= self.max_entries && m1.len() > 0 {
                assert(evicted is Some);
                let k = evicted->0;
                assert(oldest_in(m1, k));
                assert(self.cache@ == m1.remove(k).insert(key, (path, current_tick)));
            } else {
                assert(mid == m1);
            }
            let em1 = after_expiry(
                old(self).entries(),
                old(self).max_entries_view(),
                current_tick,
                old(self).duration_view(),
            );
            assert(em1 == m1);
            if full && m1.len() >= self.max_entries && m1.len() > 0 {
                let k = evicted->0;
                assert(oldest_in(em1, k) && self.entries() == em1.remove(k).insert(
                    pair_key(origin, dest),
                    (path, current_tick),
                ));
            }

        }
    }

    /// Removes every stored route.
    pub fn clear(&mut self)
        ensures
            final(self).entries() == Map::<u128, CacheEntry>::empty(),
            final(self).max_entries_view() == old(self).max_entries_view(),
            final(self).duration_view() == old(self).duration_view(),
            final(self).hit_count() == old(self).hit_count(),
            final(self).miss_count() == old(self).miss_count(),
    {
        self.cache.clear();
    }

    /// Removes the routes that are no longer valid at `current_tick`.
    pub fn cleanup(&mut self, current_tick: u64)
        requires
            stored_by(old(self).entries(), current_tick),
        ensures
            final(self).entries() == fresh_part(
                old(self).entries(),
                current_tick,
                old(self).duration_view(),
            ),
            final(self).max_entries_view() == old(self).max_entries_view(),
            final(self).duration_view() == old(self).duration_view(),
            final(self).hit_count() == old(self).hit_count(),
            final(self).miss_count() == old(self).miss_count(),
    {
        self.retain_fresh(current_tick);
    }
}

impl Default for PathCache {
    fn default() -> (c: PathCache)
        ensures
            c.entries() == Map::<u128, CacheEntry>::empty(),
            c.max_entries_view() == 1000,
            c.duration_view() == 300,
            c.hit_count() == 0,
            c.miss_count() == 0,
    {
        PathCache::new(1000, 300)
    }
}

} // verus!
