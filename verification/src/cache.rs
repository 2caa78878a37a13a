//! A cache of found paths, keyed by start and goal, with a time to live and
//! eviction of the least used entry.

use std::time::{Duration, Instant};
use vstd::prelude::*;
use crate::algorithms::astar::{astar, astar_outcome, AStarConfig};
use crate::clock::{elapsed, nanos_in, now, whole_nanos};
use crate::traits::{edge_link, is_route, Graph, Heuristic, Keyed, PathResult, PathStatus};

verus! {

/// A cached result with the time it was stored at and the number of times it was served.
pub struct CachedPath<N> {
    pub start: N,
    pub goal: N,
    pub result: PathResult<N>,
    /// Nanoseconds on the cache's clock.
    pub created: u128,
    pub hits: u32,
}

pub struct PathCache<N: Keyed> {
    entries: Vec<CachedPath<N>>,
    max_entries: usize,
    /// Nanoseconds.
    max_age: u128,
    epoch: Instant,
}

/// Whether `e` is the entry for the pair `start`, `goal`.
pub open spec fn is_entry_for<N: Keyed>(e: CachedPath<N>, start: N, goal: N) -> bool {
    e.start.key_of() == start.key_of() && e.goal.key_of() == goal.key_of()
}

/// The index of the first entry for `start` and `goal` at or after `from`; the length where there is none.
pub open spec fn first_match<N: Keyed>(entries: Seq<CachedPath<N>>, start: N, goal: N, from: int) -> int
    decreases entries.len() - from,
{
    if from < 0 || from >= entries.len() {
        entries.len() as int
    } else if is_entry_for(entries[from], start, goal) {
        from
    } else {
        first_match(entries, start, goal, from + 1)
    }
}

/// Whether an entry created at `created` is younger than `max_age` at the time `at`.
pub open spec fn is_fresh(created: u128, at: u128, max_age: u128) -> bool {
    (if at >= created { at - created } else { 0 }) < max_age
}

/// Whether `a` is evicted before `b`: fewer hits, or as many and older.
pub open spec fn evicted_before<N>(a: CachedPath<N>, b: CachedPath<N>) -> bool {
    a.hits < b.hits || (a.hits == b.hits && a.created < b.created)
}

/// The index among the first `n` entries of the one to evict: the first
/// with the fewest hits and, among those, the earliest creation.
pub open spec fn eviction_index<N>(entries: Seq<CachedPath<N>>, n: nat) -> int
    decreases n,
{
    if n <= 1 {
        0
    } else {
        let best = eviction_index(entries, (n - 1) as nat);
        if evicted_before(entries[n - 1], entries[best]) {
            n - 1
        } else {
            best
        }
    }
}

/// The entries after room has been made for one more under the limit `max_entries`.
pub open spec fn with_room<N>(entries: Seq<CachedPath<N>>, max_entries: usize) -> Seq<CachedPath<N>> {
    if entries.len() >= max_entries && entries.len() > 0 {
        entries.remove(eviction_index(entries, entries.len()))
    } else {
        entries
    }
}

/// The entries with `e` stored: in place of the entry for the same pair, or at the end.
pub open spec fn with_entry<N: Keyed>(entries: Seq<CachedPath<N>>, e: CachedPath<N>) -> Seq<CachedPath<N>> {
    let i = first_match(entries, e.start, e.goal, 0);
    if i < entries.len() {
        entries.update(i, e)
    } else {
        entries.push(e)
    }
}

/// The entries after `result` has been stored for `start` and `goal` at the
/// time `at`, under the limit `max_entries`.
pub open spec fn stored_at<N: Keyed>(
    entries: Seq<CachedPath<N>>,
    max_entries: usize,
    start: N,
    goal: N,
    result: PathResult<N>,
    at: u128,
) -> Seq<CachedPath<N>> {
    with_entry(with_room(entries, max_entries), CachedPath { start, goal, result, created: at, hits: 0 })
}

/// What a lookup of `start` and `goal` at the time `at` does to the
/// entries `before`, which age at `max_age`: a fresh entry for the pair is
/// served and counts one more hit; otherwise nothing is served and nothing changes.
pub open spec fn served_at<N: Keyed>(
    before: Seq<CachedPath<N>>,
    max_age: u128,
    start: N,
    goal: N,
    at: u128,
    after: Seq<CachedPath<N>>,
    r: Option<PathResult<N>>,
) -> bool {
    let i = first_match(before, start, goal, 0);
    if i < before.len() && is_fresh(before[i].created, at, max_age) {
        &&& r is Some
        &&& r->0@ == before[i].result@
        &&& after == before.update(
            i,
            CachedPath {
                hits: if before[i].hits == u32::MAX {
                    u32::MAX
                } else {
                    (before[i].hits + 1) as u32
                },
                ..before[i]
            },
        )
    } else {
        r is None && after == before
    }
}

/// Whether `f` can say of every node whether it matches.
pub open spec fn decides<N, F: Fn(&N) -> bool>(f: &F) -> bool {
    forall|n: N| call_requires(*f, (&n,))
}

/// Whether the items of `kept` stand in `all` at the indices `at`, which rise.
pub open spec fn kept_at<T>(kept: Seq<T>, all: Seq<T>, at: Seq<int>) -> bool {
    &&& at.len() == kept.len()
    &&& forall|j: int| 0 <= j < kept.len() ==> 0 <= #[trigger] at[j] < all.len() && kept[j] == all[at[j]]
    &&& forall|i: int, j: int| 0 <= i < j < kept.len() ==> #[trigger] at[i] < #[trigger] at[j]
}

/// Whether `kept` is `all` with some of its items left out, the others in their order.
pub open spec fn is_kept_from<T>(kept: Seq<T>, all: Seq<T>) -> bool {
    exists|at: Seq<int>| kept_at(kept, all, at)
}

/// Whether `f` has let every node that `e` touches pass: its start, its goal and its path.
pub open spec fn clear_of<N, F: Fn(&N) -> bool>(e: CachedPath<N>, f: &F) -> bool {
    &&& call_ensures(*f, (&e.start,), false)
    &&& call_ensures(*f, (&e.goal,), false)
    &&& forall|k: int| 0 <= k < e.result.path@.len() ==> call_ensures(*f, (&#[trigger] e.result.path@[k],), false)
}

/// Whether `f` has matched a node that `e` touches.
pub open spec fn touched_by<N, F: Fn(&N) -> bool>(e: CachedPath<N>, f: &F) -> bool {
    ||| call_ensures(*f, (&e.start,), true)
    ||| call_ensures(*f, (&e.goal,), true)
    ||| exists|k: int| 0 <= k < e.result.path@.len() && call_ensures(*f, (&#[trigger] e.result.path@[k],), true)
}

proof fn lemma_first_match_in_range<N: Keyed>(entries: Seq<CachedPath<N>>, start: N, goal: N, from: int)
    requires
        0 <= from <= entries.len(),
    ensures
        from <= first_match(entries, start, goal, from) <= entries.len(),
        first_match(entries, start, goal, from) < entries.len() ==> is_entry_for(
            entries[first_match(entries, start, goal, from)],
            start,
            goal,
        ),
    decreases entries.len() - from,
{
    if from < entries.len() && !is_entry_for(entries[from], start, goal) {
        lemma_first_match_in_range(entries, start, goal, from + 1);
    }
}

impl<N: Keyed> PathCache<N> {
    /// The entries, in the order they were stored.
    pub closed spec fn entries(&self) -> Seq<CachedPath<N>> {
        self.entries@
    }

    /// The largest number of entries kept.
    pub closed spec fn capacity(&self) -> usize {
        self.max_entries
    }

    /// The age, in nanoseconds, from which an entry is a miss.
    pub closed spec fn age_limit(&self) -> u128 {
        self.max_age
    }

    /// Create a path cache with a maximum size and entry age.
    /// Paths older than `max_age` are treated as misses.
    pub fn new(max_entries: usize, max_age: Duration) -> (r: Self)
        ensures
            r.entries().len() == 0,
            r.capacity() == max_entries,
            r.age_limit() == nanos_in(max_age),
    {
        PathCache { entries: Vec::new(), max_entries, max_age: whole_nanos(&max_age), epoch: now() }
    }

    /// A cache like that of `new`, with the largest age given in nanoseconds.
    pub fn with_age_limit(max_entries: usize, max_age_nanos: u128) -> (r: Self)
        ensures
            r.entries().len() == 0,
            r.capacity() == max_entries,
            r.age_limit() == max_age_nanos,
    {
        PathCache { entries: Vec::new(), max_entries, max_age: max_age_nanos, epoch: now() }
    }

    fn find(&self, start: &N, goal: &N) -> (i: usize)
        ensures
            i == first_match(self.entries(), *start, *goal, 0),
            i <= self.entries().len(),
            i < self.entries().len() ==> is_entry_for(self.entries()[i as int], *start, *goal),
    {
        let sk: u128 = start.key();
        let gk: u128 = goal.key();
        let mut i: usize = 0;
        while i < self.entries.len()
            invariant
                i <= self.entries@.len(),
                sk == start.key_of(),
                gk == goal.key_of(),
                first_match(self.entries@, *start, *goal, 0) == first_match(self.entries@, *start, *goal, i as int),
            decreases self.entries@.len() - i,
        {
            if self.entries[i].start.key() == sk && self.entries[i].goal.key() == gk {
                return i;
            }
            i += 1;
        }
        i
    }

    /// Returns a copy of the cached result for the pair if there is one and
    /// it is younger than the age limit at the time `at`; the entry then
    /// counts one more hit. An entry that has reached the age limit is a
    /// miss, and stays.
    pub fn get_at(&mut self, start: &N, goal: &N, at: u128) -> (r: Option<PathResult<N>>)
        ensures
            final(self).capacity() == old(self).capacity(),
            final(self).age_limit() == old(self).age_limit(),
            final(self).entries().len() == old(self).entries().len(),
            served_at(old(self).entries(), old(self).age_limit(), *start, *goal, at, final(self).entries(), r),
    {
        let i: usize = self.find(start, goal);
        if i < self.entries.len() {
            let created: u128 = self.entries[i].created;
            let age: u128 = if at >= created { at - created } else { 0 };
            if age < self.max_age {
                let hits: u32 = self.entries[i].hits;
                self.entries[i].hits = if hits == u32::MAX { u32::MAX } else { hits + 1 };
                return Some(self.entries[i].result.duplicate());
            }
        }
        None
    }

    /// Reads the clock and calls `get_at` with the reading.
    pub fn get(&mut self, start: &N, goal: &N) -> (r: Option<PathResult<N>>)
        ensures
            final(self).capacity() == old(self).capacity(),
            final(self).age_limit() == old(self).age_limit(),
            final(self).entries().len() == old(self).entries().len(),
            exists|at: u128| #[trigger]
                served_at(old(self).entries(), old(self).age_limit(), *start, *goal, at, final(self).entries(), r),
            r matches Some(res) ==> {
                let i = first_match(old(self).entries(), *start, *goal, 0);
                i < old(self).entries().len() && res@ == old(self).entries()[i].result@
            },
            first_match(old(self).entries(), *start, *goal, 0) >= old(self).entries().len() ==> r is None,
            r is None ==> final(self).entries() == old(self).entries(),
    {
        let at: u128 = whole_nanos(&elapsed(&self.epoch));
        self.get_at(start, goal, at)
    }

    /// Evicts a single entry: the one with the fewest hits and, among those, the oldest.
    fn evict_one(&mut self)
        ensures
            final(self).capacity() == old(self).capacity(),
            final(self).age_limit() == old(self).age_limit(),
            final(self).entries() == (if old(self).entries().len() > 0 {
                old(self).entries().remove(eviction_index(old(self).entries(), old(self).entries().len()))
            } else {
                old(self).entries()
            }),
    {
        let n: usize = self.entries.len();
        if n == 0 {
            return ;
        }
        let mut best: usize = 0;
        let mut i: usize = 1;
        while i < n
            invariant
                n == self.entries@.len(),
                1 <= i <= n,
                best < i,
                best == eviction_index(self.entries@, i as nat),
            decreases n - i,
        {
            let a_hits: u32 = self.entries[i].hits;
            let a_created: u128 = self.entries[i].created;
            let b_hits: u32 = self.entries[best].hits;
            let b_created: u128 = self.entries[best].created;
            if a_hits < b_hits || (a_hits == b_hits && a_created < b_created) {
                best = i;
            }
            i += 1;
        }
        self.entries.remove(best);
    }

    /// Stores a result found at the time `at`. Results that are not
    /// `Found` are ignored. With the cache full, one entry is evicted first.
    pub fn insert_at(&mut self, start: N, goal: N, result: PathResult<N>, at: u128)
        ensures
            final(self).capacity() == old(self).capacity(),
            final(self).age_limit() == old(self).age_limit(),
            result.status != PathStatus::Found ==> final(self).entries() == old(self).entries(),
            result.status == PathStatus::Found ==> final(self).entries() == stored_at(
                old(self).entries(),
                old(self).capacity(),
                start,
                goal,
                result,
                at,
            ),
    {
        if result.status != PathStatus::Found {
            return ;
        }
        if self.entries.len() >= self.max_entries {
            self.evict_one();
        }
        let entry = CachedPath { start, goal, result, created: at, hits: 0 };
        let i: usize = self.find(&start, &goal);
        if i < self.entries.len() {
            self.entries.set(i, entry);
        } else {
            self.entries.push(entry);
        }
    }

    /// Insert a `PathResult` into the cache, stamped with the present time.
    /// Results that are not `Found` are ignored.
    pub fn insert(&mut self, start: N, goal: N, result: PathResult<N>)
        ensures
            final(self).capacity() == old(self).capacity(),
            final(self).age_limit() == old(self).age_limit(),
            result.status != PathStatus::Found ==> final(self).entries() == old(self).entries(),
            result.status == PathStatus::Found ==> exists|at: u128|
                final(self).entries() == #[trigger] stored_at(
                    old(self).entries(),
                    old(self).capacity(),
                    start,
                    goal,
                    result,
                    at,
                ),
    {
        let at: u128 = whole_nanos(&elapsed(&self.epoch));
        self.insert_at(start, goal, result, at);
    }

    fn touches<F: Fn(&N) -> bool>(e: &CachedPath<N>, predicate: &F) -> (r: bool)
        requires
            decides::<N, F>(predicate),
        ensures
            r ==> touched_by(*e, predicate),
            !r ==> clear_of(*e, predicate),
    {
        if predicate(&e.start) {
            return true;
        }
        if predicate(&e.goal) {
            return true;
        }
        let mut k: usize = 0;
        while k < e.result.path.len()
            invariant
                k <= e.result.path@.len(),
                decides::<N, F>(predicate),
                forall|j: int| 0 <= j < k ==> call_ensures(*predicate, (&#[trigger] e.result.path@[j],), false),
            decreases e.result.path@.len() - k,
        {
            if predicate(&e.result.path[k]) {
                return true;
            }
            k += 1;
        }
        false
    }

    /// Invalidate cached paths that touch nodes matching `predicate`: every
    /// entry whose start, goal or path holds a matching node is dropped, and
    /// the others stay in their order.
    pub fn invalidate_region<F: Fn(&N) -> bool>(&mut self, predicate: F)
        requires
            decides::<N, F>(&predicate),
        ensures
            final(self).capacity() == old(self).capacity(),
            final(self).age_limit() == old(self).age_limit(),
            forall|j: int|
                0 <= j < final(self).entries().len() ==> clear_of(#[trigger] final(self).entries()[j], &predicate)
                    && old(self).entries().contains(final(self).entries()[j]),
            forall|i: int|
                0 <= i < old(self).entries().len() ==> touched_by(#[trigger] old(self).entries()[i], &predicate)
                    || final(self).entries().contains(old(self).entries()[i]),
            is_kept_from(final(self).entries(), old(self).entries()),
    {
        let mut i: usize = 0;
        let ghost mut done: int = 0;
        let ghost mut at: Seq<int> = Seq::empty();
        while i < self.entries.len()
            invariant
                at.len() == i,
                forall|j: int| 0 <= j < i ==> 0 <= #[trigger] at[j] < done && self.entries@[j] == old(self).entries@[at[j]],
                forall|a: int, b: int| 0 <= a < b < i ==> #[trigger] at[a] < #[trigger] at[b],
                decides::<N, F>(&predicate),
                self.max_entries == old(self).max_entries,
                self.max_age == old(self).max_age,
                i <= self.entries@.len(),
                0 <= done <= old(self).entries@.len(),
                self.entries@.len() - i == old(self).entries@.len() - done,
                forall|k: int| i <= k < self.entries@.len() ==> self.entries@[k] == old(self).entries@[k - i + done],
                forall|j: int|
                    0 <= j < i ==> clear_of(#[trigger] self.entries@[j], &predicate) && old(self).entries@.contains(
                        self.entries@[j],
                    ),
                forall|k: int|
                    0 <= k < done ==> touched_by(#[trigger] old(self).entries@[k], &predicate) || exists|j: int|
                        0 <= j < i && self.entries@[j] == old(self).entries@[k],
            decreases self.entries@.len() - i,
        {
            let ghost before = self.entries@;
            let ghost e = self.entries@[i as int];
            proof {
                assert(e == old(self).entries@[done]);
            }
            if Self::touches(&self.entries[i], &predicate) {
                self.entries.remove(i);
                proof {
                    assert forall|k: int| 0 <= k < done + 1 implies touched_by(
                        #[trigger] old(self).entries@[k],
                        &predicate,
                    ) || exists|j: int| 0 <= j < i && self.entries@[j] == old(self).entries@[k] by {
                        if k < done && !touched_by(old(self).entries@[k], &predicate) {
                            let j = choose|j: int| 0 <= j < i && before[j] == old(self).entries@[k];
                            assert(self.entries@[j] == before[j]);
                        }
                    }
                    done = done + 1;
                }
            } else {
                proof {
                    assert forall|k: int| 0 <= k < done + 1 implies touched_by(
                        #[trigger] old(self).entries@[k],
                        &predicate,
                    ) || exists|j: int| 0 <= j < i + 1 && self.entries@[j] == old(self).entries@[k] by {
                        if k == done {
                            assert(self.entries@[i as int] == old(self).entries@[k]);
                        } else if !touched_by(old(self).entries@[k], &predicate) {
                            let j = choose|j: int| 0 <= j < i && self.entries@[j] == old(self).entries@[k];
                            assert(0 <= j < i + 1);
                        }
                    }
                    at = at.push(done);
                    done = done + 1;
                }
                i += 1;
            }
        }
        proof {
            assert forall|k: int| 0 <= k < old(self).entries().len() implies touched_by(
                #[trigger] old(self).entries()[k],
                &predicate,
            ) || self.entries().contains(old(self).entries()[k]) by {
                if !touched_by(old(self).entries@[k], &predicate) {
                    let j = choose|j: int| 0 <= j < i && self.entries@[j] == old(self).entries@[k];
                    assert(self.entries@[j] == old(self).entries@[k]);
                }
            }
            assert(kept_at(self.entries(), old(self).entries(), at));
        }
    }

    pub fn clear(&mut self)
        ensures
            final(self).capacity() == old(self).capacity(),
            final(self).age_limit() == old(self).age_limit(),
            final(self).entries().len() == 0,
    {
        self.entries.clear();
    }

    pub fn len(&self) -> (n: usize)
        ensures
            n == self.entries().len(),
    {
        self.entries.len()
    }
}

/// Run A* with a simple start/goal cache. Only `Found` results are cached.
///
/// A fresh entry for the pair is served as it is; otherwise the result is
/// that of `astar`, and it is stored if it is `Found`.
pub fn astar_with_cache<G: Graph, H: Heuristic<G::Node>>(
    graph: &G,
    heuristic: &H,
    start: G::Node,
    goal: G::Node,
    config: AStarConfig,
    cache: &mut PathCache<G::Node>,
) -> (r: PathResult<G::Node>)
    requires
        graph.well_formed(),
    ensures
        final(cache).capacity() == old(cache).capacity(),
        final(cache).age_limit() == old(cache).age_limit(),
        ({
            let i = first_match(old(cache).entries(), start, goal, 0);
            ||| {
                &&& i < old(cache).entries().len()
                &&& r@ == old(cache).entries()[i].result@
                &&& final(cache).entries().len() == old(cache).entries().len()
            }
            ||| {
                &&& r.status != PathStatus::PartialTimeout ==> r@ == astar_outcome(
                    graph,
                    heuristic,
                    start,
                    goal,
                    config,
                )
                &&& r.status == PathStatus::PartialTimeout ==> config.timeout is Some
                &&& r.status != PathStatus::NotFound ==> is_route(r.path@, start, r.cost, edge_link(graph))
                &&& r.status != PathStatus::Found ==> final(cache).entries() == old(cache).entries()
                &&& r.status == PathStatus::Found ==> final(cache).entries().len() >= 1
            }
        }),
{
    if let Some(hit) = cache.get(&start, &goal) {
        return hit;
    }
    let result = astar(graph, heuristic, start, goal, config);
    if result.status == PathStatus::Found {
        let ghost before = cache.entries();
        cache.insert(start, goal, result.duplicate());
        proof {
            lemma_first_match_in_range(with_room(before, cache.capacity()), start, goal, 0);
        }
    }
    result
}

} // verus!
