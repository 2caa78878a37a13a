//! The bookkeeping shared by the best-first searches: the frontier, the best
//! known cost of every discovered node and the tree of predecessors.

use std::collections::HashMap;
use std::time::Instant;
use vstd::prelude::*;
use vstd::multiset::Multiset;
pub use crate::algorithms::frontier::{entry_before, first_entry, is_first, Entry, Frontier};
use crate::algorithms::astar::{tie_rank, TieBreaking};
use crate::clock::{elapsed, whole_nanos};
use crate::cost::{cost_add, cost_sum, Cost, COST_INFINITY};
use crate::traits::{
    is_linked_path, is_route, nothing_found, total_cost, Heuristic, Keyed, Outcome, PathResult,
    PathStatus,
};

verus! {

broadcast use {
    vstd::std_specs::hash::group_hash_axioms,
    vstd::multiset::group_multiset_axioms,
    vstd::seq_lib::group_to_multiset_ensures,
};

/// A search in progress.
pub struct Search<N: Keyed> {
    frontier: Frontier<N>,
    best: HashMap<u128, Cost>,
    parent: HashMap<u128, N>,
    next_seq: u128,
    iterations: usize,
    expanded: usize,
    step: Ghost<Map<u128, Cost>>,
    hops: Ghost<Map<u128, nat>>,
    live: Ghost<Map<u128, Entry<N>>>,
}

impl<N: Keyed> View for Search<N> {
    type V = SearchState<N>;

    closed spec fn view(&self) -> SearchState<N> {
        SearchState {
            frontier: self.frontier@,
            best: self.best@,
            parent: self.parent@,
            step: self.step@,
            hops: self.hops@,
            live: self.live@,
            next_seq: self.next_seq,
            iterations: self.iterations,
            expanded: self.expanded,
        }
    }
}

/// The search that has only seen its start satisfies the invariant.
pub proof fn lemma_initial<N: Keyed>(start: N, h: Cost, link: spec_fn(N, N, Cost) -> bool)
    ensures
        SearchState::initial(start, h).inv(start, link),
{
    let s = SearchState::initial(start, h);
    let first = Entry { f: h, tie: 0, seq: 0, g: 0, node: start };
    assert forall|e: Entry<N>| #[trigger] s.frontier.count(e) > 0 implies e == first by {
        if e != first {
            assert(Multiset::<Entry<N>>::empty().insert(first).count(e) == 0);
        }
    }
    assert forall|e: Entry<N>| #[trigger] s.frontier.count(e) <= 1 by {
        if e != first {
            assert(Multiset::<Entry<N>>::empty().insert(first).count(e) == 0);
        }
    }
}

impl<N: Keyed> Search<N> {
    /// A search that has only seen `start`, whose estimate to the goal is `h`.
    pub(crate) fn new(start: N, h: Cost) -> (r: Self)
        ensures
            r@ == SearchState::initial(start, h),
    {
        let mut frontier: Frontier<N> = Frontier::new();
        frontier.push(Entry { f: h, tie: 0, seq: 0, g: 0, node: start });
        let mut best: HashMap<u128, Cost> = HashMap::new();
        best.insert(start.key(), 0);
        let parent: HashMap<u128, N> = HashMap::new();
        Search {
            frontier,
            best,
            parent,
            next_seq: 1,
            iterations: 0,
            expanded: 0,
            step: Ghost(Map::empty()),
            hops: Ghost(Map::empty().insert(start.key_of(), 0)),
            live: Ghost(
                Map::empty().insert(start.key_of(), Entry { f: h, tie: 0, seq: 0, g: 0, node: start }),
            ),
        }
    }

    /// A search that has seen nothing.
    pub(crate) fn idle() -> (r: Self)
        ensures
            r@ == SearchState::<N>::blank(),
    {
        Search {
            frontier: Frontier::new(),
            best: HashMap::new(),
            parent: HashMap::new(),
            next_seq: 0,
            iterations: 0,
            expanded: 0,
            step: Ghost(Map::empty()),
            hops: Ghost(Map::empty()),
            live: Ghost(Map::empty()),
        }
    }

    pub(crate) fn iterations(&self) -> (n: usize)
        ensures
            n == self@.iterations,
    {
        self.iterations
    }

    pub(crate) fn expanded(&self) -> (n: usize)
        ensures
            n == self@.expanded,
    {
        self.expanded
    }

    /// The best known cost of `node`, if it has been discovered.
    pub(crate) fn best_of(&self, node: &N) -> (r: Option<Cost>)
        ensures
            r == (if self@.best.contains_key(node.key_of()) {
                Some(self@.best[node.key_of()])
            } else {
                None
            }),
    {
        let k: u128 = node.key();
        match self.best.get(&k) {
            Some(g) => Some(*g),
            None => None,
        }
    }

    /// The recorded predecessor of `node`, if it has one.
    pub(crate) fn parent_of(&self, node: &N) -> (r: Option<N>)
        ensures
            r == (if self@.parent.contains_key(node.key_of()) {
                Some(self@.parent[node.key_of()])
            } else {
                None
            }),
    {
        let k: u128 = node.key();
        match self.parent.get(&k) {
            Some(p) => Some(*p),
            None => None,
        }
    }

    /// Takes the next entry off the frontier.
    pub(crate) fn pop(&mut self) -> (r: Option<Entry<N>>)
        ensures
            match r {
                None => old(self)@.frontier.len() == 0 && final(self)@ == old(self)@,
                Some(e) => is_first(old(self)@.frontier, e) && final(self)@ == old(self)@.without(e),
            },
    {
        self.frontier.pop_min()
    }

    /// Puts an entry back on the frontier.
    pub(crate) fn push_back(&mut self, e: Entry<N>)
        ensures
            final(self)@ == (SearchState { frontier: old(self)@.frontier.insert(e), ..old(self)@ }),
    {
        self.frontier.push(e);
    }

    /// Counts one more entry as taken.
    pub(crate) fn count(&mut self)
        requires
            old(self)@.iterations < usize::MAX,
        ensures
            final(self)@ == old(self)@.counted(),
    {
        self.iterations = self.iterations + 1;
    }

    /// Counts one more node as expanded.
    pub(crate) fn open(&mut self)
        requires
            old(self)@.expanded < usize::MAX,
        ensures
            final(self)@ == old(self)@.opened(),
    {
        self.expanded = self.expanded + 1;
    }

    /// Decides what to do with the entry `e`, which has just been taken off
    /// the frontier. `timed_out` says whether the clock has read past the time
    /// limit; it counts once the iteration limit has been tested and before
    /// the goal is.
    pub(crate) fn judge(
        &mut self,
        e: Entry<N>,
        goal: &N,
        limit: usize,
        timed_out: bool,
        Ghost(start): Ghost<N>,
        Ghost(link): Ghost<spec_fn(N, N, Cost) -> bool>,
    ) -> (r: Turn<N>)
        requires
            old(self)@.inv(start, link),
            old(self)@.has_room(),
            old(self)@.best.contains_key(e.node.key_of()),
            old(self)@.best[e.node.key_of()] <= e.g,
        ensures
            final(self)@.inv(start, link),
            match r {
                Turn::Done(res) => {
                    &&& judged_with(old(self)@, e, *goal, limit, timed_out) == Verdict::Ended(res@)
                    &&& res.status != PathStatus::NotFound
                    &&& is_route(res.path@, start, res.cost, link)
                    &&& res.path@.last() == e.node
                    &&& res.status == PathStatus::Found ==> e.node == *goal
                    &&& res.status == PathStatus::PartialTimeout ==> timed_out && old(self)@.iterations < limit
                    &&& res.status != PathStatus::PartialTimeout ==> judged(old(self)@, e, *goal, limit)
                        == Verdict::Ended(res@)
                },
                Turn::Skip => {
                    &&& judged_with(old(self)@, e, *goal, limit, timed_out) == Verdict::Stale(final(self)@)
                    &&& judged(old(self)@, e, *goal, limit) == Verdict::Stale(final(self)@)
                    &&& final(self)@.has_room()
                    &&& final(self)@.iterations == old(self)@.iterations + 1
                    &&& final(self)@.iterations <= limit
                },
                Turn::Expand(x) => {
                    &&& x == e
                    &&& judged_with(old(self)@, e, *goal, limit, timed_out) == Verdict::Grow(
                        old(self)@.counted(),
                        e,
                    )
                    &&& judged(old(self)@, e, *goal, limit) == Verdict::Grow(old(self)@.counted(), e)
                    &&& final(self)@ == old(self)@.counted().opened()
                    &&& final(self)@.has_room_to_grow()
                    &&& final(self)@.best[e.node.key_of()] == e.g
                    &&& final(self)@.iterations == old(self)@.iterations + 1
                    &&& final(self)@.iterations <= limit
                },
            },
    {
        if self.iterations >= limit {
            return Turn::Done(self.settle(e, PathStatus::PartialMaxIter, Ghost(start), Ghost(link)));
        }
        proof {
            self@.lemma_counted(start, link);
        }
        self.count();
        if timed_out {
            return Turn::Done(self.settle(e, PathStatus::PartialTimeout, Ghost(start), Ghost(link)));
        }
        if e.node.key() == goal.key() {
            proof {
                N::key_is_injective(e.node, *goal);
            }
            return Turn::Done(self.settle(e, PathStatus::Found, Ghost(start), Ghost(link)));
        }
        let known: Option<Cost> = self.best_of(&e.node);
        if known.unwrap() < e.g {
            return Turn::Skip;
        }
        self.open();
        Turn::Expand(e)
    }

    /// Takes the next entry off the frontier and decides what to do with it.
    /// With a time limit of `allowed` nanoseconds, the clock is read, and a
    /// reading past the limit ends the search at the entry taken.
    pub(crate) fn turn(
        &mut self,
        goal: &N,
        limit: usize,
        clock: &Instant,
        allowed: &Option<u128>,
        Ghost(start): Ghost<N>,
        Ghost(link): Ghost<spec_fn(N, N, Cost) -> bool>,
    ) -> (r: Turn<N>)
        requires
            old(self)@.inv(start, link),
            old(self)@.has_room(),
        ensures
            final(self)@.inv(start, link),
            match r {
                Turn::Done(res) => {
                    &&& res.status == PathStatus::NotFound ==> res.path@.len() == 0 && res.cost == 0
                    &&& res.status != PathStatus::NotFound ==> is_route(res.path@, start, res.cost, link)
                    &&& res.status == PathStatus::Found ==> res.path@.last() == *goal
                    &&& res.status == PathStatus::PartialTimeout ==> {
                        &&& *allowed is Some
                        &&& old(self)@.frontier.len() > 0
                        &&& old(self)@.iterations < limit
                        &&& res@ == cut_at(old(self)@)
                    }
                    &&& res.status != PathStatus::PartialTimeout ==> verdict(old(self)@, *goal, limit)
                        == Verdict::Ended(res@)
                },
                Turn::Skip => {
                    &&& verdict(old(self)@, *goal, limit) == Verdict::Stale(final(self)@)
                    &&& final(self)@.has_room()
                    &&& final(self)@.iterations == old(self)@.iterations + 1
                    &&& final(self)@.iterations <= limit
                },
                Turn::Expand(e) => {
                    &&& exists|u: SearchState<N>| #[trigger]
                        verdict(old(self)@, *goal, limit) == Verdict::Grow(u, e) && final(self)@ == u.opened()
                    &&& final(self)@.has_room_to_grow()
                    &&& final(self)@.best.contains_key(e.node.key_of())
                    &&& final(self)@.best[e.node.key_of()] == e.g
                    &&& final(self)@.iterations == old(self)@.iterations + 1
                    &&& final(self)@.iterations <= limit
                },
            },
    {
        let ghost s = self@;
        let popped: Option<Entry<N>> = self.pop();
        if popped.is_none() {
            return Turn::Done(PathResult::not_found(self.expanded));
        }
        let e: Entry<N> = popped.unwrap();
        proof {
            s.lemma_first_is_unique(start, link, e);
            s.lemma_without(start, link, e);
        }
        let timed_out: bool = match allowed {
            Some(nanos) => whole_nanos(&elapsed(clock)) > *nanos,
            None => false,
        };
        let r = self.judge(e, goal, limit, timed_out, Ghost(start), Ghost(link));
        proof {
            if let Turn::Expand(x) = r {
                assert(verdict(s, *goal, limit) == Verdict::Grow(s.without(e).counted(), e));
            }
        }
        r
    }

    /// Offers `to` the cost `g` through `via`, and records it if it improves on what is known.
    pub(crate) fn relax<H: Heuristic<N>>(
        &mut self,
        heuristic: &H,
        goal: &N,
        mode: TieBreaking,
        to: N,
        via: N,
        g: Cost,
        Ghost(c): Ghost<Cost>,
        Ghost(start): Ghost<N>,
        Ghost(link): Ghost<spec_fn(N, N, Cost) -> bool>,
    )
        requires
            old(self)@.inv(start, link),
            old(self)@.next_seq < u128::MAX,
            old(self)@.best.contains_key(via.key_of()),
            link(via, to, c),
            cost_sum(old(self)@.best[via.key_of()], c) <= g,
        ensures
            final(self)@ == old(self)@.relaxed(to, via, g, c, heuristic.estimate_of(to, *goal), mode),
            final(self)@.inv(start, link),
    {
        let k: u128 = to.key();
        let improves: bool = match self.best.get(&k) {
            Some(known) => g < *known,
            None => true,
        };
        if !improves {
            return ;
        }
        let h: Cost = heuristic.estimate(&to, goal);
        let tie: u64 = match mode {
            TieBreaking::PreferHigherG => COST_INFINITY - g,
            TieBreaking::PreferLowerG => g,
            _ => 0,
        };
        let e = Entry { f: cost_add(g, h), tie, seq: self.next_seq, g, node: to };
        self.parent.insert(k, via);
        self.best.insert(k, g);
        self.frontier.push(e);
        self.next_seq = self.next_seq + 1;
        proof {
            self.step@ = self.step@.insert(k, c);
            self.hops@ = self.hops@.insert(k, self.hops@[via.key_of()] + 1);
            self.live@ = self.live@.insert(k, e);
            assert(self@ == old(self)@.relaxed(to, via, g, c, h, mode));
            old(self)@.lemma_relaxed(to, via, g, c, h, mode, start, link);
        }
    }

    /// The nodes from the start to `node` along the recorded predecessors.
    pub(crate) fn trace(&self, node: N, Ghost(start): Ghost<N>, Ghost(link): Ghost<spec_fn(N, N, Cost) -> bool>) -> (r:
        Vec<N>)
        requires
            self@.inv(start, link),
        ensures
            r@ == self@.chain(node),
    {
        let mut rev: Vec<N> = Vec::new();
        rev.push(node);
        let mut cur: N = node;
        let mut up: Option<N> = self.parent_of(&cur);
        proof {
            assert(self@.chain(node) =~= self@.chain(cur).drop_last() + rev@.reverse());
        }
        while up.is_some()
            invariant
                self@.inv(start, link),
                rev@.len() >= 1,
                up == (if self@.parent.contains_key(cur.key_of()) {
                    Some(self@.parent[cur.key_of()])
                } else {
                    None
                }),
                self@.chain(node) =~= self@.chain(cur).drop_last() + rev@.reverse(),
            decreases self@.best[cur.key_of()], self@.hops[cur.key_of()],
        {
            let p: N = up.unwrap();
            proof {
                assert(self@.linked(cur, link));
                assert(self@.chain(cur) == self@.chain(p).push(cur));
                assert(self@.chain(cur).drop_last() =~= self@.chain(p));
                assert(self@.chain(p) =~= self@.chain(p).drop_last() + seq![p]);
                assert(rev@.push(p).reverse() =~= seq![p] + rev@.reverse());
            }
            rev.push(p);
            cur = p;
            up = self.parent_of(&cur);
        }
        proof {
            assert(self@.chain(cur) == seq![cur]);
            assert(self@.chain(cur).drop_last() =~= Seq::<N>::empty());
            assert(self@.chain(node) =~= rev@.reverse());
        }
        let n: usize = rev.len();
        let mut path: Vec<N> = Vec::new();
        let mut i: usize = n;
        while i > 0
            invariant
                n == rev@.len(),
                i <= n,
                path@.len() == n - i,
                forall|j: int| 0 <= j < path@.len() ==> path@[j] == rev@[n - 1 - j],
            decreases i,
        {
            i -= 1;
            path.push(rev[i]);
        }
        proof {
            assert(path@ =~= rev@.reverse());
        }
        path
    }

    /// The result that ends the search at the entry `e`.
    pub(crate) fn settle(
        &self,
        e: Entry<N>,
        status: PathStatus,
        Ghost(start): Ghost<N>,
        Ghost(link): Ghost<spec_fn(N, N, Cost) -> bool>,
    ) -> (r: PathResult<N>)
        requires
            self@.inv(start, link),
            self@.best.contains_key(e.node.key_of()),
            self@.best[e.node.key_of()] <= e.g,
        ensures
            r@ == self@.settled(e, status),
            is_route(r.path@, start, r.cost, link),
            r.path@.last() == e.node,
    {
        let path: Vec<N> = self.trace(e.node, Ghost(start), Ghost(link));
        proof {
            self@.lemma_chain(start, link, e.node);
            assert(is_linked_path(path@, self@.chain_costs(e.node), link));
        }
        PathResult { path, cost: e.g, nodes_expanded: self.expanded, status }
    }
}

/// What a search decides about the entry it has just taken.
pub ghost enum Verdict<N> {
    /// The search ends with this result.
    Ended(Outcome<N>),
    /// The entry was superseded; the search goes on from this state.
    Stale(SearchState<N>),
    /// The entry's node is expanded next, from this state.
    Grow(SearchState<N>, Entry<N>),
}

/// What an executed turn of a search hands back.
pub enum Turn<N> {
    /// The search has ended with this result.
    Done(PathResult<N>),
    /// A superseded entry was dropped.
    Skip,
    /// The node of this entry is to be expanded.
    Expand(Entry<N>),
}

/// The verdict on the entry `e`, taken from the frontier of what is now `t`:
/// the iteration limit is tested first, then the goal, then staleness.
pub open spec fn judged<N: Keyed>(t: SearchState<N>, e: Entry<N>, goal: N, limit: usize) -> Verdict<N> {
    if t.iterations >= limit {
        Verdict::Ended(t.settled(e, PathStatus::PartialMaxIter))
    } else {
        let u = t.counted();
        if e.node.key_of() == goal.key_of() {
            Verdict::Ended(u.settled(e, PathStatus::Found))
        } else if u.best[e.node.key_of()] < e.g {
            Verdict::Stale(u)
        } else {
            Verdict::Grow(u, e)
        }
    }
}

/// The verdict on the entry `e` where the clock has been read: once the
/// iteration limit has been tested, a reading past the time limit ends the
/// search at `e` with what has been found so far.
pub open spec fn judged_with<N: Keyed>(t: SearchState<N>, e: Entry<N>, goal: N, limit: usize, timed_out: bool) -> Verdict<
    N,
> {
    if t.iterations < limit && timed_out {
        Verdict::Ended(t.counted().settled(e, PathStatus::PartialTimeout))
    } else {
        judged(t, e, goal, limit)
    }
}

/// The result of a search that the time limit cuts short at the state `s`:
/// the entry taken is the end of the path, and its cost the cost reported.
pub open spec fn cut_at<N: Keyed>(s: SearchState<N>) -> Outcome<N> {
    let e = first_entry(s.frontier);
    s.without(e).counted().settled(e, PathStatus::PartialTimeout)
}

/// The state after one turn of a search from the state `s`; `s` itself where the turn ends the search.
pub open spec fn advanced<N: Keyed>(
    s: SearchState<N>,
    goal: N,
    limit: usize,
    grow: spec_fn(SearchState<N>, Entry<N>) -> SearchState<N>,
) -> SearchState<N> {
    match verdict(s, goal, limit) {
        Verdict::Ended(o) => s,
        Verdict::Stale(u) => u,
        Verdict::Grow(u, e) => grow(u.opened(), e),
    }
}

/// The state after `k` turns of a search from the state `s`.
pub open spec fn turned<N: Keyed>(
    s: SearchState<N>,
    goal: N,
    limit: usize,
    grow: spec_fn(SearchState<N>, Entry<N>) -> SearchState<N>,
    k: nat,
) -> SearchState<N>
    decreases k,
{
    if k == 0 {
        s
    } else {
        advanced(turned(s, goal, limit, grow, (k - 1) as nat), goal, limit, grow)
    }
}

/// Whether `o` is the result of a search from `s` that the time limit cut
/// short: after some turns, with an entry waiting and the iteration limit
/// not reached, the clock read past the limit.
pub open spec fn is_cut_short<N: Keyed>(
    s: SearchState<N>,
    goal: N,
    limit: usize,
    grow: spec_fn(SearchState<N>, Entry<N>) -> SearchState<N>,
    o: Outcome<N>,
) -> bool {
    exists|k: nat|
        (#[trigger] turned(s, goal, limit, grow, k)).frontier.len() > 0 && turned(s, goal, limit, grow, k).iterations
            < limit && o == cut_at(turned(s, goal, limit, grow, k))
}

/// How many entries a search from the state `s` still takes off its frontier.
pub open spec fn entries_left<N: Keyed>(
    s: SearchState<N>,
    goal: N,
    limit: usize,
    grow: spec_fn(SearchState<N>, Entry<N>) -> SearchState<N>,
) -> nat
    decreases limit - s.iterations,
{
    match verdict(s, goal, limit) {
        Verdict::Ended(o) => if s.frontier.len() == 0 {
            0
        } else {
            1
        },
        Verdict::Stale(u) => if s.iterations < u.iterations <= limit {
            1 + entries_left(u, goal, limit, grow)
        } else {
            1
        },
        Verdict::Grow(u, e) => {
            let v = grow(u.opened(), e);
            if s.iterations < v.iterations <= limit {
                1 + entries_left(v, goal, limit, grow)
            } else {
                1
            }
        },
    }
}

/// The verdict of one turn from the state `s`.
pub open spec fn verdict<N: Keyed>(s: SearchState<N>, goal: N, limit: usize) -> Verdict<N> {
    if s.frontier.len() == 0 {
        Verdict::Ended(nothing_found(s.expanded))
    } else {
        let e = first_entry(s.frontier);
        judged(s.without(e), e, goal, limit)
    }
}

/// The result of running a search from the state `s` to its end, where
/// `grow` says what expanding a node does to the state.
pub open spec fn search_run<N: Keyed>(
    s: SearchState<N>,
    goal: N,
    limit: usize,
    grow: spec_fn(SearchState<N>, Entry<N>) -> SearchState<N>,
) -> Outcome<N>
    decreases limit - s.iterations,
{
    match verdict(s, goal, limit) {
        Verdict::Ended(o) => o,
        Verdict::Stale(u) => if s.iterations < u.iterations <= limit {
            search_run(u, goal, limit, grow)
        } else {
            nothing_found(u.expanded)
        },
        Verdict::Grow(u, e) => {
            let v = grow(u.opened(), e);
            if s.iterations < v.iterations <= limit {
                search_run(v, goal, limit, grow)
            } else {
                nothing_found(v.expanded)
            }
        },
    }
}

/// Everything a running search knows.
pub ghost struct SearchState<N> {
    /// The entries waiting to be expanded.
    pub frontier: Multiset<Entry<N>>,
    /// The best known cost from the start, by node key.
    pub best: Map<u128, Cost>,
    /// The predecessor on the best known path, by node key.
    pub parent: Map<u128, N>,
    /// The cost of the step from the predecessor, by node key.
    pub step: Map<u128, Cost>,
    /// A rank that grows along every predecessor link of equal cost.
    pub hops: Map<u128, nat>,
    /// The entry that was put on the frontier when the best cost was last set, by node key.
    pub live: Map<u128, Entry<N>>,
    /// The insertion number of the next entry.
    pub next_seq: u128,
    /// How many entries have left the frontier.
    pub iterations: usize,
    /// How many nodes have been expanded.
    pub expanded: usize,
}

impl<N: Keyed> SearchState<N> {
    /// The state of a search that has only seen `start`, whose estimate is `h`.
    pub open spec fn initial(start: N, h: Cost) -> Self {
        SearchState {
            frontier: Multiset::empty().insert(Entry { f: h, tie: 0, seq: 0, g: 0, node: start }),
            best: Map::empty().insert(start.key_of(), 0),
            parent: Map::empty(),
            step: Map::empty(),
            hops: Map::empty().insert(start.key_of(), 0),
            live: Map::empty().insert(start.key_of(), Entry { f: h, tie: 0, seq: 0, g: 0, node: start }),
            next_seq: 1,
            iterations: 0,
            expanded: 0,
        }
    }

    /// The state of a search that has seen nothing.
    pub open spec fn blank() -> Self {
        SearchState {
            frontier: Multiset::empty(),
            best: Map::empty(),
            parent: Map::empty(),
            step: Map::empty(),
            hops: Map::empty(),
            live: Map::empty(),
            next_seq: 0,
            iterations: 0,
            expanded: 0,
        }
    }

    /// The state with one entry taken off the frontier.
    pub open spec fn without(self, e: Entry<N>) -> Self {
        SearchState { frontier: self.frontier.remove(e), ..self }
    }

    /// The state after one more entry has been counted.
    pub open spec fn counted(self) -> Self {
        SearchState { iterations: (self.iterations + 1) as usize, ..self }
    }

    /// The state after one more node has been counted as expanded.
    pub open spec fn opened(self) -> Self {
        SearchState { expanded: (self.expanded + 1) as usize, ..self }
    }

    /// Whether the insertion numbers still to be given out suffice for every expansion made so far.
    pub open spec fn has_room(self) -> bool {
        self.next_seq <= 1 + self.expanded * usize::MAX
    }

    /// `has_room` as it stands just after an expansion has been counted.
    pub open spec fn has_room_to_grow(self) -> bool {
        self.expanded >= 1 && self.next_seq <= 1 + (self.expanded - 1) * usize::MAX
    }

    /// Whether reaching `to` at cost `g` beats what is known of it.
    pub open spec fn improves(self, to: N, g: Cost) -> bool {
        !self.best.contains_key(to.key_of()) || g < self.best[to.key_of()]
    }

    /// The state after `to` was offered the cost `g` through `via`, the last
    /// step costing `c`; `h` is the estimate from `to` to the goal.
    pub open spec fn relaxed(self, to: N, via: N, g: Cost, c: Cost, h: Cost, mode: TieBreaking) -> Self {
        if self.improves(to, g) {
            let k = to.key_of();
            let e = Entry { f: cost_sum(g, h), tie: tie_rank(mode, g), seq: self.next_seq, g, node: to };
            SearchState {
                frontier: self.frontier.insert(e),
                best: self.best.insert(k, g),
                parent: self.parent.insert(k, via),
                step: self.step.insert(k, c),
                hops: self.hops.insert(k, self.hops[via.key_of()] + 1),
                live: self.live.insert(k, e),
                next_seq: (self.next_seq + 1) as u128,
                ..self
            }
        } else {
            self
        }
    }

    /// Relaxing keeps the invariant, where the new predecessor is a
    /// discovered node that is linked to the node relaxed, at no less than
    /// its own cost plus the step.
    pub proof fn lemma_relaxed(
        self,
        to: N,
        via: N,
        g: Cost,
        c: Cost,
        h: Cost,
        mode: TieBreaking,
        start: N,
        link: spec_fn(N, N, Cost) -> bool,
    )
        requires
            self.inv(start, link),
            self.next_seq < u128::MAX,
            self.best.contains_key(via.key_of()),
            link(via, to, c),
            cost_sum(self.best[via.key_of()], c) <= g,
        ensures
            self.relaxed(to, via, g, c, h, mode).inv(start, link),
            self.improves(to, g) ==> to.key_of() != start.key_of() && to.key_of() != via.key_of(),
    {
        let s = self;
        let t = s.relaxed(to, via, g, c, h, mode);
        let k = to.key_of();
        if s.improves(to, g) {
            let e = Entry { f: cost_sum(g, h), tie: tie_rank(mode, g), seq: s.next_seq, g, node: to };
            assert(k != start.key_of());
            assert(via.key_of() != k);
            assert forall|n: N| #[trigger] t.parent.contains_key(n.key_of()) implies t.linked(n, link) by {
                if n.key_of() == k {
                    N::key_is_injective(n, to);
                } else {
                    assert(s.parent.contains_key(n.key_of()));
                    assert(s.linked(n, link));
                }
            }
            assert forall|o: Entry<N>| #[trigger] t.frontier.count(o) > 0 implies o.seq < t.next_seq
                && t.best.contains_key(o.node.key_of()) && t.best[o.node.key_of()] <= o.g by {
                if o != e {
                    assert(s.frontier.count(o) > 0);
                }
            }
            assert forall|a: Entry<N>, b: Entry<N>|
                #![trigger t.frontier.count(a), t.frontier.count(b)]
                t.frontier.count(a) > 0 && t.frontier.count(b) > 0 && a.seq == b.seq implies a == b by {
                if a != e {
                    assert(s.frontier.count(a) > 0);
                }
                if b != e {
                    assert(s.frontier.count(b) > 0);
                }
            }
            assert forall|o: Entry<N>| #[trigger] t.frontier.count(o) <= 1 by {
                if o == e {
                    if s.frontier.count(e) > 0 {
                        assert(e.seq < s.next_seq);
                    }
                } else {
                    assert(s.frontier.count(o) <= 1);
                }
            }
        }
    }

    /// Whether `p` ranks strictly below `n`: by best cost, then by hops.
    pub open spec fn rank_below(self, p: N, n: N) -> bool {
        let kp = p.key_of();
        let kn = n.key_of();
        self.best[kp] < self.best[kn] || (self.best[kp] == self.best[kn] && self.hops[kp] < self.hops[kn])
    }

    /// What holds between a node and its recorded predecessor.
    pub open spec fn linked(self, n: N, link: spec_fn(N, N, Cost) -> bool) -> bool {
        let k = n.key_of();
        let p = self.parent[k];
        &&& self.best.contains_key(k)
        &&& self.best.contains_key(p.key_of())
        &&& link(p, n, self.step[k])
        &&& cost_sum(self.best[p.key_of()], self.step[k]) <= self.best[k]
        &&& self.rank_below(p, n)
    }

    /// The invariant of a search from `start` whose predecessor links satisfy `link`.
    pub open spec fn inv(self, start: N, link: spec_fn(N, N, Cost) -> bool) -> bool {
        &&& self.best.contains_key(start.key_of())
        &&& self.best[start.key_of()] == 0
        &&& !self.parent.contains_key(start.key_of())
        &&& self.expanded <= self.iterations
        &&& forall|k: u128|
            self.best.contains_key(k) && k != start.key_of() ==> #[trigger] self.parent.contains_key(k)
        &&& forall|n: N| #[trigger] self.parent.contains_key(n.key_of()) ==> self.linked(n, link)
        &&& forall|e: Entry<N>| #[trigger]
            self.frontier.count(e) > 0 ==> e.seq < self.next_seq && self.best.contains_key(
                e.node.key_of(),
            ) && self.best[e.node.key_of()] <= e.g
        &&& forall|a: Entry<N>, b: Entry<N>|
            #![trigger self.frontier.count(a), self.frontier.count(b)]
            self.frontier.count(a) > 0 && self.frontier.count(b) > 0 && a.seq == b.seq ==> a == b
        &&& forall|e: Entry<N>| #[trigger] self.frontier.count(e) <= 1
    }

    /// The nodes from the start to `n` along the recorded predecessors.
    pub open spec fn chain(self, n: N) -> Seq<N>
        decreases self.best[n.key_of()], self.hops[n.key_of()],
    {
        let k = n.key_of();
        if self.parent.contains_key(k) && self.rank_below(self.parent[k], n) {
            self.chain(self.parent[k]).push(n)
        } else {
            seq![n]
        }
    }

    /// The step costs along `chain(n)`.
    pub open spec fn chain_costs(self, n: N) -> Seq<Cost>
        decreases self.best[n.key_of()], self.hops[n.key_of()],
    {
        let k = n.key_of();
        if self.parent.contains_key(k) && self.rank_below(self.parent[k], n) {
            self.chain_costs(self.parent[k]).push(self.step[k])
        } else {
            Seq::empty()
        }
    }

    /// The result that ends the search at the entry `e`.
    pub open spec fn settled(self, e: Entry<N>, status: PathStatus) -> Outcome<N> {
        Outcome { path: self.chain(e.node), cost: e.g, nodes_expanded: self.expanded, status }
    }

    /// The chain of a discovered node starts at the start, ends at the node,
    /// follows links only, and costs no more than the node's best cost.
    pub proof fn lemma_chain(self, start: N, link: spec_fn(N, N, Cost) -> bool, n: N)
        requires
            self.inv(start, link),
            self.best.contains_key(n.key_of()),
        ensures
            is_linked_path(self.chain(n), self.chain_costs(n), link),
            self.chain(n)[0] == start,
            self.chain(n).last() == n,
            self.best[n.key_of()] < COST_INFINITY ==> total_cost(self.chain_costs(n)) <= self.best[n.key_of()],
        decreases self.best[n.key_of()], self.hops[n.key_of()],
    {
        let k = n.key_of();
        if self.parent.contains_key(k) {
            let p = self.parent[k];
            assert(self.linked(n, link));
            self.lemma_chain(start, link, p);
            let path = self.chain(n);
            let costs = self.chain_costs(n);
            assert(path == self.chain(p).push(n));
            assert(costs == self.chain_costs(p).push(self.step[k]));
            assert(costs.drop_last() =~= self.chain_costs(p));
            assert forall|i: int| 0 <= i < costs.len() implies #[trigger] link(
                path[i],
                path[i + 1],
                costs[i],
            ) by {
                if i < costs.len() - 1 {
                    assert(path[i] == self.chain(p)[i]);
                    assert(path[i + 1] == self.chain(p)[i + 1]);
                    assert(costs[i] == self.chain_costs(p)[i]);
                }
            }
        } else {
            N::key_is_injective(n, start);
        }
    }

    /// Of two first entries of the frontier, both are the same.
    pub proof fn lemma_first_is_unique(self, start: N, link: spec_fn(N, N, Cost) -> bool, e: Entry<N>)
        requires
            self.inv(start, link),
            is_first(self.frontier, e),
        ensures
            first_entry(self.frontier) == e,
    {
        let c = first_entry(self.frontier);
        assert(is_first(self.frontier, c));
        assert(entry_before(c, e) && entry_before(e, c));
    }

    /// Taking an entry off the frontier keeps the invariant.
    pub proof fn lemma_without(self, start: N, link: spec_fn(N, N, Cost) -> bool, e: Entry<N>)
        requires
            self.inv(start, link),
        ensures
            self.without(e).inv(start, link),
    {
        let t = self.without(e);
        assert forall|n: N| #[trigger] t.parent.contains_key(n.key_of()) implies t.linked(n, link) by {
            assert(self.linked(n, link));
        }
        assert forall|o: Entry<N>| #[trigger] t.frontier.count(o) > 0 implies self.frontier.count(o) > 0 by {}
    }

    /// Counting an entry, or an expansion after it, keeps the invariant.
    pub proof fn lemma_counted(self, start: N, link: spec_fn(N, N, Cost) -> bool)
        requires
            self.inv(start, link),
            self.iterations < usize::MAX,
        ensures
            self.counted().inv(start, link),
            self.expanded < self.counted().iterations ==> self.counted().opened().inv(start, link),
    {
        let t = self.counted();
        assert forall|n: N| #[trigger] t.parent.contains_key(n.key_of()) implies t.linked(n, link) by {
            assert(self.linked(n, link));
        }
        let u = t.opened();
        assert forall|n: N| #[trigger] u.parent.contains_key(n.key_of()) implies u.linked(n, link) by {
            assert(self.linked(n, link));
        }
    }
}

} // verus!
