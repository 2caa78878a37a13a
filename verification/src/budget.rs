//! A* that can be driven in slices: each call of `step` works for a budget of
//! wall-clock time and the next call resumes where it stopped.

use core::time::Duration;
use vstd::prelude::*;
use crate::algorithms::astar::{astar_grow, astar_outcome, expand, iteration_limit, AStarConfig};
use crate::algorithms::search::{
    advanced, entries_left, first_entry, judged, lemma_initial, search_run, turned, Entry, Search, SearchState,
    Turn, Verdict,
};
use crate::clock::{elapsed, now, whole_nanos};
use crate::cost::Cost;
use crate::traits::{
    edge_link, is_route, nothing_found, Graph, Heuristic, Keyed, Outcome, PathResult, PathStatus,
};

verus! {

broadcast use vstd::multiset::group_multiset_axioms;

pub enum ComputeStatus<N> {
    NotStarted,
    InProgress,
    Complete(PathResult<N>),
}

pub struct BudgetedPathfinder<G: Graph> {
    search: Search<G::Node>,
    start: Option<G::Node>,
    goal: Option<G::Node>,
    config: AStarConfig,
    /// How many entries have been taken off the frontier since the clock
    /// was last read, counting those put back: the clock is read at every tenth.
    polls: usize,
    pub status: ComputeStatus<G::Node>,
    pub last_partial: Option<PathResult<G::Node>>,
}

/// How one slice of work ended.
enum Slice<N> {
    Finished(PathResult<N>),
    Suspended(PathResult<N>),
}

/// What became of one entry taken.
enum Pace<N> {
    /// The search has ended with this result.
    Finished(PathResult<N>),
    /// The budget is spent: the entry is back on the frontier, and this is the path to it.
    Suspended(PathResult<N>),
    /// The entry has been dealt with and the search goes on.
    Going,
}

/// The partial result of a search suspended at the state `s`: the path to
/// the node of the entry that would be taken next, at that entry's cost.
pub open spec fn held_at<N: Keyed>(s: SearchState<N>) -> Outcome<N> {
    let e = first_entry(s.frontier);
    s.without(e).settled(e, PathStatus::PartialTimeout)
}

/// Whether a search that stood at `before`, `polls` entries after the
/// clock was last read, is suspended at `after` with the partial result
/// `partial`: `after` is `before` after some whole turns, the entry taken
/// after them was the tenth since the clock was last read and is back on the
/// frontier, and `partial` is the path to that entry's node.
pub open spec fn is_suspended<N: Keyed>(
    before: SearchState<N>,
    polls: nat,
    goal: N,
    limit: usize,
    grow: spec_fn(SearchState<N>, Entry<N>) -> SearchState<N>,
    after: SearchState<N>,
    partial: Outcome<N>,
) -> bool {
    exists|k: nat|
        after == #[trigger] turned(before, goal, limit, grow, k) && (polls + k + 1) % 10 == 0
            && after.frontier.len() > 0 && partial == held_at(after)
}

/// Deals with the entry `e`, which has just been taken off the frontier.
/// With the budget spent (`over`) the entry goes back on the frontier and
/// the path to it is handed out; otherwise the search ends at it, drops it
/// as superseded, or expands its node.
fn proceed<G: Graph, H: Heuristic<G::Node>>(
    search: &mut Search<G::Node>,
    e: Entry<G::Node>,
    graph: &G,
    heuristic: &H,
    goal: &G::Node,
    config: &AStarConfig,
    over: bool,
    Ghost(start): Ghost<G::Node>,
) -> (r: Pace<G::Node>)
    requires
        graph.well_formed(),
        old(search)@.inv(start, edge_link(graph)),
        old(search)@.has_room(),
        old(search)@.best.contains_key(e.node.key_of()),
        old(search)@.best[e.node.key_of()] <= e.g,
    ensures
        !(r is Suspended) ==> final(search)@.inv(start, edge_link(graph)),
        match r {
            Pace::Suspended(partial) => {
                &&& over
                &&& partial@ == old(search)@.settled(e, PathStatus::PartialTimeout)
                &&& final(search)@ == (SearchState {
                    frontier: old(search)@.frontier.insert(e),
                    ..old(search)@
                })
                &&& is_route(partial.path@, start, partial.cost, edge_link(graph))
            },
            Pace::Finished(res) => {
                &&& !over
                &&& judged(old(search)@, e, *goal, iteration_limit(*config)) == Verdict::Ended(res@)
                &&& res.status != PathStatus::PartialTimeout
                &&& res.status != PathStatus::NotFound
                &&& is_route(res.path@, start, res.cost, edge_link(graph))
                &&& res.status == PathStatus::Found ==> res.path@.last() == *goal
            },
            Pace::Going => {
                &&& !over
                &&& final(search)@.has_room()
                &&& final(search)@.iterations == old(search)@.iterations + 1
                &&& final(search)@.iterations <= iteration_limit(*config)
                &&& match judged(old(search)@, e, *goal, iteration_limit(*config)) {
                    Verdict::Ended(o) => false,
                    Verdict::Stale(u) => final(search)@ == u,
                    Verdict::Grow(u, x) => final(search)@ == astar_grow(
                        graph,
                        heuristic,
                        *goal,
                        config.tie_breaking,
                    )(u.opened(), x),
                }
            },
        },
{
    let limit: usize = match config.max_iterations {
        Some(m) => m,
        None => usize::MAX,
    };
    let ghost link = edge_link(graph);
    if over {
        let partial = search.settle(e, PathStatus::PartialTimeout, Ghost(start), Ghost(link));
        search.push_back(e);
        return Pace::Suspended(partial);
    }
    match search.judge(e, goal, limit, false, Ghost(start), Ghost(link)) {
        Turn::Done(res) => Pace::Finished(res),
        Turn::Skip => Pace::Going,
        Turn::Expand(x) => {
            expand(search, graph, heuristic, goal, config.tie_breaking, e.node, e.g, Ghost(start));
            Pace::Going
        },
    }
}

/// Works on `search` until it ends or the budget of `allowed` nanoseconds is
/// spent. The clock is read at every tenth entry taken; when the budget is
/// spent the entry goes back on the frontier, so that the search is left as
/// it was before the entry was taken.
fn drive<G: Graph, H: Heuristic<G::Node>>(
    search: &mut Search<G::Node>,
    polls: &mut usize,
    graph: &G,
    heuristic: &H,
    goal: &G::Node,
    config: &AStarConfig,
    allowed: u128,
    Ghost(start): Ghost<G::Node>,
) -> (r: Slice<G::Node>)
    requires
        graph.well_formed(),
        old(search)@.inv(start, edge_link(graph)),
        old(search)@.has_room(),
        *old(polls) < 10,
    ensures
        final(search)@.inv(start, edge_link(graph)),
        *final(polls) < 10,
        entries_left(
            old(search)@,
            *goal,
            iteration_limit(*config),
            astar_grow(graph, heuristic, *goal, config.tie_breaking),
        ) + *old(polls) < 10 ==> r is Finished,
        match r {
            Slice::Finished(res) => {
                &&& res@ == search_run(
                    old(search)@,
                    *goal,
                    iteration_limit(*config),
                    astar_grow(graph, heuristic, *goal, config.tie_breaking),
                )
                &&& res.status != PathStatus::PartialTimeout
                &&& res.status == PathStatus::NotFound ==> res.path@.len() == 0 && res.cost == 0
                &&& res.status != PathStatus::NotFound ==> is_route(res.path@, start, res.cost, edge_link(graph))
                &&& res.status == PathStatus::Found ==> res.path@.last() == *goal
            },
            Slice::Suspended(res) => {
                &&& search_run(
                    final(search)@,
                    *goal,
                    iteration_limit(*config),
                    astar_grow(graph, heuristic, *goal, config.tie_breaking),
                ) == search_run(
                    old(search)@,
                    *goal,
                    iteration_limit(*config),
                    astar_grow(graph, heuristic, *goal, config.tie_breaking),
                )
                &&& *final(polls) == 0
                &&& is_suspended(
                    old(search)@,
                    *old(polls) as nat,
                    *goal,
                    iteration_limit(*config),
                    astar_grow(graph, heuristic, *goal, config.tie_breaking),
                    final(search)@,
                    res@,
                )
                &&& res.status == PathStatus::PartialTimeout
                &&& is_route(res.path@, start, res.cost, edge_link(graph))
                &&& final(search)@.has_room()
            },
        },
{
    let clock = now();
    let limit: usize = match config.max_iterations {
        Some(m) => m,
        None => usize::MAX,
    };
    let ghost link = edge_link(graph);
    let ghost grow = astar_grow(graph, heuristic, *goal, config.tie_breaking);
    let ghost s0 = search@;
    let ghost polls0 = *polls;
    let ghost mut k: nat = 0;
    loop
        invariant
            graph.well_formed(),
            link == edge_link(graph),
            grow == astar_grow(graph, heuristic, *goal, config.tie_breaking),
            limit == iteration_limit(*config),
            s0 == old(search)@,
            polls0 == *old(polls),
            *polls < 10,
            search@.inv(start, link),
            search@.has_room(),
            search@ == turned(s0, *goal, limit, grow, k),
            *polls == (polls0 + k) % 10,
            search_run(search@, *goal, limit, grow) == search_run(s0, *goal, limit, grow),
            entries_left(s0, *goal, limit, grow) + polls0 < 10 ==> *polls + entries_left(
                search@,
                *goal,
                limit,
                grow,
            ) == polls0 + entries_left(s0, *goal, limit, grow),
        decreases limit - search@.iterations,
    {
        let ghost s = search@;
        let popped: Option<Entry<G::Node>> = search.pop();
        if popped.is_none() {
            return Slice::Finished(PathResult::not_found(search.expanded()));
        }
        let e: Entry<G::Node> = popped.unwrap();
        proof {
            s.lemma_first_is_unique(start, link, e);
            s.lemma_without(start, link, e);
            assert(entries_left(s, *goal, limit, grow) >= 1);
        }
        *polls = if *polls >= 9 {
            0
        } else {
            *polls + 1
        };
        let over: bool = if *polls == 0 {
            whole_nanos(&elapsed(&clock)) > allowed
        } else {
            false
        };
        match proceed(search, e, graph, heuristic, goal, config, over, Ghost(start)) {
            Pace::Finished(res) => {
                return Slice::Finished(res);
            },
            Pace::Suspended(partial) => {
                proof {
                    assert(s.frontier.remove(e).insert(e) =~= s.frontier);
                    assert(search@ == s);
                    assert(partial@ == held_at(s));
                }
                return Slice::Suspended(partial);
            },
            Pace::Going => {
                proof {
                    assert(search@ == advanced(s, *goal, limit, grow));
                    k = k + 1;
                }
            },
        }
    }
}

impl<G: Graph> BudgetedPathfinder<G> {
    /// Where the pathfinder stands: the value of the field `status`.
    pub closed spec fn phase(&self) -> ComputeStatus<G::Node> {
        self.status
    }

    /// The value of the field `last_partial`.
    pub closed spec fn partial(&self) -> Option<PathResult<G::Node>> {
        self.last_partial
    }

    /// The configuration the pathfinder was made with.
    pub closed spec fn config(&self) -> AStarConfig {
        self.config
    }

    /// The start of the search under way, if one was started.
    pub closed spec fn origin(&self) -> Option<G::Node> {
        self.start
    }

    /// The goal of the search under way, if one was started.
    pub closed spec fn target(&self) -> Option<G::Node> {
        self.goal
    }

    /// The state of the search under way.
    pub closed spec fn state(&self) -> SearchState<G::Node> {
        self.search@
    }

    /// How many entries have been taken since the clock was last read: the
    /// clock is read again when this count comes to ten, and it then starts
    /// anew.
    pub closed spec fn polls(&self) -> nat {
        self.polls as nat
    }

    /// Whether the pathfinder can be stepped on `graph`.
    pub closed spec fn ready(&self, graph: &G) -> bool {
        self.status is InProgress ==> {
            &&& self.polls < 10
            &&& self.origin() is Some
            &&& self.target() is Some
            &&& self.state().inv(self.origin()->0, edge_link(graph))
            &&& self.state().has_room()
        }
    }

    /// The result that stepping on `graph` with `heuristic` leads to.
    pub closed spec fn pending<H: Heuristic<G::Node>>(&self, graph: &G, heuristic: &H) -> Outcome<G::Node> {
        match self.status {
            ComputeStatus::Complete(res) => res@,
            ComputeStatus::InProgress => {
                let start = self.origin()->0;
                let goal = self.target()->0;
                if !graph.passable(start) || !graph.passable(goal) {
                    nothing_found(0)
                } else {
                    search_run(
                        self.state(),
                        goal,
                        iteration_limit(self.config()),
                        astar_grow(graph, heuristic, goal, self.config().tie_breaking),
                    )
                }
            },
            ComputeStatus::NotStarted => nothing_found(0),
        }
    }

    /// An idle pathfinder.
    pub fn new(config: AStarConfig) -> (r: Self)
        ensures
            r.phase() is NotStarted,
            r.partial() is None,
            r.config() == config,
            r.origin() is None,
            r.target() is None,
            forall|graph: &G| #[trigger] r.ready(graph),
    {
        BudgetedPathfinder {
            search: Search::idle(),
            start: None,
            goal: None,
            config,
            polls: 0,
            status: ComputeStatus::NotStarted,
            last_partial: None,
        }
    }

    /// Forgets any earlier search and begins one from `start` to `goal`.
    pub fn start<H: Heuristic<G::Node>>(&mut self, start: G::Node, goal: G::Node, heuristic: &H)
        ensures
            final(self).phase() is InProgress,
            final(self).partial() is None,
            final(self).config() == old(self).config(),
            final(self).origin() == Some(start),
            final(self).target() == Some(goal),
            final(self).state() == SearchState::initial(start, heuristic.estimate_of(start, goal)),
            final(self).polls() == 0,
            forall|graph: &G| #[trigger] final(self).ready(graph),
            forall|graph: &G| #[trigger]
                final(self).pending(graph, heuristic) == astar_outcome(
                    graph,
                    heuristic,
                    start,
                    goal,
                    final(self).config(),
                ),
    {
        let h: Cost = heuristic.estimate(&start, &goal);
        self.search = Search::new(start, h);
        self.start = Some(start);
        self.goal = Some(goal);
        self.polls = 0;
        self.last_partial = None;
        self.status = ComputeStatus::InProgress;
        proof {
            assert(1 + 0 * usize::MAX == 1) by (nonlinear_arith);
            assert forall|graph: &G| #[trigger] self.ready(graph) by {
                lemma_initial(start, h, edge_link(graph));
            }
        }
    }

    /// Resumes the search for at most `budget` of wall-clock time.
    ///
    /// Returns `true` iff the search has terminated: found, not found, or
    /// stopped by the iteration limit. The result that the steps lead to
    /// never changes from one step to the next. The clock is read only at
    /// every tenth entry taken, so a search that has fewer entries left to
    /// take than remain until the next reading ends in this step, whatever
    /// the budget. A step that does not end the search leaves it as some
    /// whole turns have made it, the entry taken last back on the frontier.
    pub fn step<H: Heuristic<G::Node>>(&mut self, graph: &G, heuristic: &H, budget: Duration) -> (done: bool)
        requires
            graph.well_formed(),
            old(self).ready(graph),
        ensures
            final(self).ready(graph),
            final(self).config() == old(self).config(),
            final(self).origin() == old(self).origin(),
            final(self).target() == old(self).target(),
            final(self).pending(graph, heuristic) == old(self).pending(graph, heuristic),
            old(self).phase() is NotStarted ==> done && final(self).phase() is NotStarted,
            old(self).phase() is Complete ==> done && final(self).phase() == old(self).phase(),
            !(old(self).phase() is NotStarted) ==> (done <==> final(self).phase() is Complete),
            old(self).phase() is InProgress && (!graph.passable(old(self).origin()->0) || !graph.passable(
                old(self).target()->0,
            )) ==> done,
            old(self).phase() is InProgress && entries_left(
                old(self).state(),
                old(self).target()->0,
                iteration_limit(old(self).config()),
                astar_grow(graph, heuristic, old(self).target()->0, old(self).config().tie_breaking),
            ) + old(self).polls() < 10 ==> done,
            !done ==> {
                &&& final(self).phase() is InProgress
                &&& final(self).partial() is Some
                &&& final(self).partial()->0.status == PathStatus::PartialTimeout
                &&& final(self).polls() == 0
                &&& is_suspended(
                    old(self).state(),
                    old(self).polls(),
                    final(self).target()->0,
                    iteration_limit(final(self).config()),
                    astar_grow(graph, heuristic, final(self).target()->0, final(self).config().tie_breaking),
                    final(self).state(),
                    final(self).partial()->0@,
                )
                &&& is_route(
                    final(self).partial()->0.path@,
                    final(self).origin()->0,
                    final(self).partial()->0.cost,
                    edge_link(graph),
                )
            },
            final(self).phase() matches ComputeStatus::Complete(res) ==> {
                &&& res@ == final(self).pending(graph, heuristic)
                &&& res.status != PathStatus::PartialTimeout || old(self).phase() is Complete
                &&& !(old(self).phase() is Complete) ==> {
                    &&& res.status == PathStatus::NotFound ==> res.path@.len() == 0 && res.cost == 0
                    &&& res.status != PathStatus::NotFound ==> is_route(
                        res.path@,
                        final(self).origin()->0,
                        res.cost,
                        edge_link(graph),
                    )
                    &&& res.status == PathStatus::Found ==> res.path@.last() == final(self).target()->0
                }
            },
    {
        match &self.status {
            ComputeStatus::Complete(_) => {
                return true;
            },
            ComputeStatus::NotStarted => {
                return true;
            },
            ComputeStatus::InProgress => {},
        }
        let start: G::Node = self.start.unwrap();
        let goal: G::Node = self.goal.unwrap();
        if !graph.is_passable(&start) || !graph.is_passable(&goal) {
            self.status = ComputeStatus::Complete(PathResult::not_found(0));
            self.last_partial = None;
            return true;
        }
        let config: AStarConfig = self.config;
        let allowed: u128 = whole_nanos(&budget);
        let slice = drive(
            &mut self.search,
            &mut self.polls,
            graph,
            heuristic,
            &goal,
            &config,
            allowed,
            Ghost(start),
        );
        match slice {
            Slice::Finished(res) => {
                if res.status == PathStatus::NotFound {
                    self.last_partial = None;
                } else {
                    self.last_partial = Some(res.duplicate());
                }
                self.status = ComputeStatus::Complete(res);
                true
            },
            Slice::Suspended(partial) => {
                self.last_partial = Some(partial);
                false
            },
        }
    }

    /// The final result, once the search is complete.
    pub fn take_result(&mut self) -> (r: Option<PathResult<G::Node>>)
        ensures
            *final(self) == *old(self),
            match old(self).phase() {
                ComputeStatus::Complete(res) => r is Some && r->0@ == res@,
                _ => r is None,
            },
    {
        match &self.status {
            ComputeStatus::Complete(res) => Some(res.duplicate()),
            _ => None,
        }
    }

    /// The best partial path as of the most recent suspension or completion.
    pub fn partial_result(&self) -> (r: Option<&PathResult<G::Node>>)
        ensures
            r is Some <==> self.partial() is Some,
            r is Some ==> *r->0 == self.partial()->0,
    {
        self.last_partial.as_ref()
    }
}

/// Stepping to the end gives the result of the blocking search: if the
/// first of a row of pathfinders was started from `start` to `goal`, each of
/// the others is what one call of `step` left of the one before it, and the
/// last is complete, then the result it holds is that of `astar`.
pub proof fn lemma_steps_reach_astar_result<G: Graph, H: Heuristic<G::Node>>(
    row: Seq<BudgetedPathfinder<G>>,
    graph: &G,
    heuristic: &H,
    start: G::Node,
    goal: G::Node,
    config: AStarConfig,
)
    requires
        row.len() >= 1,
        row[0].pending(graph, heuristic) == astar_outcome(graph, heuristic, start, goal, config),
        forall|i: int|
            0 <= i < row.len() - 1 ==> #[trigger] row[i + 1].pending(graph, heuristic) == row[i].pending(
                graph,
                heuristic,
            ),
        row.last().phase() matches ComputeStatus::Complete(res) && res@ == row.last().pending(graph, heuristic),
    ensures
        row.last().phase() matches ComputeStatus::Complete(res) && res@ == astar_outcome(
            graph,
            heuristic,
            start,
            goal,
            config,
        ),
{
    lemma_pending_is_kept(row, graph, heuristic, row.len() - 1);
}

proof fn lemma_pending_is_kept<G: Graph, H: Heuristic<G::Node>>(
    row: Seq<BudgetedPathfinder<G>>,
    graph: &G,
    heuristic: &H,
    k: int,
)
    requires
        0 <= k < row.len(),
        forall|i: int|
            0 <= i < row.len() - 1 ==> #[trigger] row[i + 1].pending(graph, heuristic) == row[i].pending(
                graph,
                heuristic,
            ),
    ensures
        row[k].pending(graph, heuristic) == row[0].pending(graph, heuristic),
    decreases k,
{
    if k > 0 {
        lemma_pending_is_kept(row, graph, heuristic, k - 1);
        assert(row[(k - 1) + 1].pending(graph, heuristic) == row[k - 1].pending(graph, heuristic));
    }
}

} // verus!
