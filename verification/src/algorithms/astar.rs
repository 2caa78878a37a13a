//! A*: best-first search with cost `f = g + h`.

use core::time::Duration;
use vstd::prelude::*;
use crate::algorithms::search::{
    is_cut_short, lemma_initial, search_run, turned, Entry, Search, SearchState, Turn,
};
use crate::clock::{now, whole_nanos};
use crate::cost::{cost_add, cost_sum, Cost, COST_INFINITY};
use crate::algorithms::lineage::{is_cheaply_walked_at, lemma_astar_cost_is_cost_of_steps, prices_fit};
use crate::algorithms::guarantees::{
    lemma_astar_cost_is_path_cost, lemma_astar_decides_reachability, lemma_astar_finds_cheapest, lists_edges,
    never_overestimates, no_cheaper_walk, reachable,
};
use crate::traits::{
    edge_link, is_route, is_walk, nothing_found, total_cost, Graph, Heuristic, Keyed, Outcome, PathResult,
    PathStatus,
};

verus! {

#[derive(Clone, Copy)]
pub struct AStarConfig {
    pub max_iterations: Option<usize>,
    pub timeout: Option<Duration>,
    pub tie_breaking: TieBreaking,
}

#[derive(Debug, Clone, Copy, PartialEq, Eq, Structural)]
pub enum TieBreaking {
    /// Entries with equal priority leave in insertion order.
    NoPreference,
    /// Prefer paths further from start (closer to goal usually).
    PreferHigherG,
    /// Prefer paths closer to start.
    PreferLowerG,
    /// Reserved; behaves as `NoPreference`.
    CrossProduct,
}

impl Default for AStarConfig {
    fn default() -> (r: Self)
        ensures
            r.max_iterations is None,
            r.timeout is None,
            r.tie_breaking == TieBreaking::PreferHigherG,
    {
        AStarConfig { max_iterations: None, timeout: None, tie_breaking: TieBreaking::PreferHigherG }
    }
}

/// The secondary frontier key of an entry reached at cost `g`; the smaller goes first.
pub open spec fn tie_rank(mode: TieBreaking, g: Cost) -> u64 {
    match mode {
        TieBreaking::PreferHigherG => (COST_INFINITY - g) as u64,
        TieBreaking::PreferLowerG => g,
        _ => 0,
    }
}

/// How many entries a search may take off its frontier before it gives up.
pub open spec fn iteration_limit(config: AStarConfig) -> usize {
    match config.max_iterations {
        Some(m) => m,
        None => usize::MAX,
    }
}

/// The state after the first `n` of `edges`, which leave `current`, have been relaxed.
pub open spec fn relaxed_edges<N: Keyed, H: Heuristic<N>>(
    s: SearchState<N>,
    heuristic: &H,
    goal: N,
    mode: TieBreaking,
    current: N,
    g: Cost,
    edges: Seq<(N, Cost)>,
    n: nat,
) -> SearchState<N>
    decreases n,
{
    if n == 0 {
        s
    } else {
        let before = relaxed_edges(s, heuristic, goal, mode, current, g, edges, (n - 1) as nat);
        let to = edges[n - 1].0;
        let c = edges[n - 1].1;
        before.relaxed(to, current, cost_sum(g, c), c, heuristic.estimate_of(to, goal), mode)
    }
}

/// What expanding a node does in A*: every edge that leaves it is relaxed.
pub open spec fn astar_grow<G: Graph, H: Heuristic<G::Node>>(
    graph: &G,
    heuristic: &H,
    goal: G::Node,
    mode: TieBreaking,
) -> spec_fn(SearchState<G::Node>, Entry<G::Node>) -> SearchState<G::Node> {
    |s: SearchState<G::Node>, e: Entry<G::Node>|
        relaxed_edges(s, heuristic, goal, mode, e.node, e.g, graph.edges(e.node), graph.edges(e.node).len())
}

/// The result of A* when no time limit cuts it short.
pub open spec fn astar_outcome<G: Graph, H: Heuristic<G::Node>>(
    graph: &G,
    heuristic: &H,
    start: G::Node,
    goal: G::Node,
    config: AStarConfig,
) -> Outcome<G::Node> {
    if !graph.passable(start) || !graph.passable(goal) {
        nothing_found(0)
    } else {
        search_run(
            SearchState::initial(start, heuristic.estimate_of(start, goal)),
            goal,
            iteration_limit(config),
            astar_grow(graph, heuristic, goal, config.tie_breaking),
        )
    }
}

/// What `astar` ensures of its result `r` for one query.
pub open spec fn answers<G: Graph, H: Heuristic<G::Node>>(
    graph: &G,
    heuristic: &H,
    start: G::Node,
    goal: G::Node,
    config: AStarConfig,
    r: PathResult<G::Node>,
) -> bool {
    &&& r.status != PathStatus::PartialTimeout ==> r@ == astar_outcome(graph, heuristic, start, goal, config)
    &&& r.status == PathStatus::PartialTimeout ==> config.timeout is Some
    &&& !graph.passable(start) || !graph.passable(goal) ==> r@ == nothing_found::<G::Node>(0)
    &&& r.status == PathStatus::PartialTimeout ==> is_cut_short(
        SearchState::initial(start, heuristic.estimate_of(start, goal)),
        goal,
        iteration_limit(config),
        astar_grow(graph, heuristic, goal, config.tie_breaking),
        r@,
    )
    &&& r.status == PathStatus::NotFound ==> r.path@.len() == 0 && r.cost == 0
    &&& r.status != PathStatus::NotFound ==> is_route(r.path@, start, r.cost, edge_link(graph))
    &&& r.status == PathStatus::Found ==> r.path@.last() == goal
}

/// Relaxes every edge that leaves `current`, which was reached at cost `g`.
pub(crate) fn expand<G: Graph, H: Heuristic<G::Node>>(
    search: &mut Search<G::Node>,
    graph: &G,
    heuristic: &H,
    goal: &G::Node,
    mode: TieBreaking,
    current: G::Node,
    g: Cost,
    Ghost(start): Ghost<G::Node>,
)
    requires
        graph.well_formed(),
        old(search)@.inv(start, edge_link(graph)),
        old(search)@.has_room_to_grow(),
        old(search)@.best.contains_key(current.key_of()),
        old(search)@.best[current.key_of()] <= g,
    ensures
        final(search)@ == relaxed_edges(
            old(search)@,
            heuristic,
            *goal,
            mode,
            current,
            g,
            graph.edges(current),
            graph.edges(current).len(),
        ),
        final(search)@.inv(start, edge_link(graph)),
        final(search)@.has_room(),
        final(search)@.iterations == old(search)@.iterations,
{
    let edges: Vec<(G::Node, Cost)> = graph.neighbors(&current);
    let ghost link = edge_link(graph);
    let ghost s0 = search@;
    let mut i: usize = 0;
    proof {
        assert(s0.expanded * usize::MAX <= usize::MAX * usize::MAX) by (nonlinear_arith)
            requires
                s0.expanded <= usize::MAX,
        ;
        assert((s0.expanded - 1) * usize::MAX + usize::MAX == s0.expanded * usize::MAX)
            by (nonlinear_arith);
        assert(usize::MAX * usize::MAX <= 0xffff_ffff_ffff_ffff * 0xffff_ffff_ffff_ffff) by (nonlinear_arith)
            requires
                usize::MAX <= 0xffff_ffff_ffff_ffff,
        ;
    }
    while i < edges.len()
        invariant
            i <= edges.len(),
            edges@ == graph.edges(current),
            search@ == relaxed_edges(s0, heuristic, *goal, mode, current, g, edges@, i as nat),
            search@.inv(start, link),
            link == edge_link(graph),
            search@.best.contains_key(current.key_of()),
            search@.best[current.key_of()] <= g,
            search@.next_seq <= s0.next_seq + i,
            s0.next_seq <= 1 + (s0.expanded - 1) * usize::MAX,
            (s0.expanded - 1) * usize::MAX + usize::MAX == s0.expanded * usize::MAX,
            s0.expanded * usize::MAX <= usize::MAX * usize::MAX,
            usize::MAX * usize::MAX + 1 < u128::MAX,
            search@.iterations == s0.iterations,
            search@.expanded == s0.expanded,
        decreases edges.len() - i,
    {
        let to: G::Node = edges[i].0;
        let c: Cost = edges[i].1;
        let reached: Cost = cost_add(g, c);
        proof {
            assert(graph.edges(current).contains((to, c)));
            assert(link(current, to, c));
        }
        search.relax(heuristic, goal, mode, to, current, reached, Ghost(c), Ghost(start), Ghost(link));
        i += 1;
    }
}

/// The search itself, with what the loop establishes of its result.
fn search<G: Graph, H: Heuristic<G::Node>>(
    graph: &G,
    heuristic: &H,
    start: G::Node,
    goal: G::Node,
    config: AStarConfig,
) -> (r: PathResult<G::Node>)
    requires
        graph.well_formed(),
    ensures
        answers(graph, heuristic, start, goal, config, r),
{
    if !graph.is_passable(&start) || !graph.is_passable(&goal) {
        return PathResult::not_found(0);
    }
    let clock = now();
    let h0: Cost = heuristic.estimate(&start, &goal);
    let mut search: Search<G::Node> = Search::new(start, h0);
    let limit: usize = match config.max_iterations {
        Some(m) => m,
        None => usize::MAX,
    };
    let allowed: Option<u128> = match config.timeout {
        Some(t) => Some(whole_nanos(&t)),
        None => None,
    };
    let ghost link = edge_link(graph);
    let ghost grow = astar_grow(graph, heuristic, goal, config.tie_breaking);
    let ghost init = search@;
    let ghost mut k: nat = 0;
    proof {
        lemma_initial(start, h0, link);
        assert(1 + 0 * usize::MAX == 1) by (nonlinear_arith);
    }
    loop
        invariant
            init == SearchState::initial(start, heuristic.estimate_of(start, goal)),
            search@ == turned(init, goal, limit, grow, k),
            allowed is Some ==> config.timeout is Some,
            graph.passable(start),
            graph.passable(goal),
            graph.well_formed(),
            link == edge_link(graph),
            grow == astar_grow(graph, heuristic, goal, config.tie_breaking),
            limit == iteration_limit(config),
            search@.inv(start, link),
            search@.has_room(),
            search_run(search@, goal, limit, grow) == astar_outcome(graph, heuristic, start, goal, config),
        decreases limit - search@.iterations,
    {
        let ghost before = search@;
        match search.turn(&goal, limit, &clock, &allowed, Ghost(start), Ghost(link)) {
            Turn::Done(res) => {
                proof {
                    if res.status == PathStatus::PartialTimeout {
                        assert(is_cut_short(init, goal, limit, grow, res@));
                    }
                }
                return res;
            },
            Turn::Skip => {
                proof {
                    k = k + 1;
                }
            },
            Turn::Expand(e) => {
                expand(&mut search, graph, heuristic, &goal, config.tie_breaking, e.node, e.g, Ghost(start));
                proof {
                    k = k + 1;
                }
            },
        }
    }
}

/// Whether `path` walks along edges of `graph` whose costs sum to `cost`.
pub open spec fn is_walked_at<G: Graph>(graph: &G, path: Seq<G::Node>, cost: Cost) -> bool {
    exists|costs: Seq<Cost>| #[trigger] is_walk(graph, path, costs) && total_cost(costs) == cost
}

/// Finds a cheapest path from `start` to `goal`.
///
/// Unless the time limit cuts the search short, the result is
/// `astar_outcome`. Every path returned leads from `start` along edges of
/// the graph, at a total cost of no more than the cost reported. A result
/// of `NotFound` between two passable nodes means that no walk leads from
/// the one to the other: where one does and no time limit is set, a path is
/// found unless the search stops at its limit of iterations, which is
/// `usize::MAX` where none is set. With a heuristic that never overestimates, no walk
/// costs less than a path found, and the cost reported is the sum of the
/// costs of the path's own steps. That sum is the cost reported whatever the
/// heuristic, as long as its estimates are bounded and the bound leaves
/// room for the cost.
pub fn astar<G: Graph, H: Heuristic<G::Node>>(
    graph: &G,
    heuristic: &H,
    start: G::Node,
    goal: G::Node,
    config: AStarConfig,
) -> (r: PathResult<G::Node>)
    requires
        graph.well_formed(),
    ensures
        r.status != PathStatus::PartialTimeout ==> r@ == astar_outcome(graph, heuristic, start, goal, config),
        r.status == PathStatus::PartialTimeout ==> config.timeout is Some,
        !graph.passable(start) || !graph.passable(goal) ==> r@ == nothing_found::<G::Node>(0),
        r.status == PathStatus::PartialTimeout ==> is_cut_short(
            SearchState::initial(start, heuristic.estimate_of(start, goal)),
            goal,
            iteration_limit(config),
            astar_grow(graph, heuristic, goal, config.tie_breaking),
            r@,
        ),
        r.status == PathStatus::NotFound ==> r.path@.len() == 0 && r.cost == 0,
        r.status != PathStatus::NotFound ==> is_route(r.path@, start, r.cost, edge_link(graph)),
        r.status == PathStatus::Found ==> r.path@.last() == goal,
        r.status == PathStatus::NotFound && lists_edges(graph) && graph.passable(start) && graph.passable(goal)
            ==> !reachable(graph, start, goal),
        lists_edges(graph) && graph.passable(start) && graph.passable(goal) && reachable(graph, start, goal)
            && config.timeout is None ==> r.status == PathStatus::Found || r.status == PathStatus::PartialMaxIter,
        r.status == PathStatus::Found && lists_edges(graph) && never_overestimates(graph, heuristic, goal) ==> {
            &&& no_cheaper_walk(graph, start, goal, r.cost)
            &&& r.cost < COST_INFINITY ==> is_walked_at(graph, r.path@, r.cost)
        },
        r.status == PathStatus::Found && lists_edges(graph) && prices_fit(heuristic, goal, r.cost) ==> is_walked_at(
            graph,
            r.path@,
            r.cost,
        ) && is_cheaply_walked_at(graph, r.path@, r.cost),
{
    let r = search(graph, heuristic, start, goal, config);
    proof {
        if lists_edges(graph) && r.status != PathStatus::PartialTimeout {
            lemma_astar_decides_reachability(graph, heuristic, start, goal, config);
            if r.status == PathStatus::Found && prices_fit(heuristic, goal, r.cost) {
                lemma_astar_cost_is_cost_of_steps(graph, heuristic, start, goal, config);
            }
            if r.status == PathStatus::Found && never_overestimates(graph, heuristic, goal) {
                lemma_astar_finds_cheapest(graph, heuristic, start, goal, config);
                if r.cost < COST_INFINITY {
                    lemma_astar_cost_is_path_cost(graph, heuristic, start, goal, config);
                }
            }
        }
    }
    r
}

} // verus!
