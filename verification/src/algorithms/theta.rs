//! Theta*: A* that lets a node hang on its grandparent when the two see each
//! other, which yields any-angle paths.

use vstd::prelude::*;
use crate::algorithms::astar::{iteration_limit, AStarConfig, TieBreaking};
use crate::algorithms::exploration::lemma_theta_not_found_means_unreachable;
use crate::algorithms::guarantees::{lists_edges, reachable};
use crate::algorithms::search::{
    is_cut_short, lemma_initial, search_run, turned, Entry, Search, SearchState, Turn,
};
use crate::clock::{now, whole_nanos};
use crate::cost::{cost_add, cost_sum, Cost};
use crate::traits::{is_route, nothing_found, Graph, Heuristic, Keyed, Outcome, PathResult, PathStatus};

verus! {

/// The relation between consecutive nodes of a Theta* path: an edge of the
/// graph, or a line of sight whose cost is the heuristic's distance.
pub open spec fn theta_link<G: Graph, H: Heuristic<G::Node>>(graph: &G, heuristic: &H) -> spec_fn(
    G::Node,
    G::Node,
    Cost,
) -> bool {
    |from: G::Node, to: G::Node, c: Cost|
        graph.edges(from).contains((to, c)) || (graph.visible(from, to) && c == heuristic.estimate_of(
            from,
            to,
        ))
}

/// The node that the neighbors of `current` try to hang on: its predecessor,
/// or `current` itself where it has none.
pub open spec fn pivot_of<N: Keyed>(s: SearchState<N>, current: N) -> N {
    if s.parent.contains_key(current.key_of()) {
        s.parent[current.key_of()]
    } else {
        current
    }
}

/// The state after the edge from `current` to `to` at cost `c` has been
/// relaxed: through `pivot` in a straight line where the two see each other,
/// through `current` otherwise.
pub open spec fn theta_relaxed<G: Graph, H: Heuristic<G::Node>>(
    s: SearchState<G::Node>,
    graph: &G,
    heuristic: &H,
    goal: G::Node,
    mode: TieBreaking,
    current: G::Node,
    g: Cost,
    pivot: G::Node,
    to: G::Node,
    c: Cost,
) -> SearchState<G::Node> {
    let h = heuristic.estimate_of(to, goal);
    if pivot.key_of() != current.key_of() && graph.visible(pivot, to) {
        let d = heuristic.estimate_of(pivot, to);
        s.relaxed(to, pivot, cost_sum(s.best[pivot.key_of()], d), d, h, mode)
    } else {
        s.relaxed(to, current, cost_sum(g, c), c, h, mode)
    }
}

/// The state after the first `n` of `edges`, which leave `current`, have been relaxed.
pub open spec fn theta_relaxed_edges<G: Graph, H: Heuristic<G::Node>>(
    s: SearchState<G::Node>,
    graph: &G,
    heuristic: &H,
    goal: G::Node,
    mode: TieBreaking,
    current: G::Node,
    g: Cost,
    pivot: G::Node,
    edges: Seq<(G::Node, Cost)>,
    n: nat,
) -> SearchState<G::Node>
    decreases n,
{
    if n == 0 {
        s
    } else {
        theta_relaxed(
            theta_relaxed_edges(s, graph, heuristic, goal, mode, current, g, pivot, edges, (n - 1) as nat),
            graph,
            heuristic,
            goal,
            mode,
            current,
            g,
            pivot,
            edges[n - 1].0,
            edges[n - 1].1,
        )
    }
}

/// What expanding a node does in Theta*.
pub open spec fn theta_grow<G: Graph, H: Heuristic<G::Node>>(
    graph: &G,
    heuristic: &H,
    goal: G::Node,
    mode: TieBreaking,
) -> spec_fn(SearchState<G::Node>, Entry<G::Node>) -> SearchState<G::Node> {
    |s: SearchState<G::Node>, e: Entry<G::Node>|
        theta_relaxed_edges(
            s,
            graph,
            heuristic,
            goal,
            mode,
            e.node,
            e.g,
            pivot_of(s, e.node),
            graph.edges(e.node),
            graph.edges(e.node).len(),
        )
}

/// The result of Theta* when no time limit cuts it short.
pub open spec fn theta_outcome<G: Graph, H: Heuristic<G::Node>>(
    graph: &G,
    heuristic: &H,
    start: G::Node,
    goal: G::Node,
    config: AStarConfig,
) -> Outcome<G::Node> {
    if !graph.passable(start) || !graph.passable(goal) {
        nothing_found(0)
    } else {
        search_run(
            SearchState::initial(start, heuristic.estimate_of(start, goal)),
            goal,
            iteration_limit(config),
            theta_grow(graph, heuristic, goal, config.tie_breaking),
        )
    }
}

fn expand<G: Graph, H: Heuristic<G::Node>>(
    search: &mut Search<G::Node>,
    graph: &G,
    heuristic: &H,
    goal: &G::Node,
    mode: TieBreaking,
    current: G::Node,
    g: Cost,
    Ghost(start): Ghost<G::Node>,
)
    requires
        graph.well_formed(),
        old(search)@.inv(start, theta_link(graph, heuristic)),
        old(search)@.has_room_to_grow(),
        old(search)@.best.contains_key(current.key_of()),
        old(search)@.best[current.key_of()] <= g,
    ensures
        final(search)@ == theta_grow(graph, heuristic, *goal, mode)(
            old(search)@,
            Entry { f: 0, tie: 0, seq: 0, g, node: current },
        ),
        final(search)@.inv(start, theta_link(graph, heuristic)),
        final(search)@.has_room(),
        final(search)@.iterations == old(search)@.iterations,
{
    let edges: Vec<(G::Node, Cost)> = graph.neighbors(&current);
    let ghost link = theta_link(graph, heuristic);
    let ghost s0 = search@;
    let pivot: G::Node = match search.parent_of(&current) {
        Some(p) => p,
        None => current,
    };
    let hangs: bool = pivot.key() != current.key();
    let mut i: usize = 0;
    proof {
        assert(s0.expanded * usize::MAX <= usize::MAX * usize::MAX) by (nonlinear_arith)
            requires
                s0.expanded <= usize::MAX,
        ;
        assert((s0.expanded - 1) * usize::MAX + usize::MAX == s0.expanded * usize::MAX)
            by (nonlinear_arith);
        assert(usize::MAX * usize::MAX <= 0xffff_ffff_ffff_ffff * 0xffff_ffff_ffff_ffff) by (nonlinear_arith)
            requires
                usize::MAX <= 0xffff_ffff_ffff_ffff,
        ;
        if s0.parent.contains_key(current.key_of()) {
            assert(s0.linked(current, link));
        }
    }
    while i < edges.len()
        invariant
            graph.well_formed(),
            i <= edges.len(),
            edges@ == graph.edges(current),
            pivot == pivot_of(s0, current),
            hangs == (pivot.key_of() != current.key_of()),
            search@ == theta_relaxed_edges(
                s0,
                graph,
                heuristic,
                *goal,
                mode,
                current,
                g,
                pivot,
                edges@,
                i as nat,
            ),
            search@.inv(start, link),
            link == theta_link(graph, heuristic),
            search@.best.contains_key(current.key_of()),
            search@.best[current.key_of()] <= g,
            search@.best.contains_key(pivot.key_of()),
            search@.next_seq <= s0.next_seq + i,
            s0.next_seq <= 1 + (s0.expanded - 1) * usize::MAX,
            (s0.expanded - 1) * usize::MAX + usize::MAX == s0.expanded * usize::MAX,
            s0.expanded * usize::MAX <= usize::MAX * usize::MAX,
            usize::MAX * usize::MAX + 1 < u128::MAX,
            search@.iterations == s0.iterations,
            search@.expanded == s0.expanded,
        decreases edges.len() - i,
    {
        let to: G::Node = edges[i].0;
        let c: Cost = edges[i].1;
        if hangs && graph.can_traverse(&pivot, &to) {
            let d: Cost = heuristic.estimate(&pivot, &to);
            let pg: Cost = search.best_of(&pivot).unwrap();
            let reached: Cost = cost_add(pg, d);
            proof {
                assert(link(pivot, to, d));
            }
            search.relax(heuristic, goal, mode, to, pivot, reached, Ghost(d), Ghost(start), Ghost(link));
        } else {
            let reached: Cost = cost_add(g, c);
            proof {
                assert(graph.edges(current).contains((to, c)));
                assert(link(current, to, c));
            }
            search.relax(heuristic, goal, mode, to, current, reached, Ghost(c), Ghost(start), Ghost(link));
        }
        i += 1;
    }
}

/// The search itself, with what the loop establishes of its result.
fn search<G: Graph, H: Heuristic<G::Node>>(
    graph: &G,
    heuristic: &H,
    start: G::Node,
    goal: G::Node,
    config: AStarConfig,
) -> (r: PathResult<G::Node>)
    requires
        graph.well_formed(),
    ensures
        r.status != PathStatus::PartialTimeout ==> r@ == theta_outcome(graph, heuristic, start, goal, config),
        r.status == PathStatus::PartialTimeout ==> config.timeout is Some,
        !graph.passable(start) || !graph.passable(goal) ==> r@ == nothing_found::<G::Node>(0),
        r.status == PathStatus::PartialTimeout ==> is_cut_short(
            SearchState::initial(start, heuristic.estimate_of(start, goal)),
            goal,
            iteration_limit(config),
            theta_grow(graph, heuristic, goal, config.tie_breaking),
            r@,
        ),
        r.status == PathStatus::NotFound ==> r.path@.len() == 0 && r.cost == 0,
        r.status != PathStatus::NotFound ==> is_route(r.path@, start, r.cost, theta_link(graph, heuristic)),
        r.status == PathStatus::Found ==> r.path@.last() == goal,
{
    if !graph.is_passable(&start) || !graph.is_passable(&goal) {
        return PathResult::not_found(0);
    }
    let clock = now();
    let h0: Cost = heuristic.estimate(&start, &goal);
    let mut search: Search<G::Node> = Search::new(start, h0);
    let limit: usize = match config.max_iterations {
        Some(m) => m,
        None => usize::MAX,
    };
    let allowed: Option<u128> = match config.timeout {
        Some(t) => Some(whole_nanos(&t)),
        None => None,
    };
    let ghost link = theta_link(graph, heuristic);
    let ghost grow = theta_grow(graph, heuristic, goal, config.tie_breaking);
    let ghost init = search@;
    let ghost mut k: nat = 0;
    proof {
        lemma_initial(start, h0, link);
        assert(1 + 0 * usize::MAX == 1) by (nonlinear_arith);
    }
    loop
        invariant
            init == SearchState::initial(start, heuristic.estimate_of(start, goal)),
            search@ == turned(init, goal, limit, grow, k),
            allowed is Some ==> config.timeout is Some,
            graph.passable(start),
            graph.passable(goal),
            graph.well_formed(),
            link == theta_link(graph, heuristic),
            grow == theta_grow(graph, heuristic, goal, config.tie_breaking),
            limit == iteration_limit(config),
            search@.inv(start, link),
            search@.has_room(),
            search_run(search@, goal, limit, grow) == theta_outcome(graph, heuristic, start, goal, config),
        decreases limit - search@.iterations,
    {
        let ghost before = search@;
        match search.turn(&goal, limit, &clock, &allowed, Ghost(start), Ghost(link)) {
            Turn::Done(res) => {
                proof {
                    if res.status == PathStatus::PartialTimeout {
                        assert(is_cut_short(init, goal, limit, grow, res@));
                    }
                }
                return res;
            },
            Turn::Skip => {
                proof {
                    k = k + 1;
                }
            },
            Turn::Expand(e) => {
                expand(&mut search, graph, heuristic, &goal, config.tie_breaking, e.node, e.g, Ghost(start));
                proof {
                    k = k + 1;
                }
            },
        }
    }
}

/// Finds an any-angle path from `start` to `goal`.
///
/// Unless the time limit cuts the search short, the result is
/// `theta_outcome`. Every path returned leads from `start` along edges and
/// lines of sight, at a total cost of no more than the cost reported. A
/// result of `NotFound` between two passable nodes means that no walk along
/// the edges of the graph leads from the one to the other.
pub fn theta_star<G: Graph, H: Heuristic<G::Node>>(
    graph: &G,
    heuristic: &H,
    start: G::Node,
    goal: G::Node,
    config: AStarConfig,
) -> (r: PathResult<G::Node>)
    requires
        graph.well_formed(),
    ensures
        r.status != PathStatus::PartialTimeout ==> r@ == theta_outcome(graph, heuristic, start, goal, config),
        r.status == PathStatus::PartialTimeout ==> config.timeout is Some,
        !graph.passable(start) || !graph.passable(goal) ==> r@ == nothing_found::<G::Node>(0),
        r.status == PathStatus::PartialTimeout ==> is_cut_short(
            SearchState::initial(start, heuristic.estimate_of(start, goal)),
            goal,
            iteration_limit(config),
            theta_grow(graph, heuristic, goal, config.tie_breaking),
            r@,
        ),
        r.status == PathStatus::NotFound ==> r.path@.len() == 0 && r.cost == 0,
        r.status != PathStatus::NotFound ==> is_route(r.path@, start, r.cost, theta_link(graph, heuristic)),
        r.status == PathStatus::Found ==> r.path@.last() == goal,
        r.status == PathStatus::NotFound && lists_edges(graph) && graph.passable(start) && graph.passable(goal)
            ==> !reachable(graph, start, goal),
{
    let r = search(graph, heuristic, start, goal, config);
    proof {
        if r.status == PathStatus::NotFound && lists_edges(graph) && graph.passable(start) && graph.passable(
            goal,
        ) {
            lemma_theta_not_found_means_unreachable(graph, heuristic, start, goal, config);
        }
    }
    r
}

} // verus!
