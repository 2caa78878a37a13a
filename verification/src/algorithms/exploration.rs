//! What Theta* guarantees when it finds nothing: a search that ends with
//! `NotFound` has discovered every node that walks from the start lead to,
//! and the goal is not among them.

use vstd::prelude::*;
use vstd::multiset::Multiset;
use crate::algorithms::astar::{iteration_limit, tie_rank, AStarConfig, TieBreaking};
use crate::algorithms::guarantees::{is_open, lemma_has_first, lists_edges, reachable, walks_between};
use crate::algorithms::search::{first_entry, is_first, lemma_initial, search_run, Entry, SearchState};
use crate::algorithms::theta::{pivot_of, theta_grow, theta_link, theta_outcome, theta_relaxed, theta_relaxed_edges};
use crate::cost::{cost_sum, Cost};
use crate::traits::{edge_link, Graph, Heuristic, Keyed, PathStatus};

verus! {

broadcast use vstd::multiset::group_multiset_axioms;

/// Whether the target of the `i`-th edge that leaves `n` has been discovered.
pub open spec fn edge_explored<G: Graph>(s: SearchState<G::Node>, graph: &G, n: G::Node, i: int) -> bool {
    s.best.contains_key(graph.edges(n)[i].0.key_of())
}

/// Whether every node that an edge leads to from `n` has been discovered.
pub open spec fn is_explored<G: Graph>(s: SearchState<G::Node>, graph: &G, n: G::Node) -> bool {
    forall|i: int| 0 <= i < graph.edges(n).len() ==> #[trigger] edge_explored(s, graph, n, i)
}

/// Whether an entry whose cost is the best known of its node is the node's live entry.
pub open spec fn entry_current<N: Keyed>(s: SearchState<N>, e: Entry<N>) -> bool {
    e.g == s.best[e.node.key_of()] ==> e == s.live[e.node.key_of()]
}

/// The invariant of exploration: every discovered node is open or
/// explored, and the goal is open once discovered. While the node `cur` is
/// being expanded it is neither, and only the first `done` of its edges are
/// known to lead to discovered nodes.
pub open spec fn exploring<G: Graph>(
    s: SearchState<G::Node>,
    graph: &G,
    goal: G::Node,
    cur: Option<G::Node>,
    done: int,
) -> bool {
    &&& forall|n: G::Node| #[trigger]
        s.best.contains_key(n.key_of()) && Some(n) != cur ==> is_open(s, n) || is_explored(s, graph, n)
    &&& s.best.contains_key(goal.key_of()) ==> is_open(s, goal)
    &&& forall|e: Entry<G::Node>| #[trigger] s.frontier.count(e) > 0 ==> entry_current(s, e)
    &&& cur matches Some(x) ==> {
        &&& s.best.contains_key(x.key_of())
        &&& x.key_of() != goal.key_of()
        &&& forall|i: int| 0 <= i < done ==> #[trigger] edge_explored(s, graph, x, i)
    }
}

/// The search that has only seen its start is exploring.
pub proof fn lemma_initial_exploring<G: Graph>(graph: &G, start: G::Node, goal: G::Node, h: Cost)
    ensures
        exploring(SearchState::initial(start, h), graph, goal, None, 0),
{
    let s = SearchState::initial(start, h);
    let first = Entry { f: h, tie: 0, seq: 0, g: 0, node: start };
    assert(s.frontier.count(first) > 0);
    assert forall|n: G::Node| #[trigger] s.best.contains_key(n.key_of()) implies is_open(s, n) by {
        G::Node::key_is_injective(n, start);
    }
    assert forall|e: Entry<G::Node>| #[trigger] s.frontier.count(e) > 0 implies entry_current(s, e) by {
        if e != first {
            assert(Multiset::<Entry<G::Node>>::empty().insert(first).count(e) == 0);
        }
    }
}

/// Relaxing the next edge of the node being expanded, through whatever
/// discovered node, keeps the search exploring.
pub proof fn lemma_relaxed_exploring<G: Graph>(
    s: SearchState<G::Node>,
    graph: &G,
    goal: G::Node,
    x: G::Node,
    done: int,
    via: G::Node,
    g: Cost,
    c: Cost,
    h: Cost,
    mode: TieBreaking,
    start: G::Node,
    link: spec_fn(G::Node, G::Node, Cost) -> bool,
)
    requires
        s.inv(start, link),
        exploring(s, graph, goal, Some(x), done),
        0 <= done < graph.edges(x).len(),
        s.next_seq < u128::MAX,
        s.best.contains_key(via.key_of()),
        link(via, graph.edges(x)[done].0, c),
        cost_sum(s.best[via.key_of()], c) <= g,
    ensures
        ({
            let t = s.relaxed(graph.edges(x)[done].0, via, g, c, h, mode);
            &&& t.inv(start, link)
            &&& exploring(t, graph, goal, Some(x), done + 1)
            &&& t.best.contains_key(x.key_of())
            &&& t.best[x.key_of()] <= s.best[x.key_of()]
            &&& t.best.contains_key(via.key_of())
            &&& t.next_seq <= s.next_seq + 1
            &&& t.iterations == s.iterations
            &&& t.expanded == s.expanded
            &&& forall|k: u128| s.best.contains_key(k) ==> t.best.contains_key(k)
            &&& forall|n: G::Node| #[trigger]
                s.parent.contains_key(n.key_of()) ==> t.parent.contains_key(n.key_of())
        }),
{
    let to = graph.edges(x)[done].0;
    let t = s.relaxed(to, via, g, c, h, mode);
    let k = to.key_of();
    s.lemma_relaxed(to, via, g, c, h, mode, start, link);
    if s.improves(to, g) {
        let e = Entry { f: cost_sum(g, h), tie: tie_rank(mode, g), seq: s.next_seq, g, node: to };
        assert(t.frontier.count(e) > 0);
        assert forall|n: G::Node| #[trigger] t.best.contains_key(n.key_of()) && Some(n) != Some(x) implies is_open(
            t,
            n,
        ) || is_explored(t, graph, n) by {
            if n.key_of() == k {
                G::Node::key_is_injective(n, to);
                assert(is_open(t, n));
            } else {
                assert(s.best.contains_key(n.key_of()));
                if is_open(s, n) {
                    assert(is_open(t, n));
                } else {
                    assert(is_explored(s, graph, n));
                    assert forall|i: int| 0 <= i < graph.edges(n).len() implies #[trigger] edge_explored(
                        t,
                        graph,
                        n,
                        i,
                    ) by {
                        assert(edge_explored(s, graph, n, i));
                    }
                }
            }
        }
        if t.best.contains_key(goal.key_of()) {
            if goal.key_of() == k {
                G::Node::key_is_injective(goal, to);
            } else {
                assert(is_open(s, goal));
            }
            assert(is_open(t, goal));
        }
        assert forall|o: Entry<G::Node>| #[trigger] t.frontier.count(o) > 0 implies entry_current(t, o) by {
            if o != e {
                assert(s.frontier.count(o) > 0);
                assert(entry_current(s, o));
            }
        }
        assert forall|i: int| 0 <= i < done + 1 implies #[trigger] edge_explored(t, graph, x, i) by {
            if i < done {
                assert(edge_explored(s, graph, x, i));
            }
        }
    } else {
        assert forall|i: int| 0 <= i < done + 1 implies #[trigger] edge_explored(t, graph, x, i) by {
            if i < done {
                assert(edge_explored(s, graph, x, i));
            }
        }
    }
}

/// Taking the first entry off the frontier keeps the search exploring.
pub proof fn lemma_taken_exploring<G: Graph>(
    s: SearchState<G::Node>,
    graph: &G,
    goal: G::Node,
    e: Entry<G::Node>,
    start: G::Node,
    link: spec_fn(G::Node, G::Node, Cost) -> bool,
)
    requires
        s.inv(start, link),
        exploring(s, graph, goal, None, 0),
        is_first(s.frontier, e),
        e.node.key_of() != goal.key_of(),
    ensures
        ({
            let t = s.without(e).counted();
            if t.best[e.node.key_of()] < e.g {
                exploring(t, graph, goal, None, 0)
            } else {
                exploring(t.opened(), graph, goal, Some(e.node), 0) && t.best[e.node.key_of()] == e.g
            }
        }),
{
    let t = s.without(e).counted();
    let x = e.node;
    assert(entry_current(s, e));
    if t.best[x.key_of()] < e.g {
        assert forall|n: G::Node| #[trigger] t.best.contains_key(n.key_of()) implies is_open(t, n) || is_explored(
            t,
            graph,
            n,
        ) by {
            if is_open(s, n) {
                assert(s.live[n.key_of()] != e);
                assert(is_open(t, n));
            } else {
                assert(is_explored(s, graph, n));
                assert forall|i: int| 0 <= i < graph.edges(n).len() implies #[trigger] edge_explored(
                    t,
                    graph,
                    n,
                    i,
                ) by {
                    assert(edge_explored(s, graph, n, i));
                }
            }
        }
        if t.best.contains_key(goal.key_of()) {
            assert(is_open(s, goal));
            assert(s.live[goal.key_of()] != e);
        }
        assert forall|o: Entry<G::Node>| #[trigger] t.frontier.count(o) > 0 implies entry_current(t, o) by {
            assert(s.frontier.count(o) > 0);
            assert(entry_current(s, o));
        }
    } else {
        let u = t.opened();
        assert(e == s.live[x.key_of()]);
        assert forall|n: G::Node| #[trigger] u.best.contains_key(n.key_of()) && Some(n) != Some(x) implies is_open(
            u,
            n,
        ) || is_explored(u, graph, n) by {
            if is_open(s, n) {
                assert(s.live[n.key_of()] != e);
                assert(is_open(u, n));
            } else {
                assert(is_explored(s, graph, n));
                assert forall|i: int| 0 <= i < graph.edges(n).len() implies #[trigger] edge_explored(
                    u,
                    graph,
                    n,
                    i,
                ) by {
                    assert(edge_explored(s, graph, n, i));
                }
            }
        }
        if u.best.contains_key(goal.key_of()) {
            assert(is_open(s, goal));
            assert(s.live[goal.key_of()] != e);
            assert(is_open(u, goal));
        }
        assert forall|o: Entry<G::Node>| #[trigger] u.frontier.count(o) > 0 implies entry_current(u, o) by {
            assert(s.frontier.count(o) > 0);
            assert(entry_current(s, o));
        }
    }
}

/// Once every edge of the node being expanded has been relaxed, the node is explored.
pub proof fn lemma_expanded_exploring<G: Graph>(s: SearchState<G::Node>, graph: &G, goal: G::Node, x: G::Node)
    requires
        exploring(s, graph, goal, Some(x), graph.edges(x).len() as int),
    ensures
        exploring(s, graph, goal, None, 0),
{
    assert(is_explored(s, graph, x));
    assert forall|n: G::Node| #[trigger] s.best.contains_key(n.key_of()) implies is_open(s, n) || is_explored(
        s,
        graph,
        n,
    ) by {
        if n != x {
            assert(Some(n) != Some(x));
        }
    }
}

/// On every walk from the start to the goal some node is open.
pub proof fn lemma_walk_meets_frontier<G: Graph>(
    s: SearchState<G::Node>,
    graph: &G,
    start: G::Node,
    goal: G::Node,
    path: Seq<G::Node>,
    costs: Seq<Cost>,
    j: int,
) -> (i: int)
    requires
        exploring(s, graph, goal, None, 0),
        walks_between(graph, path, costs, start, goal),
        0 <= j < path.len(),
        s.best.contains_key(path[j].key_of()),
    ensures
        j <= i < path.len(),
        is_open(s, path[i]),
    decreases path.len() - j,
{
    if is_open(s, path[j]) {
        j
    } else {
        assert(is_explored(s, graph, path[j]));
        assert(j < path.len() - 1);
        let link = edge_link(graph);
        assert(link(path[j], path[j + 1], costs[j]));
        let out = graph.edges(path[j]);
        assert(out.contains((path[j + 1], costs[j])));
        let idx = choose|idx: int| 0 <= idx < out.len() && #[trigger] out[idx] == (path[j + 1], costs[j]);
        assert(edge_explored(s, graph, path[j], idx));
        lemma_walk_meets_frontier(s, graph, start, goal, path, costs, j + 1)
    }
}

/// Relaxing the first `n` edges of the node being expanded, as Theta* does, keeps both invariants.
pub proof fn lemma_theta_relaxed_edges<G: Graph, H: Heuristic<G::Node>>(
    s: SearchState<G::Node>,
    graph: &G,
    heuristic: &H,
    goal: G::Node,
    mode: TieBreaking,
    x: G::Node,
    g: Cost,
    pivot: G::Node,
    n: nat,
    start: G::Node,
)
    requires
        s.inv(start, theta_link(graph, heuristic)),
        exploring(s, graph, goal, Some(x), 0),
        s.has_room_to_grow(),
        s.best[x.key_of()] <= g,
        s.best.contains_key(pivot.key_of()),
        n <= graph.edges(x).len() <= usize::MAX,
    ensures
        ({
            let t = theta_relaxed_edges(s, graph, heuristic, goal, mode, x, g, pivot, graph.edges(x), n);
            &&& t.inv(start, theta_link(graph, heuristic))
            &&& exploring(t, graph, goal, Some(x), n as int)
            &&& t.best.contains_key(x.key_of())
            &&& t.best[x.key_of()] <= g
            &&& t.best.contains_key(pivot.key_of())
            &&& t.next_seq <= s.next_seq + n
            &&& t.iterations == s.iterations
            &&& t.expanded == s.expanded
        }),
    decreases n,
{
    if n > 0 {
        lemma_theta_relaxed_edges(s, graph, heuristic, goal, mode, x, g, pivot, (n - 1) as nat, start);
        let before = theta_relaxed_edges(
            s,
            graph,
            heuristic,
            goal,
            mode,
            x,
            g,
            pivot,
            graph.edges(x),
            (n - 1) as nat,
        );
        assert(s.expanded * usize::MAX <= usize::MAX * usize::MAX) by (nonlinear_arith)
            requires
                s.expanded <= usize::MAX,
        ;
        assert((s.expanded - 1) * usize::MAX + usize::MAX == s.expanded * usize::MAX) by (nonlinear_arith);
        assert(usize::MAX * usize::MAX <= 0xffff_ffff_ffff_ffff * 0xffff_ffff_ffff_ffff) by (nonlinear_arith)
            requires
                usize::MAX <= 0xffff_ffff_ffff_ffff,
        ;
        let link = theta_link(graph, heuristic);
        let to = graph.edges(x)[n - 1].0;
        let c = graph.edges(x)[n - 1].1;
        let h = heuristic.estimate_of(to, goal);
        if pivot.key_of() != x.key_of() && graph.visible(pivot, to) {
            let d = heuristic.estimate_of(pivot, to);
            assert(link(pivot, to, d));
            lemma_relaxed_exploring(
                before,
                graph,
                goal,
                x,
                n - 1,
                pivot,
                cost_sum(before.best[pivot.key_of()], d),
                d,
                h,
                mode,
                start,
                link,
            );
        } else {
            assert(graph.edges(x).contains((to, c)));
            assert(link(x, to, c));
            lemma_relaxed_exploring(before, graph, goal, x, n - 1, x, cost_sum(g, c), c, h, mode, start, link);
        }
    }
}

/// A run of Theta* from an exploring state that ends with `NotFound` proves
/// that no walk leads from the start to the goal.
pub proof fn lemma_theta_run<G: Graph, H: Heuristic<G::Node>>(
    s: SearchState<G::Node>,
    graph: &G,
    heuristic: &H,
    start: G::Node,
    goal: G::Node,
    limit: usize,
    mode: TieBreaking,
)
    requires
        s.inv(start, theta_link(graph, heuristic)),
        exploring(s, graph, goal, None, 0),
        s.has_room(),
        lists_edges(graph),
    ensures
        search_run(s, goal, limit, theta_grow(graph, heuristic, goal, mode)).status == PathStatus::NotFound
            ==> !reachable(graph, start, goal),
    decreases limit - s.iterations,
{
    let link = theta_link(graph, heuristic);
    let grow = theta_grow(graph, heuristic, goal, mode);
    if s.frontier.len() == 0 {
        assert forall|path: Seq<G::Node>, costs: Seq<Cost>| #[trigger]
            walks_between(graph, path, costs, start, goal) implies false by {
            let i = lemma_walk_meets_frontier(s, graph, start, goal, path, costs, 0);
            assert(s.frontier.count(s.live[path[i].key_of()]) <= s.frontier.len());
        }
    } else {
        lemma_has_first(s.frontier);
        let e = first_entry(s.frontier);
        assert(is_first(s.frontier, e));
        let t = s.without(e);
        s.lemma_without(start, link, e);
        if s.iterations >= limit {
        } else {
            t.lemma_counted(start, link);
            let u = t.counted();
            if e.node.key_of() == goal.key_of() {
            } else {
                lemma_taken_exploring(s, graph, goal, e, start, link);
                if u.best[e.node.key_of()] < e.g {
                    lemma_theta_run(u, graph, heuristic, start, goal, limit, mode);
                } else {
                    let v0 = u.opened();
                    let out = graph.edges(e.node);
                    assert(out.len() <= usize::MAX);
                    let pivot = pivot_of(v0, e.node);
                    if v0.parent.contains_key(e.node.key_of()) {
                        assert(v0.linked(e.node, link));
                    }
                    lemma_theta_relaxed_edges(v0, graph, heuristic, goal, mode, e.node, e.g, pivot, out.len(), start);
                    let v = theta_relaxed_edges(v0, graph, heuristic, goal, mode, e.node, e.g, pivot, out, out.len());
                    assert(v == grow(v0, e));
                    lemma_expanded_exploring(v, graph, goal, e.node);
                    assert((v0.expanded - 1) * usize::MAX + usize::MAX == v0.expanded * usize::MAX)
                        by (nonlinear_arith);
                    lemma_theta_run(v, graph, heuristic, start, goal, limit, mode);
                }
            }
        }
    }
}

/// Where Theta* reports `NotFound` between two passable nodes, no walk
/// along the edges of the graph leads from the one to the other.
pub proof fn lemma_theta_not_found_means_unreachable<G: Graph, H: Heuristic<G::Node>>(
    graph: &G,
    heuristic: &H,
    start: G::Node,
    goal: G::Node,
    config: AStarConfig,
)
    requires
        lists_edges(graph),
        graph.passable(start),
        graph.passable(goal),
        theta_outcome(graph, heuristic, start, goal, config).status == PathStatus::NotFound,
    ensures
        !reachable(graph, start, goal),
{
    let h = heuristic.estimate_of(start, goal);
    lemma_initial(start, h, theta_link(graph, heuristic));
    lemma_initial_exploring(graph, start, goal, h);
    assert(1 + 0 * usize::MAX == 1) by (nonlinear_arith);
    lemma_theta_run(
        SearchState::initial(start, h),
        graph,
        heuristic,
        start,
        goal,
        iteration_limit(config),
        config.tie_breaking,
    );
}

} // verus!
