//! What A* guarantees of its result: with a heuristic that never
//! overestimates, no walk from the start to the goal is cheaper than the
//! path found, and a search that finds nothing proves that there is none.

use vstd::prelude::*;
use vstd::multiset::Multiset;
use crate::algorithms::astar::{
    answers, astar_grow, astar_outcome, iteration_limit, relaxed_edges, tie_rank, AStarConfig, TieBreaking,
};
use crate::heuristics::Zero;
use crate::algorithms::search::{
    entry_before, first_entry, is_first, lemma_initial, search_run, Entry, SearchState,
};
use crate::cost::{cost_sum, Cost, COST_INFINITY};
use crate::traits::{
    edge_link, is_linked_path, is_route, is_walk, total_cost, Graph, Heuristic, Keyed, PathResult, PathStatus,
};

verus! {

broadcast use vstd::multiset::group_multiset_axioms;

/// Whether `heuristic` never overestimates the cost of a walk to `goal`.
pub open spec fn never_overestimates<G: Graph, H: Heuristic<G::Node>>(
    graph: &G,
    heuristic: &H,
    goal: G::Node,
) -> bool {
    forall|path: Seq<G::Node>, costs: Seq<Cost>| #[trigger]
        is_walk(graph, path, costs) && path.last() == goal ==> heuristic.estimate_of(path[0], goal)
            <= total_cost(costs)
}

/// Whether no node has more edges than a vector can hold, as is the case
/// for every graph whose `neighbors` can be called.
pub open spec fn lists_edges<G: Graph>(graph: &G) -> bool {
    forall|n: G::Node| (#[trigger] graph.edges(n)).len() <= usize::MAX
}

/// Whether `path` walks from `start` to `goal` at the step costs `costs`.
pub open spec fn walks_between<G: Graph>(
    graph: &G,
    path: Seq<G::Node>,
    costs: Seq<Cost>,
    start: G::Node,
    goal: G::Node,
) -> bool {
    is_walk(graph, path, costs) && path[0] == start && path.last() == goal
}

/// Whether some walk leads from `start` to `goal`.
pub open spec fn reachable<G: Graph>(graph: &G, start: G::Node, goal: G::Node) -> bool {
    exists|path: Seq<G::Node>, costs: Seq<Cost>| #[trigger] walks_between(graph, path, costs, start, goal)
}

/// Whether no walk from `start` to `goal` costs less than `cost`.
pub open spec fn no_cheaper_walk<G: Graph>(graph: &G, start: G::Node, goal: G::Node, cost: Cost) -> bool {
    forall|path: Seq<G::Node>, costs: Seq<Cost>| #[trigger]
        walks_between(graph, path, costs, start, goal) ==> cost <= total_cost(costs)
}

/// Whether the node `n` waits on the frontier at its best cost.
pub open spec fn is_open<N: Keyed>(s: SearchState<N>, n: N) -> bool {
    let e = s.live[n.key_of()];
    s.frontier.count(e) > 0 && e.node == n && e.g == s.best[n.key_of()]
}

/// Whether the `i`-th edge that leaves `n` cannot lower the best cost of its target.
pub open spec fn edge_relaxed<G: Graph>(s: SearchState<G::Node>, graph: &G, n: G::Node, i: int) -> bool {
    let to = graph.edges(n)[i].0;
    s.best.contains_key(to.key_of()) && s.best[to.key_of()] <= cost_sum(
        s.best[n.key_of()],
        graph.edges(n)[i].1,
    )
}

/// Whether no edge that leaves `n` can lower a best cost.
pub open spec fn is_closed<G: Graph>(s: SearchState<G::Node>, graph: &G, n: G::Node) -> bool {
    forall|i: int| 0 <= i < graph.edges(n).len() ==> #[trigger] edge_relaxed(s, graph, n, i)
}

/// What holds of an entry on the frontier: its priority is its cost plus
/// the estimate, and if its cost is the best known of its node, it is the
/// node's live entry.
pub open spec fn entry_settled<N: Keyed, H: Heuristic<N>>(s: SearchState<N>, heuristic: &H, goal: N, e: Entry<N>) -> bool {
    &&& e.f == cost_sum(e.g, heuristic.estimate_of(e.node, goal))
    &&& e.g == s.best[e.node.key_of()] ==> e == s.live[e.node.key_of()]
}

/// The second invariant of A*: every discovered node is open or closed,
/// the goal is open once discovered, and the frontier is priced by the
/// heuristic. While the node `cur` is being expanded it is neither, and only
/// the first `done` of its edges are known to be relaxed.
pub open spec fn settled<G: Graph, H: Heuristic<G::Node>>(
    s: SearchState<G::Node>,
    graph: &G,
    heuristic: &H,
    goal: G::Node,
    cur: Option<G::Node>,
    done: int,
) -> bool {
    &&& forall|n: G::Node| #[trigger]
        s.best.contains_key(n.key_of()) && Some(n) != cur ==> is_open(s, n) || is_closed(s, graph, n)
    &&& s.best.contains_key(goal.key_of()) ==> is_open(s, goal)
    &&& forall|e: Entry<G::Node>| #[trigger] s.frontier.count(e) > 0 ==> entry_settled(s, heuristic, goal, e)
    &&& cur matches Some(x) ==> {
        &&& s.best.contains_key(x.key_of())
        &&& x.key_of() != goal.key_of()
        &&& forall|i: int| 0 <= i < done ==> #[trigger] edge_relaxed(s, graph, x, i)
    }
}

/// A frontier that is not empty has a first entry.
pub proof fn lemma_has_first<N>(m: Multiset<Entry<N>>)
    requires
        m.len() > 0,
    ensures
        exists|e: Entry<N>| is_first(m, e),
    decreases m.len(),
{
    let a = m.choose();
    let rest = m.remove(a);
    assert(Multiset::singleton(a).subset_of(m));
    if rest.len() == 0 {
        assert forall|o: Entry<N>| m.count(o) > 0 implies entry_before(a, o) by {
            if o != a {
                assert(rest.count(o) == m.count(o));
                assert(rest.count(o) <= rest.len());
            }
        }
        assert(is_first(m, a));
    } else {
        lemma_has_first(rest);
        let f = choose|f: Entry<N>| is_first(rest, f);
        let best = if entry_before(a, f) { a } else { f };
        assert forall|o: Entry<N>| m.count(o) > 0 implies entry_before(best, o) by {
            if o != a {
                assert(rest.count(o) == m.count(o));
                assert(entry_before(f, o));
            }
        }
        assert(m.count(f) >= rest.count(f));
        assert(is_first(m, best));
    }
}

/// The search that has only seen its start is settled.
pub proof fn lemma_initial_settled<G: Graph, H: Heuristic<G::Node>>(
    graph: &G,
    heuristic: &H,
    start: G::Node,
    goal: G::Node,
)
    ensures
        settled(
            SearchState::initial(start, heuristic.estimate_of(start, goal)),
            graph,
            heuristic,
            goal,
            None,
            0,
        ),
{
    let h = heuristic.estimate_of(start, goal);
    let s = SearchState::initial(start, h);
    let first = Entry { f: h, tie: 0, seq: 0, g: 0, node: start };
    assert(s.frontier.count(first) > 0);
    assert forall|n: G::Node| #[trigger] s.best.contains_key(n.key_of()) implies is_open(s, n) by {
        G::Node::key_is_injective(n, start);
    }
    assert forall|e: Entry<G::Node>| #[trigger] s.frontier.count(e) > 0 implies entry_settled(
        s,
        heuristic,
        goal,
        e,
    ) by {
        if e != first {
            assert(Multiset::<Entry<G::Node>>::empty().insert(first).count(e) == 0);
        }
    }
}

/// Relaxing the next edge of the node being expanded keeps the search settled.
pub proof fn lemma_relaxed_settled<G: Graph, H: Heuristic<G::Node>>(
    s: SearchState<G::Node>,
    graph: &G,
    heuristic: &H,
    goal: G::Node,
    mode: TieBreaking,
    x: G::Node,
    done: int,
    start: G::Node,
)
    requires
        s.inv(start, edge_link(graph)),
        settled(s, graph, heuristic, goal, Some(x), done),
        0 <= done < graph.edges(x).len(),
        s.next_seq < u128::MAX,
    ensures
        ({
            let to = graph.edges(x)[done].0;
            let c = graph.edges(x)[done].1;
            let t = s.relaxed(
                to,
                x,
                cost_sum(s.best[x.key_of()], c),
                c,
                heuristic.estimate_of(to, goal),
                mode,
            );
            &&& t.inv(start, edge_link(graph))
            &&& settled(t, graph, heuristic, goal, Some(x), done + 1)
            &&& t.best.contains_key(x.key_of())
            &&& t.best[x.key_of()] == s.best[x.key_of()]
            &&& t.next_seq <= s.next_seq + 1
            &&& t.iterations == s.iterations
            &&& t.expanded == s.expanded
        }),
{
    let link = edge_link(graph);
    let to = graph.edges(x)[done].0;
    let c = graph.edges(x)[done].1;
    let g = cost_sum(s.best[x.key_of()], c);
    let h = heuristic.estimate_of(to, goal);
    let t = s.relaxed(to, x, g, c, h, mode);
    let k = to.key_of();
    assert(graph.edges(x).contains((to, c)));
    assert(link(x, to, c));
    s.lemma_relaxed(to, x, g, c, h, mode, start, link);
    if s.improves(to, g) {
        let e = Entry { f: cost_sum(g, h), tie: tie_rank(mode, g), seq: s.next_seq, g, node: to };
        assert(t.frontier.count(e) > 0);
        assert forall|n: G::Node| #[trigger] t.best.contains_key(n.key_of()) && Some(n) != Some(x) implies is_open(
            t,
            n,
        ) || is_closed(t, graph, n) by {
            if n.key_of() == k {
                G::Node::key_is_injective(n, to);
                assert(is_open(t, n));
            } else {
                assert(s.best.contains_key(n.key_of()));
                if is_open(s, n) {
                    assert(is_open(t, n));
                } else {
                    assert(is_closed(s, graph, n));
                    assert forall|i: int| 0 <= i < graph.edges(n).len() implies #[trigger] edge_relaxed(
                        t,
                        graph,
                        n,
                        i,
                    ) by {
                        assert(edge_relaxed(s, graph, n, i));
                    }
                }
            }
        }
        if t.best.contains_key(goal.key_of()) {
            if goal.key_of() == k {
                G::Node::key_is_injective(goal, to);
            } else {
                assert(is_open(s, goal));
            }
            assert(is_open(t, goal));
        }
        assert forall|o: Entry<G::Node>| #[trigger] t.frontier.count(o) > 0 implies entry_settled(
            t,
            heuristic,
            goal,
            o,
        ) by {
            if o != e {
                assert(s.frontier.count(o) > 0);
                assert(entry_settled(s, heuristic, goal, o));
            }
        }
        assert forall|i: int| 0 <= i < done + 1 implies #[trigger] edge_relaxed(t, graph, x, i) by {
            if i < done {
                assert(edge_relaxed(s, graph, x, i));
            }
        }
    } else {
        assert forall|i: int| 0 <= i < done + 1 implies #[trigger] edge_relaxed(t, graph, x, i) by {
            if i < done {
                assert(edge_relaxed(s, graph, x, i));
            }
        }
    }
}

/// Taking the first entry off the frontier keeps the search settled: a
/// superseded entry is not missed, and a node about to be expanded is set aside.
pub proof fn lemma_taken_settled<G: Graph, H: Heuristic<G::Node>>(
    s: SearchState<G::Node>,
    graph: &G,
    heuristic: &H,
    goal: G::Node,
    e: Entry<G::Node>,
    start: G::Node,
)
    requires
        s.inv(start, edge_link(graph)),
        settled(s, graph, heuristic, goal, None, 0),
        is_first(s.frontier, e),
        e.node.key_of() != goal.key_of(),
        s.iterations < usize::MAX,
    ensures
        ({
            let t = s.without(e).counted();
            if t.best[e.node.key_of()] < e.g {
                settled(t, graph, heuristic, goal, None, 0)
            } else {
                settled(t.opened(), graph, heuristic, goal, Some(e.node), 0) && t.best[e.node.key_of()] == e.g
            }
        }),
{
    let t = s.without(e).counted();
    let x = e.node;
    assert(entry_settled(s, heuristic, goal, e));
    if t.best[x.key_of()] < e.g {
        assert forall|n: G::Node| #[trigger] t.best.contains_key(n.key_of()) implies is_open(t, n) || is_closed(
            t,
            graph,
            n,
        ) by {
            if is_open(s, n) {
                assert(s.live[n.key_of()] != e);
                assert(is_open(t, n));
            } else {
                assert(is_closed(s, graph, n));
                assert forall|i: int| 0 <= i < graph.edges(n).len() implies #[trigger] edge_relaxed(
                    t,
                    graph,
                    n,
                    i,
                ) by {
                    assert(edge_relaxed(s, graph, n, i));
                }
            }
        }
        if t.best.contains_key(goal.key_of()) {
            assert(is_open(s, goal));
            assert(s.live[goal.key_of()] != e);
        }
        assert forall|o: Entry<G::Node>| #[trigger] t.frontier.count(o) > 0 implies entry_settled(
            t,
            heuristic,
            goal,
            o,
        ) by {
            assert(s.frontier.count(o) > 0);
            assert(entry_settled(s, heuristic, goal, o));
        }
    } else {
        let u = t.opened();
        assert(e == s.live[x.key_of()]);
        assert forall|n: G::Node| #[trigger] u.best.contains_key(n.key_of()) && Some(n) != Some(x) implies is_open(
            u,
            n,
        ) || is_closed(u, graph, n) by {
            if is_open(s, n) {
                assert(s.live[n.key_of()] != e);
                assert(is_open(u, n));
            } else {
                assert(is_closed(s, graph, n));
                assert forall|i: int| 0 <= i < graph.edges(n).len() implies #[trigger] edge_relaxed(
                    u,
                    graph,
                    n,
                    i,
                ) by {
                    assert(edge_relaxed(s, graph, n, i));
                }
            }
        }
        if u.best.contains_key(goal.key_of()) {
            assert(is_open(s, goal));
            assert(s.live[goal.key_of()] != e);
            assert(is_open(u, goal));
        }
        assert forall|o: Entry<G::Node>| #[trigger] u.frontier.count(o) > 0 implies entry_settled(
            u,
            heuristic,
            goal,
            o,
        ) by {
            assert(s.frontier.count(o) > 0);
            assert(entry_settled(s, heuristic, goal, o));
        }
    }
}

/// The cost of two stretches walked one after the other is the sum of their costs.
pub proof fn lemma_total_cost_add(a: Seq<Cost>, b: Seq<Cost>)
    ensures
        total_cost(a + b) == total_cost(a) + total_cost(b),
    decreases b.len(),
{
    if b.len() == 0 {
        assert(a + b =~= a);
    } else {
        lemma_total_cost_add(a, b.drop_last());
        assert((a + b).drop_last() =~= a + b.drop_last());
    }
}

/// Once every edge of the node being expanded is relaxed, the node is closed.
pub proof fn lemma_expanded_settled<G: Graph, H: Heuristic<G::Node>>(
    s: SearchState<G::Node>,
    graph: &G,
    heuristic: &H,
    goal: G::Node,
    x: G::Node,
)
    requires
        settled(s, graph, heuristic, goal, Some(x), graph.edges(x).len() as int),
    ensures
        settled(s, graph, heuristic, goal, None, 0),
{
    assert(is_closed(s, graph, x));
    assert forall|n: G::Node| #[trigger] s.best.contains_key(n.key_of()) implies is_open(s, n) || is_closed(
        s,
        graph,
        n,
    ) by {
        if n != x {
            assert(Some(n) != Some(x));
        }
    }
}

/// On every walk from the start to the goal some node is open, at a best
/// cost of no more than the walk's cost up to it.
pub proof fn lemma_open_on_walk<G: Graph, H: Heuristic<G::Node>>(
    s: SearchState<G::Node>,
    graph: &G,
    heuristic: &H,
    start: G::Node,
    goal: G::Node,
    path: Seq<G::Node>,
    costs: Seq<Cost>,
    j: int,
) -> (i: int)
    requires
        s.inv(start, edge_link(graph)),
        settled(s, graph, heuristic, goal, None, 0),
        walks_between(graph, path, costs, start, goal),
        0 <= j < path.len(),
        s.best.contains_key(path[j].key_of()),
        s.best[path[j].key_of()] <= total_cost(costs.subrange(0, j)),
    ensures
        j <= i < path.len(),
        is_open(s, path[i]),
        s.best.contains_key(path[i].key_of()),
        s.best[path[i].key_of()] <= total_cost(costs.subrange(0, i)),
    decreases path.len() - j,
{
    if is_open(s, path[j]) {
        j
    } else {
        assert(is_closed(s, graph, path[j]));
        assert(j < path.len() - 1);
        let link = edge_link(graph);
        assert(link(path[j], path[j + 1], costs[j]));
        let out = graph.edges(path[j]);
        assert(out.contains((path[j + 1], costs[j])));
        let idx = choose|idx: int| 0 <= idx < out.len() && #[trigger] out[idx] == (path[j + 1], costs[j]);
        assert(edge_relaxed(s, graph, path[j], idx));
        assert(costs.subrange(0, j + 1).drop_last() =~= costs.subrange(0, j));
        lemma_open_on_walk(s, graph, heuristic, start, goal, path, costs, j + 1)
    }
}

/// When the first entry of the frontier is the goal's, no walk from the
/// start to the goal costs less than the entry.
pub proof fn lemma_goal_is_cheapest<G: Graph, H: Heuristic<G::Node>>(
    s: SearchState<G::Node>,
    graph: &G,
    heuristic: &H,
    start: G::Node,
    goal: G::Node,
    e: Entry<G::Node>,
)
    requires
        s.inv(start, edge_link(graph)),
        settled(s, graph, heuristic, goal, None, 0),
        is_first(s.frontier, e),
        e.node.key_of() == goal.key_of(),
        never_overestimates(graph, heuristic, goal),
    ensures
        no_cheaper_walk(graph, start, goal, e.g),
{
    G::Node::key_is_injective(e.node, goal);
    let alone: Seq<G::Node> = seq![goal];
    let nothing: Seq<Cost> = Seq::empty();
    assert(is_walk(graph, alone, nothing));
    assert(alone.last() == goal && alone[0] == goal);
    assert(total_cost(nothing) == 0);
    assert(heuristic.estimate_of(goal, goal) == 0);
    assert(entry_settled(s, heuristic, goal, e));
    assert(e.f == e.g);
    assert forall|path: Seq<G::Node>, costs: Seq<Cost>| #[trigger]
        walks_between(graph, path, costs, start, goal) implies e.g <= total_cost(costs) by {
        assert(costs.subrange(0, 0) =~= Seq::<Cost>::empty());
        let i = lemma_open_on_walk(s, graph, heuristic, start, goal, path, costs, 0);
        let w = s.live[path[i].key_of()];
        assert(entry_before(e, w));
        assert(entry_settled(s, heuristic, goal, w));
        let rest = path.subrange(i, path.len() as int);
        let rest_costs = costs.subrange(i, costs.len() as int);
        let link = edge_link(graph);
        assert forall|k: int| 0 <= k < rest_costs.len() implies #[trigger] link(
            rest[k],
            rest[k + 1],
            rest_costs[k],
        ) by {
            assert(link(path[i + k], path[i + k + 1], costs[i + k]));
        }
        assert(is_walk(graph, rest, rest_costs));
        assert(rest.last() == goal && rest[0] == path[i]);
        assert(heuristic.estimate_of(path[i], goal) <= total_cost(rest_costs));
        lemma_total_cost_add(costs.subrange(0, i), rest_costs);
        assert(costs.subrange(0, i) + rest_costs =~= costs);
    }
}

/// Relaxing the first `n` edges of the node being expanded keeps both invariants.
pub proof fn lemma_relaxed_edges<G: Graph, H: Heuristic<G::Node>>(
    s: SearchState<G::Node>,
    graph: &G,
    heuristic: &H,
    goal: G::Node,
    mode: TieBreaking,
    x: G::Node,
    n: nat,
    start: G::Node,
)
    requires
        s.inv(start, edge_link(graph)),
        settled(s, graph, heuristic, goal, Some(x), 0),
        s.has_room_to_grow(),
        n <= graph.edges(x).len() <= usize::MAX,
    ensures
        ({
            let t = relaxed_edges(s, heuristic, goal, mode, x, s.best[x.key_of()], graph.edges(x), n);
            &&& t.inv(start, edge_link(graph))
            &&& settled(t, graph, heuristic, goal, Some(x), n as int)
            &&& t.best.contains_key(x.key_of())
            &&& t.best[x.key_of()] == s.best[x.key_of()]
            &&& t.next_seq <= s.next_seq + n
            &&& t.iterations == s.iterations
            &&& t.expanded == s.expanded
        }),
    decreases n,
{
    if n > 0 {
        lemma_relaxed_edges(s, graph, heuristic, goal, mode, x, (n - 1) as nat, start);
        let before = relaxed_edges(s, heuristic, goal, mode, x, s.best[x.key_of()], graph.edges(x), (n - 1) as nat);
        assert(s.expanded * usize::MAX <= usize::MAX * usize::MAX) by (nonlinear_arith)
            requires
                s.expanded <= usize::MAX,
        ;
        assert((s.expanded - 1) * usize::MAX + usize::MAX == s.expanded * usize::MAX) by (nonlinear_arith);
        assert(usize::MAX * usize::MAX <= 0xffff_ffff_ffff_ffff * 0xffff_ffff_ffff_ffff) by (nonlinear_arith)
            requires
                usize::MAX <= 0xffff_ffff_ffff_ffff,
        ;
        lemma_relaxed_settled(before, graph, heuristic, goal, mode, x, n - 1, start);
    }
}

/// What the run of A* from a settled state ends in: a path that no walk
/// undercuts, or the proof that no walk exists.
pub proof fn lemma_run<G: Graph, H: Heuristic<G::Node>>(
    s: SearchState<G::Node>,
    graph: &G,
    heuristic: &H,
    start: G::Node,
    goal: G::Node,
    limit: usize,
    mode: TieBreaking,
)
    requires
        s.inv(start, edge_link(graph)),
        settled(s, graph, heuristic, goal, None, 0),
        s.has_room(),
        lists_edges(graph),
    ensures
        ({
            let o = search_run(s, goal, limit, astar_grow(graph, heuristic, goal, mode));
            &&& o.status == PathStatus::Found ==> {
                &&& is_route(o.path, start, o.cost, edge_link(graph))
                &&& o.path.last() == goal
                &&& never_overestimates(graph, heuristic, goal) ==> no_cheaper_walk(graph, start, goal, o.cost)
            }
            &&& o.status == PathStatus::NotFound ==> !reachable(graph, start, goal)
            &&& o.status != PathStatus::PartialTimeout
        }),
    decreases limit - s.iterations,
{
    let link = edge_link(graph);
    let grow = astar_grow(graph, heuristic, goal, mode);
    if s.frontier.len() == 0 {
        assert forall|path: Seq<G::Node>, costs: Seq<Cost>| #[trigger]
            walks_between(graph, path, costs, start, goal) implies false by {
            assert(costs.subrange(0, 0) =~= Seq::<Cost>::empty());
            let i = lemma_open_on_walk(s, graph, heuristic, start, goal, path, costs, 0);
            assert(s.frontier.count(s.live[path[i].key_of()]) <= s.frontier.len());
        }
    } else {
        lemma_has_first(s.frontier);
        let e = first_entry(s.frontier);
        assert(is_first(s.frontier, e));
        let t = s.without(e);
        s.lemma_without(start, link, e);
        if s.iterations >= limit {
        } else {
            t.lemma_counted(start, link);
            let u = t.counted();
            if e.node.key_of() == goal.key_of() {
                G::Node::key_is_injective(e.node, goal);
                u.lemma_chain(start, link, goal);
                assert(is_linked_path(u.chain(goal), u.chain_costs(goal), link));
                if never_overestimates(graph, heuristic, goal) {
                    lemma_goal_is_cheapest(s, graph, heuristic, start, goal, e);
                }
            } else {
                lemma_taken_settled(s, graph, heuristic, goal, e, start);
                if u.best[e.node.key_of()] < e.g {
                    lemma_run(u, graph, heuristic, start, goal, limit, mode);
                } else {
                    let v0 = u.opened();
                    let out = graph.edges(e.node);
                    assert(out.len() <= usize::MAX);
                    lemma_relaxed_edges(v0, graph, heuristic, goal, mode, e.node, out.len(), start);
                    let v = relaxed_edges(v0, heuristic, goal, mode, e.node, e.g, out, out.len());
                    assert(v == grow(v0, e));
                    lemma_expanded_settled(v, graph, heuristic, goal, e.node);
                    assert((v0.expanded - 1) * usize::MAX + usize::MAX == v0.expanded * usize::MAX)
                        by (nonlinear_arith);
                    lemma_run(v, graph, heuristic, start, goal, limit, mode);
                }
            }
        }
    }
}

/// Whatever the heuristic, A* decides whether the goal can be reached: a
/// path it finds leads from the start to the goal along edges of the graph,
/// and where it reports `NotFound` between two passable nodes no walk leads
/// from the one to the other. So unless the iteration limit stops the
/// search, it finds a path exactly when there is one.
pub proof fn lemma_astar_decides_reachability<G: Graph, H: Heuristic<G::Node>>(
    graph: &G,
    heuristic: &H,
    start: G::Node,
    goal: G::Node,
    config: AStarConfig,
)
    requires
        lists_edges(graph),
    ensures
        ({
            let o = astar_outcome(graph, heuristic, start, goal, config);
            &&& o.status != PathStatus::PartialTimeout
            &&& o.status == PathStatus::Found ==> {
                &&& is_route(o.path, start, o.cost, edge_link(graph))
                &&& o.path.last() == goal
                &&& reachable(graph, start, goal)
            }
            &&& o.status == PathStatus::NotFound && graph.passable(start) && graph.passable(goal) ==> !reachable(
                graph,
                start,
                goal,
            )
        }),
{
    let o = astar_outcome(graph, heuristic, start, goal, config);
    if graph.passable(start) && graph.passable(goal) {
        let h = heuristic.estimate_of(start, goal);
        lemma_initial(start, h, edge_link(graph));
        lemma_initial_settled(graph, heuristic, start, goal);
        assert(1 + 0 * usize::MAX == 1) by (nonlinear_arith);
        lemma_run(
            SearchState::initial(start, h),
            graph,
            heuristic,
            start,
            goal,
            iteration_limit(config),
            config.tie_breaking,
        );
        if o.status == PathStatus::Found {
            let costs = choose|costs: Seq<Cost>| #[trigger]
                is_linked_path(o.path, costs, edge_link(graph)) && o.path[0] == start && (o.cost < COST_INFINITY
                    ==> total_cost(costs) <= o.cost);
            assert(walks_between(graph, o.path, costs, start, goal));
        }
    }
}

/// With a heuristic that never overestimates, the path that A* finds is a
/// cheapest one: it leads from the start to the goal along edges of the
/// graph, and no walk between the two costs less than the cost reported.
/// A search that ends with `NotFound` between two passable nodes proves
/// that no walk leads from the one to the other.
pub proof fn lemma_astar_finds_cheapest<G: Graph, H: Heuristic<G::Node>>(
    graph: &G,
    heuristic: &H,
    start: G::Node,
    goal: G::Node,
    config: AStarConfig,
)
    requires
        never_overestimates(graph, heuristic, goal),
        lists_edges(graph),
    ensures
        ({
            let o = astar_outcome(graph, heuristic, start, goal, config);
            &&& o.status == PathStatus::Found ==> {
                &&& is_route(o.path, start, o.cost, edge_link(graph))
                &&& o.path.last() == goal
                &&& no_cheaper_walk(graph, start, goal, o.cost)
            }
            &&& o.status == PathStatus::NotFound && graph.passable(start) && graph.passable(goal) ==> !reachable(
                graph,
                start,
                goal,
            )
        }),
{
    if graph.passable(start) && graph.passable(goal) {
        let h = heuristic.estimate_of(start, goal);
        lemma_initial(start, h, edge_link(graph));
        lemma_initial_settled(graph, heuristic, start, goal);
        assert(1 + 0 * usize::MAX == 1) by (nonlinear_arith);
        lemma_run(
            SearchState::initial(start, h),
            graph,
            heuristic,
            start,
            goal,
            iteration_limit(config),
            config.tie_breaking,
        );
    }
}

/// With a heuristic that never overestimates, the cost that A* reports for
/// a path it found is the sum of the costs of the path's own steps, unless
/// the cost reported is `COST_INFINITY`.
pub proof fn lemma_astar_cost_is_path_cost<G: Graph, H: Heuristic<G::Node>>(
    graph: &G,
    heuristic: &H,
    start: G::Node,
    goal: G::Node,
    config: AStarConfig,
)
    requires
        never_overestimates(graph, heuristic, goal),
        lists_edges(graph),
        astar_outcome(graph, heuristic, start, goal, config).status == PathStatus::Found,
        astar_outcome(graph, heuristic, start, goal, config).cost < COST_INFINITY,
    ensures
        exists|costs: Seq<Cost>| #[trigger]
            is_walk(graph, astar_outcome(graph, heuristic, start, goal, config).path, costs) && total_cost(costs)
                == astar_outcome(graph, heuristic, start, goal, config).cost,
{
    let o = astar_outcome(graph, heuristic, start, goal, config);
    lemma_astar_finds_cheapest(graph, heuristic, start, goal, config);
    let costs = choose|costs: Seq<Cost>| #[trigger]
        is_linked_path(o.path, costs, edge_link(graph)) && o.path[0] == start && (o.cost < COST_INFINITY
            ==> total_cost(costs) <= o.cost);
    assert(walks_between(graph, o.path, costs, start, goal));
    assert(is_walk(graph, o.path, costs));
}

/// A heuristic that is zero everywhere never overestimates.
pub proof fn lemma_zero_never_overestimates<G: Graph>(graph: &G, goal: G::Node)
    ensures
        never_overestimates(graph, &Zero, goal),
{
}

/// Two runs of A* on the same inputs give the same path, cost, count of
/// expanded nodes and status, unless a time limit cut one of them short.
pub proof fn lemma_astar_is_deterministic<G: Graph, H: Heuristic<G::Node>>(
    graph: &G,
    heuristic: &H,
    start: G::Node,
    goal: G::Node,
    config: AStarConfig,
    first: PathResult<G::Node>,
    second: PathResult<G::Node>,
)
    requires
        answers(graph, heuristic, start, goal, config, first),
        answers(graph, heuristic, start, goal, config, second),
        first.status != PathStatus::PartialTimeout,
        second.status != PathStatus::PartialTimeout,
    ensures
        first@ == second@,
        first.path@ == second.path@,
        first.cost == second.cost,
{
}

/// Two walks that meet end to start make one walk.
pub proof fn lemma_walks_join<G: Graph>(
    graph: &G,
    a: Seq<G::Node>,
    ca: Seq<Cost>,
    b: Seq<G::Node>,
    cb: Seq<Cost>,
)
    requires
        is_walk(graph, a, ca),
        is_walk(graph, b, cb),
        a.last() == b[0],
    ensures
        is_walk(graph, a + b.drop_first(), ca + cb),
        (a + b.drop_first())[0] == a[0],
        (a + b.drop_first()).last() == b.last(),
{
    let link = edge_link(graph);
    let path = a + b.drop_first();
    let costs = ca + cb;
    assert forall|i: int| 0 <= i < costs.len() implies #[trigger] link(path[i], path[i + 1], costs[i]) by {
        if i < ca.len() {
            assert(link(a[i], a[i + 1], ca[i]));
        } else {
            let k = i - ca.len();
            assert(link(b[k], b[k + 1], cb[k]));
        }
    }
}

} // verus!
