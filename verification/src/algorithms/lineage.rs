//! Whatever the heuristic, as long as its estimates are bounded, the cost
//! that A* reports for a path it found is the sum of the costs of the path's
//! own steps.
//!
//! The proof follows every entry of the frontier back through the entries
//! whose expansions led to it. Of two entries that wait on the frontier, one
//! is priced no lower than any ancestor that only the other has: the
//! ancestor left the frontier while an ancestor of the first, or the first
//! itself, was waiting. So when the goal leaves the frontier, no node on its
//! chain of predecessors can be waiting at a cost lower than the one its
//! successor was reached from.

use vstd::prelude::*;
use vstd::multiset::Multiset;
use crate::algorithms::astar::{
    astar_grow, astar_outcome, is_walked_at, iteration_limit, relaxed_edges, tie_rank, AStarConfig, TieBreaking,
};
use crate::algorithms::guarantees::{
    edge_relaxed, entry_settled, is_closed, is_open, lemma_expanded_settled, lemma_has_first,
    lemma_initial_settled, lemma_relaxed_edges, lemma_taken_settled, lists_edges, settled,
};
use crate::algorithms::search::{
    entry_before, first_entry, is_first, lemma_initial, search_run, Entry, SearchState,
};
use crate::cost::{cost_sum, Cost, COST_INFINITY};
use crate::traits::{edge_link, is_walk, total_cost, Graph, Heuristic, Keyed, PathStatus};

verus! {

broadcast use vstd::multiset::group_multiset_axioms;

/// How the entries of a search came about: for every entry ever put on the
/// frontier, the entries whose expansions led to it, and the last of them.
#[verifier::reject_recursive_types(N)]
pub ghost struct Lineage<N> {
    pub anc: Map<Entry<N>, Set<Entry<N>>>,
    pub maker: Map<Entry<N>, Entry<N>>,
}

/// Whether no estimate of `heuristic` towards `goal` exceeds `bound`.
pub open spec fn estimates_at_most<N, H: Heuristic<N>>(heuristic: &H, goal: N, bound: Cost) -> bool {
    forall|n: N| #[trigger] heuristic.estimate_of(n, goal) <= bound
}

/// Whether the estimates of `heuristic` towards `goal` are bounded so that
/// no priority of an entry at a cost of up to `cost` saturates.
pub open spec fn prices_fit<N, H: Heuristic<N>>(heuristic: &H, goal: N, cost: Cost) -> bool {
    exists|bound: Cost| #[trigger] estimates_at_most(heuristic, goal, bound) && cost + bound < COST_INFINITY
}

/// Whether `path` walks along edges of `graph` at the step costs `costs`,
/// each step along the cheapest of the edges between its two nodes.
pub open spec fn is_least_walk<G: Graph>(graph: &G, path: Seq<G::Node>, costs: Seq<Cost>) -> bool {
    &&& is_walk(graph, path, costs)
    &&& forall|i: int, c: Cost|
        0 <= i < costs.len() && #[trigger] graph.edges(path[i]).contains((path[i + 1], c)) ==> costs[i] <= c
}

/// Whether `path` walks along the cheapest edges between its nodes, and these cost `cost` in all.
pub open spec fn is_cheaply_walked_at<G: Graph>(graph: &G, path: Seq<G::Node>, cost: Cost) -> bool {
    exists|costs: Seq<Cost>| #[trigger] is_least_walk(graph, path, costs) && total_cost(costs) == cost
}

/// What holds of an entry that was once put on the frontier.
pub open spec fn born_ok<N: Keyed, H: Heuristic<N>>(s: SearchState<N>, heuristic: &H, goal: N, x: Entry<N>) -> bool {
    let k = x.node.key_of();
    &&& x.seq < s.next_seq
    &&& s.best.contains_key(k)
    &&& s.best[k] <= x.g
    &&& x.g == s.best[k] ==> x == s.live[k]
    &&& x.f == cost_sum(x.g, heuristic.estimate_of(x.node, goal))
}

/// What holds of an entry `y` that led to the entry `x`.
pub open spec fn anc_ok<N: Keyed>(s: SearchState<N>, l: Lineage<N>, x: Entry<N>, y: Entry<N>) -> bool {
    &&& l.anc.contains_key(y)
    &&& y.g <= x.g
    &&& l.anc[y].subset_of(l.anc[x])
    &&& s.frontier.count(y) == 0
}

/// What holds of the live entry of a discovered node.
pub open spec fn live_ok<N: Keyed>(s: SearchState<N>, l: Lineage<N>, n: N) -> bool {
    let e = s.live[n.key_of()];
    l.anc.contains_key(e) && e.node == n && e.g == s.best[n.key_of()]
}

/// What holds of the entry whose expansion gave a node its best cost.
pub open spec fn made_ok<N: Keyed>(s: SearchState<N>, l: Lineage<N>, n: N) -> bool {
    let k = n.key_of();
    let e = s.live[k];
    let m = l.maker[e];
    l.anc[e].contains(m) && m.node == s.parent[k] && cost_sum(m.g, s.step[k]) == s.best[k]
}

/// An ancestor `y` of `c` alone is priced no higher than `a` or than `c`.
pub open spec fn pair_ok<N>(l: Lineage<N>, a: Entry<N>, c: Entry<N>, y: Entry<N>) -> bool {
    l.anc[c].contains(y) && !l.anc[a].contains(y) ==> y.f <= a.f || y.f <= c.f
}

/// The invariant that ties a search to the lineage of its entries.
pub open spec fn traced<N: Keyed, H: Heuristic<N>>(s: SearchState<N>, l: Lineage<N>, heuristic: &H, goal: N) -> bool {
    &&& forall|e: Entry<N>| #[trigger] s.frontier.count(e) > 0 ==> l.anc.contains_key(e)
    &&& forall|n: N| #[trigger] s.best.contains_key(n.key_of()) ==> live_ok(s, l, n)
    &&& forall|x: Entry<N>| #[trigger] l.anc.contains_key(x) ==> born_ok(s, heuristic, goal, x)
    &&& forall|x: Entry<N>, y: Entry<N>| l.anc.contains_key(x) && #[trigger] l.anc[x].contains(y) ==> anc_ok(s, l, x, y)
    &&& forall|n: N| #[trigger] s.parent.contains_key(n.key_of()) ==> made_ok(s, l, n)
    &&& forall|a: Entry<N>, c: Entry<N>, y: Entry<N>|
        s.frontier.count(a) > 0 && s.frontier.count(c) > 0 ==> #[trigger] pair_ok(l, a, c, y)
}

/// An entry `y` that led to one of `e` and `c` only is priced no higher than `c`.
pub open spec fn apart<N>(l: Lineage<N>, e: Entry<N>, c: Entry<N>, y: Entry<N>) -> bool {
    l.anc[c].contains(y) != l.anc[e].contains(y) ==> y.f <= c.f
}

/// How an entry `c` on the frontier stands to the entry `e` under
/// expansion: it was put there by this expansion, or it was waiting when
/// `e` left.
pub open spec fn beside<N>(l: Lineage<N>, e: Entry<N>, c: Entry<N>) -> bool {
    ||| l.anc[c] == l.anc[e].insert(e)
    ||| {
        &&& e.f <= c.f
        &&& !l.anc[c].contains(e)
        &&& forall|y: Entry<N>| #[trigger] apart(l, e, c, y)
    }
}

/// What holds while the node of the entry `e` is expanded.
pub open spec fn expanding<N: Keyed>(s: SearchState<N>, l: Lineage<N>, e: Entry<N>) -> bool {
    &&& l.anc.contains_key(e)
    &&& s.frontier.count(e) == 0
    &&& s.best.contains_key(e.node.key_of())
    &&& e.g == s.best[e.node.key_of()]
    &&& forall|c: Entry<N>| #[trigger] s.frontier.count(c) > 0 ==> beside(l, e, c)
}

/// The lineage after the expansion of `e` has relaxed the edge to `to` at cost `c`.
pub open spec fn grown_by<N: Keyed>(
    l: Lineage<N>,
    s: SearchState<N>,
    e: Entry<N>,
    to: N,
    c: Cost,
    h: Cost,
    mode: TieBreaking,
) -> Lineage<N> {
    let g = cost_sum(e.g, c);
    if s.improves(to, g) {
        let x = Entry { f: cost_sum(g, h), tie: tie_rank(mode, g), seq: s.next_seq, g, node: to };
        Lineage { anc: l.anc.insert(x, l.anc[e].insert(e)), maker: l.maker.insert(x, e) }
    } else {
        l
    }
}

/// The lineage after the expansion of `e` has relaxed the first `n` of `edges`.
pub open spec fn lineage_after<N: Keyed, H: Heuristic<N>>(
    l: Lineage<N>,
    s: SearchState<N>,
    heuristic: &H,
    goal: N,
    mode: TieBreaking,
    e: Entry<N>,
    edges: Seq<(N, Cost)>,
    n: nat,
) -> Lineage<N>
    decreases n,
{
    if n == 0 {
        l
    } else {
        let before = relaxed_edges(s, heuristic, goal, mode, e.node, e.g, edges, (n - 1) as nat);
        let lb = lineage_after(l, s, heuristic, goal, mode, e, edges, (n - 1) as nat);
        grown_by(lb, before, e, edges[n - 1].0, edges[n - 1].1, heuristic.estimate_of(edges[n - 1].0, goal), mode)
    }
}

/// The lineage of a search that has only seen its start.
pub open spec fn first_lineage<N>(start: N, h: Cost) -> Lineage<N> {
    Lineage {
        anc: Map::empty().insert(Entry { f: h, tie: 0, seq: 0, g: 0, node: start }, Set::empty()),
        maker: Map::empty(),
    }
}

/// The search that has only seen its start is tied to its lineage.
pub proof fn lemma_initial_traced<N: Keyed, H: Heuristic<N>>(heuristic: &H, start: N, goal: N)
    ensures
        traced(
            SearchState::initial(start, heuristic.estimate_of(start, goal)),
            first_lineage(start, heuristic.estimate_of(start, goal)),
            heuristic,
            goal,
        ),
{
    let h = heuristic.estimate_of(start, goal);
    let s = SearchState::initial(start, h);
    let l = first_lineage(start, h);
    let first = Entry { f: h, tie: 0, seq: 0, g: 0, node: start };
    assert forall|e: Entry<N>| #[trigger] s.frontier.count(e) > 0 implies l.anc.contains_key(e) by {
        if e != first {
            assert(Multiset::<Entry<N>>::empty().insert(first).count(e) == 0);
        }
    }
    assert forall|n: N| #[trigger] s.best.contains_key(n.key_of()) implies live_ok(s, l, n) by {
        N::key_is_injective(n, start);
    }
    assert forall|x: Entry<N>| #[trigger] l.anc.contains_key(x) implies born_ok(s, heuristic, goal, x) by {
        assert(x == first);
    }
    assert forall|a: Entry<N>, c: Entry<N>, y: Entry<N>|
        s.frontier.count(a) > 0 && s.frontier.count(c) > 0 implies #[trigger] pair_ok(l, a, c, y) by {
        if c != first {
            assert(Multiset::<Entry<N>>::empty().insert(first).count(c) == 0);
        }
    }
}

/// Relaxing one edge of the node under expansion keeps the search tied to its lineage.
pub proof fn lemma_relaxed_traced<N: Keyed, H: Heuristic<N>>(
    s: SearchState<N>,
    l: Lineage<N>,
    heuristic: &H,
    goal: N,
    e: Entry<N>,
    to: N,
    c: Cost,
    mode: TieBreaking,
    start: N,
    link: spec_fn(N, N, Cost) -> bool,
)
    requires
        s.inv(start, link),
        traced(s, l, heuristic, goal),
        expanding(s, l, e),
        s.next_seq < u128::MAX,
        link(e.node, to, c),
    ensures
        ({
            let h = heuristic.estimate_of(to, goal);
            let t = s.relaxed(to, e.node, cost_sum(e.g, c), c, h, mode);
            let l2 = grown_by(l, s, e, to, c, h, mode);
            traced(t, l2, heuristic, goal) && expanding(t, l2, e)
        }),
{
    let h = heuristic.estimate_of(to, goal);
    let g = cost_sum(e.g, c);
    let via = e.node;
    let t = s.relaxed(to, via, g, c, h, mode);
    let l2 = grown_by(l, s, e, to, c, h, mode);
    let k = to.key_of();
    s.lemma_relaxed(to, via, g, c, h, mode, start, link);
    if s.improves(to, g) {
        let x = Entry { f: cost_sum(g, h), tie: tie_rank(mode, g), seq: s.next_seq, g, node: to };
        assert(born_ok(s, heuristic, goal, e));
        assert(e != x);
        assert(!l.anc.contains_key(x)) by {
            if l.anc.contains_key(x) {
                assert(born_ok(s, heuristic, goal, x));
            }
        }
        assert(l2.anc[x] == l.anc[e].insert(e));
        assert forall|o: Entry<N>| o != x implies l2.anc[o] == l.anc[o] && (l2.anc.contains_key(o)
            <==> l.anc.contains_key(o)) && l2.maker[o] == l.maker[o] && t.frontier.count(o) == s.frontier.count(
            o,
        ) by {}
        assert forall|o: Entry<N>| #[trigger] t.frontier.count(o) > 0 implies l2.anc.contains_key(o) by {
            if o != x {
                assert(s.frontier.count(o) > 0);
            }
        }
        assert forall|n: N| #[trigger] t.best.contains_key(n.key_of()) implies live_ok(t, l2, n) by {
            if n.key_of() == k {
                N::key_is_injective(n, to);
            } else {
                assert(s.best.contains_key(n.key_of()));
                assert(live_ok(s, l, n));
            }
        }
        assert forall|o: Entry<N>| #[trigger] l2.anc.contains_key(o) implies born_ok(t, heuristic, goal, o) by {
            if o != x {
                assert(l.anc.contains_key(o));
                assert(born_ok(s, heuristic, goal, o));
            }
        }
        assert forall|o: Entry<N>, y: Entry<N>| l2.anc.contains_key(o) && #[trigger] l2.anc[o].contains(
            y,
        ) implies anc_ok(t, l2, o, y) by {
            if o == x {
                if y == e {
                    assert(l2.anc[e] == l.anc[e]);
                } else {
                    assert(l.anc[e].contains(y));
                    assert(anc_ok(s, l, e, y));
                    assert(born_ok(s, heuristic, goal, y));
                    assert(y != x);
                    assert(l2.anc[y] == l.anc[y]);
                }
            } else {
                assert(l.anc[o].contains(y));
                assert(anc_ok(s, l, o, y));
                assert(born_ok(s, heuristic, goal, y));
                assert(y != x);
                assert(l2.anc[y] == l.anc[y]);
            }
        }
        assert forall|n: N| #[trigger] t.parent.contains_key(n.key_of()) implies made_ok(t, l2, n) by {
            if n.key_of() == k {
                N::key_is_injective(n, to);
                assert(l2.maker[x] == e);
            } else {
                assert(s.parent.contains_key(n.key_of()));
                assert(s.linked(n, link));
                assert(made_ok(s, l, n));
                assert(live_ok(s, l, n));
                let le = s.live[n.key_of()];
                assert(born_ok(s, heuristic, goal, le));
                assert(le != x);
            }
        }
        assert forall|a: Entry<N>, b: Entry<N>, y: Entry<N>|
            t.frontier.count(a) > 0 && t.frontier.count(b) > 0 implies #[trigger] pair_ok(l2, a, b, y) by {
            if l2.anc[b].contains(y) && !l2.anc[a].contains(y) {
                if a == x {
                    if b != x {
                        assert(s.frontier.count(b) > 0);
                        assert(beside(l, e, b));
                        assert(l2.anc[b] == l.anc[b]);
                        assert(apart(l, e, b, y));
                    }
                } else if b == x {
                    assert(s.frontier.count(a) > 0);
                    assert(beside(l, e, a));
                    assert(l2.anc[a] == l.anc[a]);
                    if y != e {
                        assert(apart(l, e, a, y));
                    }
                } else {
                    assert(s.frontier.count(a) > 0);
                    assert(s.frontier.count(b) > 0);
                    assert(pair_ok(l, a, b, y));
                }
            }
        }
        assert forall|b: Entry<N>| #[trigger] t.frontier.count(b) > 0 implies beside(l2, e, b) by {
            if b != x {
                assert(s.frontier.count(b) > 0);
                assert(beside(l, e, b));
                assert(l2.anc[b] == l.anc[b]);
                assert(l2.anc[e] == l.anc[e]);
                if l.anc[b] != l.anc[e].insert(e) {
                    assert forall|y: Entry<N>| #[trigger] apart(l2, e, b, y) by {
                        assert(apart(l, e, b, y));
                    }
                }
            }
        }
    }
}

/// Relaxing the first `n` edges of the node under expansion keeps the search tied to its lineage.
pub proof fn lemma_relaxed_edges_traced<G: Graph, H: Heuristic<G::Node>>(
    s: SearchState<G::Node>,
    l: Lineage<G::Node>,
    graph: &G,
    heuristic: &H,
    goal: G::Node,
    mode: TieBreaking,
    e: Entry<G::Node>,
    n: nat,
    start: G::Node,
)
    requires
        s.inv(start, edge_link(graph)),
        settled(s, graph, heuristic, goal, Some(e.node), 0),
        traced(s, l, heuristic, goal),
        expanding(s, l, e),
        s.has_room_to_grow(),
        n <= graph.edges(e.node).len() <= usize::MAX,
    ensures
        ({
            let t = relaxed_edges(s, heuristic, goal, mode, e.node, e.g, graph.edges(e.node), n);
            let l2 = lineage_after(l, s, heuristic, goal, mode, e, graph.edges(e.node), n);
            traced(t, l2, heuristic, goal) && expanding(t, l2, e)
        }),
    decreases n,
{
    if n > 0 {
        let x = e.node;
        let m = (n - 1) as nat;
        lemma_relaxed_edges_traced(s, l, graph, heuristic, goal, mode, e, m, start);
        lemma_relaxed_edges(s, graph, heuristic, goal, mode, x, m, start);
        let before = relaxed_edges(s, heuristic, goal, mode, x, e.g, graph.edges(x), m);
        let lb = lineage_after(l, s, heuristic, goal, mode, e, graph.edges(x), m);
        assert(s.expanded * usize::MAX <= usize::MAX * usize::MAX) by (nonlinear_arith)
            requires
                s.expanded <= usize::MAX,
        ;
        assert((s.expanded - 1) * usize::MAX + usize::MAX == s.expanded * usize::MAX) by (nonlinear_arith);
        assert(usize::MAX * usize::MAX <= 0xffff_ffff_ffff_ffff * 0xffff_ffff_ffff_ffff) by (nonlinear_arith)
            requires
                usize::MAX <= 0xffff_ffff_ffff_ffff,
        ;
        let to = graph.edges(x)[n - 1].0;
        let c = graph.edges(x)[n - 1].1;
        assert(graph.edges(x).contains((to, c)));
        lemma_relaxed_traced(before, lb, heuristic, goal, e, to, c, mode, start, edge_link(graph));
    }
}

/// Taking the first entry off the frontier keeps the search tied to its
/// lineage, and sets the scene for the expansion of its node.
pub proof fn lemma_taken_traced<N: Keyed, H: Heuristic<N>>(
    s: SearchState<N>,
    l: Lineage<N>,
    heuristic: &H,
    goal: N,
    e: Entry<N>,
    start: N,
    link: spec_fn(N, N, Cost) -> bool,
)
    requires
        s.inv(start, link),
        traced(s, l, heuristic, goal),
        is_first(s.frontier, e),
    ensures
        traced(s.without(e).counted(), l, heuristic, goal),
        traced(s.without(e).counted().opened(), l, heuristic, goal),
        e.g == s.best[e.node.key_of()] ==> expanding(s.without(e).counted().opened(), l, e),
{
    let t = s.without(e).counted();
    let u = t.opened();
    assert(s.frontier.count(e) <= 1);
    assert forall|o: Entry<N>| #[trigger] t.frontier.count(o) > 0 implies s.frontier.count(o) > 0 by {}
    assert forall|n: N| #[trigger] t.best.contains_key(n.key_of()) implies live_ok(t, l, n) by {
        assert(live_ok(s, l, n));
    }
    assert forall|x: Entry<N>| #[trigger] l.anc.contains_key(x) implies born_ok(t, heuristic, goal, x) by {
        assert(born_ok(s, heuristic, goal, x));
    }
    assert forall|x: Entry<N>, y: Entry<N>| l.anc.contains_key(x) && #[trigger] l.anc[x].contains(y) implies anc_ok(
        t,
        l,
        x,
        y,
    ) by {
        assert(anc_ok(s, l, x, y));
    }
    assert forall|n: N| #[trigger] t.parent.contains_key(n.key_of()) implies made_ok(t, l, n) by {
        assert(made_ok(s, l, n));
    }
    assert forall|a: Entry<N>, c: Entry<N>, y: Entry<N>|
        t.frontier.count(a) > 0 && t.frontier.count(c) > 0 implies #[trigger] pair_ok(l, a, c, y) by {
        assert(s.frontier.count(a) > 0 && s.frontier.count(c) > 0);
        assert(pair_ok(l, a, c, y));
    }
    assert(traced(t, l, heuristic, goal));
    assert forall|n: N| #[trigger] u.best.contains_key(n.key_of()) implies live_ok(u, l, n) by {
        assert(live_ok(t, l, n));
    }
    assert forall|x: Entry<N>| #[trigger] l.anc.contains_key(x) implies born_ok(u, heuristic, goal, x) by {
        assert(born_ok(t, heuristic, goal, x));
    }
    assert forall|x: Entry<N>, y: Entry<N>| l.anc.contains_key(x) && #[trigger] l.anc[x].contains(y) implies anc_ok(
        u,
        l,
        x,
        y,
    ) by {
        assert(anc_ok(t, l, x, y));
    }
    assert forall|n: N| #[trigger] u.parent.contains_key(n.key_of()) implies made_ok(u, l, n) by {
        assert(made_ok(t, l, n));
    }
    assert forall|a: Entry<N>, c: Entry<N>, y: Entry<N>|
        u.frontier.count(a) > 0 && u.frontier.count(c) > 0 implies #[trigger] pair_ok(l, a, c, y) by {
        assert(pair_ok(l, a, c, y));
    }
    if e.g == s.best[e.node.key_of()] {
        assert forall|c: Entry<N>| #[trigger] u.frontier.count(c) > 0 implies beside(l, e, c) by {
            assert(s.frontier.count(c) > 0);
            assert(entry_before(e, c));
            if l.anc[c].contains(e) {
                assert(anc_ok(s, l, c, e));
            }
            assert forall|y: Entry<N>| #[trigger] apart(l, e, c, y) by {
                assert(pair_ok(l, e, c, y));
                assert(pair_ok(l, c, e, y));
            }
        }
    }
}

/// When `e` is about to leave the frontier, every node whose live entry is
/// `e` or led to `e` has a chain of predecessors whose steps cost its best
/// cost exactly.
pub proof fn lemma_cost_of_chain<G: Graph, H: Heuristic<G::Node>>(
    s: SearchState<G::Node>,
    l: Lineage<G::Node>,
    graph: &G,
    heuristic: &H,
    start: G::Node,
    goal: G::Node,
    e: Entry<G::Node>,
    bound: Cost,
    n: G::Node,
)
    requires
        s.inv(start, edge_link(graph)),
        settled(s, graph, heuristic, goal, None, 0),
        traced(s, l, heuristic, goal),
        is_first(s.frontier, e),
        estimates_at_most(heuristic, goal, bound),
        e.g + bound < COST_INFINITY,
        s.best.contains_key(n.key_of()),
        s.best[n.key_of()] <= e.g,
        s.live[n.key_of()] == e || l.anc[e].contains(s.live[n.key_of()]),
    ensures
        total_cost(s.chain_costs(n)) == s.best[n.key_of()],
        is_least_walk(graph, s.chain(n), s.chain_costs(n)),
    decreases s.best[n.key_of()], s.hops[n.key_of()],
{
    let link = edge_link(graph);
    let k = n.key_of();
    s.lemma_chain(start, link, n);
    assert(l.anc.contains_key(e));
    if s.parent.contains_key(k) {
        let p = s.parent[k];
        let kp = p.key_of();
        assert(s.linked(n, link));
        assert(made_ok(s, l, n));
        assert(live_ok(s, l, n));
        let le = s.live[k];
        let m = l.maker[le];
        if le != e {
            assert(anc_ok(s, l, e, le));
        }
        assert(l.anc[e].contains(m));
        assert(anc_ok(s, l, e, m));
        assert(born_ok(s, heuristic, goal, m));
        assert(m.g + s.step[k] == s.best[k]);
        if m.g == s.best[kp] {
            lemma_cost_of_chain(s, l, graph, heuristic, start, goal, e, bound, p);
            s.lemma_chain(start, link, p);
            let path = s.chain(n);
            let costs = s.chain_costs(n);
            assert(path == s.chain(p).push(n));
            assert(costs == s.chain_costs(p).push(s.step[k]));
            assert(costs.drop_last() =~= s.chain_costs(p));
            assert(!is_open(s, p));
            assert(is_closed(s, graph, p));
            assert forall|i: int, c: Cost|
                0 <= i < costs.len() && #[trigger] graph.edges(path[i]).contains((path[i + 1], c)) implies costs[i]
                <= c by {
                if i < costs.len() - 1 {
                    assert(path[i] == s.chain(p)[i] && path[i + 1] == s.chain(p)[i + 1]);
                    assert(costs[i] == s.chain_costs(p)[i]);
                } else {
                    assert(path[i] == p && path[i + 1] == n);
                    let j = choose|j: int| 0 <= j < graph.edges(p).len() && graph.edges(p)[j] == (n, c);
                    assert(edge_relaxed(s, graph, p, j));
                }
            }
        } else {
            assert(heuristic.estimate_of(p, goal) <= bound);
            if is_open(s, p) {
                let a = s.live[kp];
                assert(live_ok(s, l, p));
                assert(born_ok(s, heuristic, goal, a));
                if l.anc[a].contains(m) {
                    assert(anc_ok(s, l, a, m));
                }
                assert(pair_ok(l, a, e, m));
                assert(entry_before(e, a));
                assert(false);
            } else {
                assert(is_closed(s, graph, p));
                assert(graph.edges(p).contains((n, s.step[k])));
                let i = choose|i: int| 0 <= i < graph.edges(p).len() && graph.edges(p)[i] == (n, s.step[k]);
                assert(edge_relaxed(s, graph, p, i));
                assert(false);
            }
        }
    } else {
        assert(k == start.key_of());
        lemma_start_chain(s, start, n);
    }
}

/// The chain of the start has no steps.
proof fn lemma_start_chain<N: Keyed>(s: SearchState<N>, start: N, n: N)
    requires
        n.key_of() == start.key_of(),
        !s.parent.contains_key(n.key_of()),
        s.best[start.key_of()] == 0,
    ensures
        total_cost(s.chain_costs(n)) == s.best[n.key_of()],
{
    assert(s.chain_costs(n) =~= Seq::<Cost>::empty());
}

/// The chains of two states that agree on best costs and predecessors are the same.
proof fn lemma_chain_kept<N: Keyed>(s: SearchState<N>, u: SearchState<N>, n: N)
    requires
        u.best == s.best,
        u.parent == s.parent,
        u.hops == s.hops,
        u.step == s.step,
    ensures
        u.chain(n) == s.chain(n),
        u.chain_costs(n) == s.chain_costs(n),
    decreases s.best[n.key_of()], s.hops[n.key_of()],
{
    let k = n.key_of();
    if s.parent.contains_key(k) && s.rank_below(s.parent[k], n) {
        lemma_chain_kept(s, u, s.parent[k]);
    }
}

/// When an entry of the goal is the first on the frontier, it holds the
/// goal's best cost, and the steps of the goal's chain of predecessors cost
/// exactly that.
pub proof fn lemma_goal_cost<G: Graph, H: Heuristic<G::Node>>(
    s: SearchState<G::Node>,
    l: Lineage<G::Node>,
    graph: &G,
    heuristic: &H,
    start: G::Node,
    goal: G::Node,
    e: Entry<G::Node>,
    bound: Cost,
)
    requires
        s.inv(start, edge_link(graph)),
        settled(s, graph, heuristic, goal, None, 0),
        traced(s, l, heuristic, goal),
        is_first(s.frontier, e),
        e.node == goal,
        estimates_at_most(heuristic, goal, bound),
        e.g + bound < COST_INFINITY,
    ensures
        total_cost(s.chain_costs(goal)) == e.g,
        is_least_walk(graph, s.chain(goal), s.chain_costs(goal)),
{
    let k = goal.key_of();
    assert(s.best.contains_key(k));
    assert(is_open(s, goal));
    let a = s.live[k];
    assert(entry_settled(s, heuristic, goal, e));
    assert(entry_settled(s, heuristic, goal, a));
    assert(entry_before(e, a));
    assert(heuristic.estimate_of(goal, goal) <= bound);
    assert(e.g == s.best[k]);
    lemma_cost_of_chain(s, l, graph, heuristic, start, goal, e, bound, goal);
}

/// Whatever the heuristic, as long as its estimates stay below a bound, the
/// run of A* from a state tied to its lineage ends, where it finds a path
/// at a cost that the bound leaves room for, with the sum of the costs of
/// the path's steps as its cost.
pub proof fn lemma_run_traced<G: Graph, H: Heuristic<G::Node>>(
    s: SearchState<G::Node>,
    l: Lineage<G::Node>,
    graph: &G,
    heuristic: &H,
    start: G::Node,
    goal: G::Node,
    limit: usize,
    mode: TieBreaking,
    bound: Cost,
)
    requires
        s.inv(start, edge_link(graph)),
        settled(s, graph, heuristic, goal, None, 0),
        traced(s, l, heuristic, goal),
        s.has_room(),
        lists_edges(graph),
        estimates_at_most(heuristic, goal, bound),
    ensures
        ({
            let o = search_run(s, goal, limit, astar_grow(graph, heuristic, goal, mode));
            o.status == PathStatus::Found && o.cost + bound < COST_INFINITY ==> is_cheaply_walked_at(
                graph,
                o.path,
                o.cost,
            )
        }),
    decreases limit - s.iterations,
{
    let link = edge_link(graph);
    let grow = astar_grow(graph, heuristic, goal, mode);
    if s.frontier.len() > 0 {
        lemma_has_first(s.frontier);
        let e = first_entry(s.frontier);
        assert(is_first(s.frontier, e));
        let t = s.without(e);
        s.lemma_without(start, link, e);
        if s.iterations < limit {
            t.lemma_counted(start, link);
            let u = t.counted();
            if e.node.key_of() == goal.key_of() {
                G::Node::key_is_injective(e.node, goal);
                if e.g + bound < COST_INFINITY {
                    lemma_goal_cost(s, l, graph, heuristic, start, goal, e, bound);
                    lemma_chain_kept(s, u, goal);
                    assert(is_least_walk(graph, u.chain(goal), u.chain_costs(goal)));
                }
            } else {
                lemma_taken_settled(s, graph, heuristic, goal, e, start);
                lemma_taken_traced(s, l, heuristic, goal, e, start, link);
                if u.best[e.node.key_of()] < e.g {
                    lemma_run_traced(u, l, graph, heuristic, start, goal, limit, mode, bound);
                } else {
                    let v0 = u.opened();
                    let out = graph.edges(e.node);
                    assert(out.len() <= usize::MAX);
                    lemma_relaxed_edges(v0, graph, heuristic, goal, mode, e.node, out.len(), start);
                    lemma_relaxed_edges_traced(v0, l, graph, heuristic, goal, mode, e, out.len(), start);
                    let v = relaxed_edges(v0, heuristic, goal, mode, e.node, e.g, out, out.len());
                    let l2 = lineage_after(l, v0, heuristic, goal, mode, e, out, out.len());
                    assert(v == grow(v0, e));
                    lemma_expanded_settled(v, graph, heuristic, goal, e.node);
                    assert((v0.expanded - 1) * usize::MAX + usize::MAX == v0.expanded * usize::MAX)
                        by (nonlinear_arith);
                    lemma_run_traced(v, l2, graph, heuristic, start, goal, limit, mode, bound);
                }
            }
        }
    }
}

/// Whatever the heuristic, as long as its estimates stay below a bound that
/// leaves room for the cost reported, the cost that A* reports for a path
/// it found is the sum of the costs of the path's own steps, each step along
/// the cheapest of the edges between its two nodes.
pub proof fn lemma_astar_cost_is_cost_of_steps<G: Graph, H: Heuristic<G::Node>>(
    graph: &G,
    heuristic: &H,
    start: G::Node,
    goal: G::Node,
    config: AStarConfig,
)
    requires
        lists_edges(graph),
        astar_outcome(graph, heuristic, start, goal, config).status == PathStatus::Found,
        prices_fit(heuristic, goal, astar_outcome(graph, heuristic, start, goal, config).cost),
    ensures
        is_walked_at(
            graph,
            astar_outcome(graph, heuristic, start, goal, config).path,
            astar_outcome(graph, heuristic, start, goal, config).cost,
        ),
        is_cheaply_walked_at(
            graph,
            astar_outcome(graph, heuristic, start, goal, config).path,
            astar_outcome(graph, heuristic, start, goal, config).cost,
        ),
{
    let o = astar_outcome(graph, heuristic, start, goal, config);
    let bound = choose|bound: Cost| #[trigger]
        estimates_at_most(heuristic, goal, bound) && o.cost + bound < COST_INFINITY;
    if graph.passable(start) && graph.passable(goal) {
        let h = heuristic.estimate_of(start, goal);
        lemma_initial(start, h, edge_link(graph));
        lemma_initial_settled(graph, heuristic, start, goal);
        lemma_initial_traced(heuristic, start, goal);
        assert(1 + 0 * usize::MAX == 1) by (nonlinear_arith);
        lemma_run_traced(
            SearchState::initial(start, h),
            first_lineage(start, h),
            graph,
            heuristic,
            start,
            goal,
            iteration_limit(config),
            config.tie_breaking,
            bound,
        );
        let costs = choose|costs: Seq<Cost>| #[trigger]
            is_least_walk(graph, o.path, costs) && total_cost(costs) == o.cost;
        assert(is_walk(graph, o.path, costs));
    }
}

} // verus!
