//! What the cost of a refined path has to do with its steps on the base
//! grid. Where every stored edge costs what the steps of its path cost, and
//! the first of the edges stored from one node to another is a cheapest, the
//! cost that a query reports is the sum of the costs of the steps of the path
//! it returns. A hierarchy made by `HierarchicalGrid::new` on a grid whose
//! open cells all cost `COST_ONE` is of that kind.

use vstd::prelude::*;
use crate::algorithms::astar::{astar_outcome, is_walked_at};
use crate::algorithms::guarantees::{
    lemma_astar_decides_reachability, lemma_total_cost_add, lemma_walks_join, lists_edges,
};
use crate::algorithms::lineage::{
    estimates_at_most, is_least_walk, lemma_astar_cost_is_cost_of_steps, prices_fit,
};
use crate::algorithms::on_grids::{
    lemma_grid_estimates_are_bounded, lemma_grid_lists_edges, unit_costs, GRID_ESTIMATE_BOUND,
};
use crate::cost::{cost_scaled, Cost, COST_INFINITY, COST_ONE, COST_SQRT2};
use crate::graphs::grid2d::{is_step, lemma_edges_are_steps, step_edge, Grid2D, GridPos};
use crate::graphs::hierarchical::{
    border_open, cluster_index, cluster_records, edge_views, entrance_at, first_edge, is_entrance, members, pair_records,
    row_records, stored_from, EdgeView, RecordView, first_link, joins, lemma_route_joins, link_to, link_views, links_in, links_of,
    links_out, stored_out, usual_config, AbstractEdge, AbstractHeuristic, AbstractNodeId, AbstractSearchGraph,
    HierarchicalGrid, Link, LinkView,
};
use crate::heuristics::{Euclidean, Manhattan};
use crate::traits::{edge_link, is_walk, total_cost, Graph, Heuristic, PathStatus};

verus! {

/// Whether the cost `c` leaves room for the estimates between cells of a grid.
pub open spec fn fits(c: Cost) -> bool {
    c + GRID_ESTIMATE_BOUND < COST_INFINITY
}

/// Whether every link of `links` costs what the steps of its path cost,
/// unless that is close to `COST_INFINITY`, and links of one node cost the same.
pub open spec fn links_priced(grid: &Grid2D, links: Seq<Link>) -> bool {
    &&& forall|k: int|
        0 <= k < links.len() && fits((#[trigger] links[k]).cost) ==> is_walked_at(grid, links[k].path@, links[k].cost)
    &&& forall|k: int, m: int|
        0 <= k < links.len() && 0 <= m < links.len() && (#[trigger] links[k]).node == (#[trigger] links[m]).node
            ==> links[k].cost == links[m].cost
}

/// Whether the link `v` is the one that `link_to` gives for a node of `list`.
pub open spec fn link_found(
    grid: &Grid2D,
    nodes: Seq<GridPos>,
    list: Seq<AbstractNodeId>,
    end: GridPos,
    towards: bool,
    v: LinkView,
) -> bool {
    exists|i: int| 0 <= i < list.len() && #[trigger] link_to(grid, nodes, list[i], end, towards) == seq![v]
}

/// Every link between a cell and the nodes of a list is the link of one of those nodes.
pub proof fn lemma_links_of_found(
    grid: &Grid2D,
    nodes: Seq<GridPos>,
    list: Seq<AbstractNodeId>,
    end: GridPos,
    towards: bool,
    n: int,
    k: int,
)
    requires
        0 <= n <= list.len(),
        0 <= k < links_of(grid, nodes, list, end, towards, n).len(),
    ensures
        link_found(grid, nodes, list, end, towards, links_of(grid, nodes, list, end, towards, n)[k]),
    decreases n,
{
    let before = links_of(grid, nodes, list, end, towards, n - 1);
    let last = link_to(grid, nodes, list[n - 1], end, towards);
    if k < before.len() {
        lemma_links_of_found(grid, nodes, list, end, towards, n - 1, k);
    } else {
        assert(last =~= seq![last[0]]);
        assert(link_to(grid, nodes, list[n - 1], end, towards) == seq![last[0]]);
    }
}

/// The links between an open cell and the nodes of a list, as `link_to`
/// gives them, cost what the steps of their paths cost; those of one node
/// cost the same; and each joins the cell and its node.
pub proof fn lemma_links_are_priced(
    grid: &Grid2D,
    nodes: Seq<GridPos>,
    list: Seq<AbstractNodeId>,
    end: GridPos,
    towards: bool,
    links: Seq<Link>,
)
    requires
        link_views(links) == links_of(grid, nodes, list, end, towards, list.len() as int),
        !grid.blocked(end.x as int, end.y as int),
        forall|i: int|
            0 <= i < list.len() ==> (#[trigger] list[i]).0 < nodes.len() && !grid.blocked(
                nodes[list[i].0 as int].x as int,
                nodes[list[i].0 as int].y as int,
            ),
    ensures
        links_priced(grid, links),
        forall|k: int|
            0 <= k < links.len() ==> (#[trigger] links[k]).node.0 < nodes.len() && (if towards {
                joins(grid, links[k].path@, nodes[links[k].node.0 as int], end)
            } else {
                joins(grid, links[k].path@, end, nodes[links[k].node.0 as int])
            }),
{
    let all = links_of(grid, nodes, list, end, towards, list.len() as int);
    lemma_grid_lists_edges(grid);
    assert forall|k: int| 0 <= k < links.len() implies (#[trigger] links[k]).node.0 < nodes.len() && (if towards {
        joins(grid, links[k].path@, nodes[links[k].node.0 as int], end)
    } else {
        joins(grid, links[k].path@, end, nodes[links[k].node.0 as int])
    }) && (fits(links[k].cost) ==> is_walked_at(grid, links[k].path@, links[k].cost)) by {
        assert(link_views(links)[k] == links[k]@);
        lemma_links_of_found(grid, nodes, list, end, towards, list.len() as int, k);
        let v = links[k]@;
        let i = choose|i: int| 0 <= i < list.len() && #[trigger] link_to(grid, nodes, list[i], end, towards) == seq![v];
        let pos = nodes[list[i].0 as int];
        let from = if towards { pos } else { end };
        let to = if towards { end } else { pos };
        let o = astar_outcome(grid, &Euclidean, from, to, usual_config());
        assert(seq![v][0] == v);
        assert(o.status == PathStatus::Found && v.node == list[i] && v.cost == o.cost && v.path == o.path);
        lemma_astar_decides_reachability(grid, &Euclidean, from, to, usual_config());
        lemma_route_joins(grid, o.path, from, o.cost);
        if fits(v.cost) {
            lemma_grid_estimates_are_bounded(to);
            assert(prices_fit(&Euclidean, to, o.cost));
            lemma_astar_cost_is_cost_of_steps(grid, &Euclidean, from, to, usual_config());
        }
    }
    assert forall|k: int, m: int|
        0 <= k < links.len() && 0 <= m < links.len() && (#[trigger] links[k]).node == (#[trigger] links[m]).node
        implies links[k].cost == links[m].cost by {
        assert(link_views(links)[k] == links[k]@);
        assert(link_views(links)[m] == links[m]@);
        lemma_links_of_found(grid, nodes, list, end, towards, list.len() as int, k);
        lemma_links_of_found(grid, nodes, list, end, towards, list.len() as int, m);
        let v = links[k]@;
        let w = links[m]@;
        let i = choose|i: int| 0 <= i < list.len() && #[trigger] link_to(grid, nodes, list[i], end, towards) == seq![v];
        let j = choose|j: int| 0 <= j < list.len() && #[trigger] link_to(grid, nodes, list[j], end, towards) == seq![w];
        assert(seq![v][0] == v);
        assert(seq![w][0] == w);
    }
}

/// An edge among the first `n` links out of the virtual start belongs to one of those links.
pub proof fn lemma_links_out_has(links: Seq<Link>, n: nat, v: AbstractNodeId, c: Cost)
    requires
        n <= links.len(),
        links_out(links, n).contains((v, c)),
    ensures
        exists|k: int| 0 <= k < n && (#[trigger] links[k]).node == v && links[k].cost == c,
    decreases n,
{
    if n > 0 {
        let before = links_out(links, (n - 1) as nat);
        let i = choose|i: int| 0 <= i < links_out(links, n).len() && links_out(links, n)[i] == (v, c);
        if i < before.len() {
            assert(before[i] == (v, c));
            lemma_links_out_has(links, (n - 1) as nat, v, c);
        } else {
            assert(links[n - 1].node == v && links[n - 1].cost == c);
        }
    }
}

/// An edge among those that the first `n` links give `node` leads to the
/// virtual goal and belongs to one of those links.
pub proof fn lemma_links_in_has(
    links: Seq<Link>,
    node: AbstractNodeId,
    goal_id: AbstractNodeId,
    n: nat,
    v: AbstractNodeId,
    c: Cost,
)
    requires
        n <= links.len(),
        links_in(links, node, goal_id, n).contains((v, c)),
    ensures
        v == goal_id,
        exists|k: int| 0 <= k < n && (#[trigger] links[k]).node == node && links[k].cost == c,
    decreases n,
{
    if n > 0 {
        let before = links_in(links, node, goal_id, (n - 1) as nat);
        let i = choose|i: int|
            0 <= i < links_in(links, node, goal_id, n).len() && links_in(links, node, goal_id, n)[i] == (v, c);
        if i < before.len() {
            assert(before[i] == (v, c));
            lemma_links_in_has(links, node, goal_id, (n - 1) as nat, v, c);
        } else {
            assert(links[n - 1].node == node && links[n - 1].cost == c);
        }
    }
}

/// The edges that the first `n` stored edges give are those edges' targets and costs.
pub proof fn lemma_stored_out_is(stored: Seq<AbstractEdge>, n: nat)
    requires
        n <= stored.len(),
    ensures
        stored_out(stored, n).len() == n,
        forall|j: int| 0 <= j < n ==> (#[trigger] stored_out(stored, n)[j]) == (stored[j].target, stored[j].cost),
    decreases n,
{
    if n > 0 {
        lemma_stored_out_is(stored, (n - 1) as nat);
    }
}

/// Where one of the links from `from` on belongs to `id`, the first such link is found.
pub proof fn lemma_first_link_found(links: Seq<Link>, id: AbstractNodeId, from: int, k: int)
    requires
        0 <= from <= k < links.len() <= usize::MAX,
        links[k].node == id,
    ensures
        first_link(links, id, from) matches Some(i) && from <= i <= k && links[i as int].node == id,
    decreases k - from,
{
    if links[from].node != id {
        lemma_first_link_found(links, id, from + 1, k);
    }
}

/// Where one of the edges from `from` on leads to `target`, the first such edge is found.
pub proof fn lemma_first_edge_found(edges: Seq<AbstractEdge>, target: AbstractNodeId, from: int, k: int)
    requires
        0 <= from <= k < edges.len() <= usize::MAX,
        edges[k].target == target,
    ensures
        first_edge(edges, target, from) matches Some(i) && from <= i <= k && edges[i as int].target == target,
    decreases k - from,
{
    if edges[from].target != target {
        lemma_first_edge_found(edges, target, from + 1, k);
    }
}

/// No step of a walk costs more than the whole walk, and the first steps cost no more than all.
pub proof fn lemma_total_cost_of_first(cs: Seq<Cost>, n: int)
    requires
        0 <= n <= cs.len(),
    ensures
        total_cost(cs.take(n)) <= total_cost(cs),
        n >= 1 ==> total_cost(cs.take(n)) == total_cost(cs.take(n - 1)) + cs[n - 1],
    decreases cs.len() - n,
{
    if n >= 1 {
        assert(cs.take(n).drop_last() =~= cs.take(n - 1));
    }
    if n < cs.len() {
        lemma_total_cost_of_first(cs, n + 1);
    } else {
        assert(cs.take(n) =~= cs);
    }
}

impl HierarchicalGrid {
    /// Whether the `j`-th edge stored for the node `u` costs what the steps
    /// of its path cost, unless that is close to `COST_INFINITY`, and no less
    /// than the first edge stored from `u` to the same node.
    pub open spec fn edge_priced(&self, u: int, j: int) -> bool {
        let e = self.edges@[u]@[j];
        &&& fits(e.cost) ==> is_walked_at(&self.base_grid, e.path@, e.cost)
        &&& first_edge(self.edges@[u]@, e.target, 0) matches Some(k) && self.edges@[u]@[k as int].cost <= e.cost
    }

    /// Whether every stored edge is priced by its path, and the first of
    /// the edges stored from one node to another is a cheapest.
    pub open spec fn priced(&self) -> bool {
        forall|u: int, j: int|
            0 <= u < self.edges@.len() && 0 <= j < self.edges@[u]@.len() ==> #[trigger] self.edge_priced(u, j)
    }

    /// The piece that refinement takes for a step of an abstract path
    /// joins the cells of its two nodes, and its steps cost what the step of
    /// the abstract path costs.
    pub proof fn lemma_piece_cost(
        &self,
        graph: &AbstractSearchGraph,
        cur: AbstractNodeId,
        next: AbstractNodeId,
        c: Cost,
        start: GridPos,
        goal: GridPos,
    )
        requires
            self.well_formed(),
            self.priced(),
            graph.hp == self,
            graph.start_id.0 == usize::MAX - 1,
            graph.goal_id.0 == usize::MAX,
            links_priced(&self.base_grid, graph.start_edges@),
            links_priced(&self.base_grid, graph.goal_edges@),
            forall|k: int| 0 <= k < graph.start_edges@.len() ==> self.leaves(#[trigger] graph.start_edges@[k], start),
            forall|k: int| 0 <= k < graph.goal_edges@.len() ==> self.arrives(#[trigger] graph.goal_edges@[k], goal),
            graph.edges(cur).contains((next, c)),
            forall|d: Cost| #[trigger] graph.edges(cur).contains((next, d)) ==> c <= d,
            fits(c),
        ensures
            self.piece(cur, next, graph.start_edges@, graph.goal_edges@) matches Some(segment) && is_walked_at(
                &self.base_grid,
                segment,
                c,
            ) && joins(&self.base_grid, segment, self.place(cur, start, goal), self.place(next, start, goal)),
    {
        let se = graph.start_edges@;
        let ge = graph.goal_edges@;
        assert(se.len() == graph.start_edges.len());
        assert(ge.len() == graph.goal_edges.len());
        if cur == graph.start_id {
            lemma_links_out_has(se, se.len(), next, c);
            let k = choose|k: int| 0 <= k < se.len() && (#[trigger] se[k]).node == next && se[k].cost == c;
            lemma_first_link_found(se, next, 0, k);
            let k0 = first_link(se, next, 0)->0 as int;
            assert(self.leaves(se[k0], start));
            assert(se[k0].cost == se[k].cost);
        } else if cur == graph.goal_id {
            assert(graph.edges(cur).len() == 0);
        } else {
            let stored = if cur.0 < self.edges@.len() {
                stored_out(self.edges@[cur.0 as int]@, self.edges@[cur.0 as int]@.len())
            } else {
                Seq::empty()
            };
            let into = links_in(ge, cur, graph.goal_id, ge.len());
            assert(graph.edges(cur) == stored + into);
            if cur.0 < self.edges@.len() {
                lemma_stored_out_is(self.edges@[cur.0 as int]@, self.edges@[cur.0 as int]@.len());
            }
            let i = choose|i: int| 0 <= i < graph.edges(cur).len() && graph.edges(cur)[i] == (next, c);
            if i < stored.len() {
                let u = cur.0 as int;
                let list = self.edges@[u]@;
                assert(list.len() == self.edges@[u].len());
                assert(stored[i] == (next, c));
                assert(list[i].target == next && list[i].cost == c);
                assert(self.edge_ok(u, i));
                lemma_first_edge_found(list, next, 0, i);
                let j0 = first_edge(list, next, 0)->0 as int;
                assert(self.edge_priced(u, i));
                assert(self.edge_priced(u, j0));
                assert(self.edge_ok(u, j0));
                assert(stored[j0] == (next, list[j0].cost));
                assert(graph.edges(cur)[j0] == (next, list[j0].cost));
                assert(graph.edges(cur).contains((next, list[j0].cost)));
                assert(list[j0].cost == c);
            } else {
                assert(into[i - stored.len()] == (next, c));
                lemma_links_in_has(ge, cur, graph.goal_id, ge.len(), next, c);
                let k = choose|k: int| 0 <= k < ge.len() && (#[trigger] ge[k]).node == cur && ge[k].cost == c;
                lemma_first_link_found(ge, cur, 0, k);
                let k0 = first_link(ge, cur, 0)->0 as int;
                assert(self.arrives(ge[k0], goal));
                assert(ge[k0].cost == ge[k].cost);
            }
        }
    }

    /// The pieces of the first `n` steps of an abstract path, put end to
    /// end, lead from the cell of its first node to the cell of its `n`-th
    /// along steps of the base grid that cost what those steps of the
    /// abstract path cost.
    pub proof fn lemma_stitched_cost(
        &self,
        graph: &AbstractSearchGraph,
        ap: Seq<AbstractNodeId>,
        cs: Seq<Cost>,
        start: GridPos,
        goal: GridPos,
        n: int,
    )
        requires
            self.well_formed(),
            self.priced(),
            graph.hp == self,
            graph.start_id.0 == usize::MAX - 1,
            graph.goal_id.0 == usize::MAX,
            links_priced(&self.base_grid, graph.start_edges@),
            links_priced(&self.base_grid, graph.goal_edges@),
            forall|k: int| 0 <= k < graph.start_edges@.len() ==> self.leaves(#[trigger] graph.start_edges@[k], start),
            forall|k: int| 0 <= k < graph.goal_edges@.len() ==> self.arrives(#[trigger] graph.goal_edges@[k], goal),
            is_least_walk(graph, ap, cs),
            total_cost(cs) + GRID_ESTIMATE_BOUND < COST_INFINITY,
            1 <= n <= cs.len(),
        ensures
            self.stitched(ap, graph.start_edges@, graph.goal_edges@, n) matches Some(full) && is_walked_at(
                &self.base_grid,
                full,
                total_cost(cs.take(n)) as Cost,
            ) && full[0] == self.place(ap[0], start, goal) && full.last() == self.place(ap[n], start, goal),
        decreases n,
    {
        let grid = &self.base_grid;
        let se = graph.start_edges@;
        let ge = graph.goal_edges@;
        lemma_total_cost_of_first(cs, n);
        lemma_total_cost_of_first(cs, n - 1);
        let i = n - 1;
        let c = cs[i];
        assert(edge_link(graph)(ap[i], ap[i + 1], cs[i]));
        assert(graph.edges(ap[i]).contains((ap[i + 1], c)));
        assert forall|d: Cost| #[trigger] graph.edges(ap[i]).contains((ap[i + 1], d)) implies c <= d by {}
        self.lemma_piece_cost(graph, ap[i], ap[i + 1], c, start, goal);
        let segment = self.piece(ap[i], ap[i + 1], se, ge)->0;
        let sc = choose|sc: Seq<Cost>| #[trigger] is_walk(grid, segment, sc) && total_cost(sc) == c;
        if n == 1 {
            assert(self.stitched(ap, se, ge, 0) == Some(Seq::<GridPos>::empty()));
            assert(cs.take(1) =~= seq![c]);
            assert(cs.take(0) =~= Seq::<Cost>::empty());
            assert(is_walk(grid, segment, sc));
        } else {
            self.lemma_stitched_cost(graph, ap, cs, start, goal, n - 1);
            let full = self.stitched(ap, se, ge, n - 1)->0;
            let fc = choose|fc: Seq<Cost>| #[trigger]
                is_walk(grid, full, fc) && total_cost(fc) == total_cost(cs.take(n - 1));
            lemma_walks_join(grid, full, fc, segment, sc);
            lemma_total_cost_add(fc, sc);
            assert(is_walk(grid, full + segment.drop_first(), fc + sc));
        }
    }
}

/// The abstract graph of a query with the links `start_edges` and `goal_edges`.
pub open spec fn query_graph<'a>(
    hg: &'a HierarchicalGrid,
    start_edges: &'a Vec<Link>,
    goal_edges: &'a Vec<Link>,
) -> AbstractSearchGraph<'a> {
    AbstractSearchGraph {
        hp: hg,
        start_edges,
        goal_edges,
        start_id: AbstractNodeId((usize::MAX - 1) as usize),
        goal_id: AbstractNodeId(usize::MAX),
    }
}

/// On a hierarchy whose stored edges are priced by their paths, the cost
/// that a query between two clusters reports for a path it found is the sum
/// of the costs of the steps of that path on the base grid, and the path
/// leads from the start to the goal. This holds as long as the cost leaves
/// room for the estimates and no node of the abstract graph has more edges
/// than a vector can hold.
pub proof fn lemma_refined_cost(
    hg: &HierarchicalGrid,
    start_edges: Vec<Link>,
    goal_edges: Vec<Link>,
    start: GridPos,
    goal: GridPos,
)
    requires
        hg.well_formed(),
        hg.priced(),
        !hg.base_grid.blocked(start.x as int, start.y as int),
        !hg.base_grid.blocked(goal.x as int, goal.y as int),
        link_views(start_edges@) == hg.reach_of(
            cluster_index(hg.cluster_size as int, hg.cluster_cols as int, hg.cluster_nodes@.len() as int, start),
            start,
            false,
        ),
        link_views(goal_edges@) == hg.reach_of(
            cluster_index(hg.cluster_size as int, hg.cluster_cols as int, hg.cluster_nodes@.len() as int, goal),
            goal,
            true,
        ),
        lists_edges(&query_graph(hg, &start_edges, &goal_edges)),
        hg.query_result(start_edges, goal_edges, start, goal).status == PathStatus::Found,
        fits(hg.query_result(start_edges, goal_edges, start, goal).cost),
    ensures
        ({
            let q = hg.query_result(start_edges, goal_edges, start, goal);
            is_walked_at(&hg.base_grid, q.path, q.cost) && q.path[0] == start && q.path.last() == goal
        }),
{
    let grid = &hg.base_grid;
    let graph = query_graph(hg, &start_edges, &goal_edges);
    let start_id = graph.start_id;
    let goal_id = graph.goal_id;
    let heuristic = AbstractHeuristic { hp: hg, goal_pos: goal, start_id, goal_id };
    let a = astar_outcome(&graph, &heuristic, start_id, goal_id, usual_config());
    let q = hg.query_result(start_edges, goal_edges, start, goal);
    let cs_ = cluster_index(hg.cluster_size as int, hg.cluster_cols as int, hg.cluster_nodes@.len() as int, start);
    let cg_ = cluster_index(hg.cluster_size as int, hg.cluster_cols as int, hg.cluster_nodes@.len() as int, goal);
    // the links
    match cs_ {
        Some(c) => {
            let list = hg.cluster_nodes@[c as int]@;
            lemma_links_are_priced(grid, hg.nodes@, list, start, false, start_edges@);
        },
        None => {
            assert(link_views(start_edges@).len() == 0);
        },
    }
    match cg_ {
        Some(c) => {
            let list = hg.cluster_nodes@[c as int]@;
            lemma_links_are_priced(grid, hg.nodes@, list, goal, true, goal_edges@);
        },
        None => {
            assert(link_views(goal_edges@).len() == 0);
        },
    }
    assert forall|k: int| 0 <= k < start_edges@.len() implies hg.leaves(#[trigger] start_edges@[k], start) by {}
    assert forall|k: int| 0 <= k < goal_edges@.len() implies hg.arrives(#[trigger] goal_edges@[k], goal) by {}
    // the abstract path
    lemma_grid_estimates_are_bounded(goal);
    assert forall|n: AbstractNodeId| #[trigger] heuristic.estimate_of(n, goal_id) <= GRID_ESTIMATE_BOUND by {
        if !(n == start_id || n == goal_id || n.0 >= hg.nodes@.len()) {
            assert(Euclidean.estimate_of(hg.nodes@[n.0 as int], goal) <= GRID_ESTIMATE_BOUND);
        }
    }
    assert(estimates_at_most(&heuristic, goal_id, GRID_ESTIMATE_BOUND));
    assert(prices_fit(&heuristic, goal_id, a.cost));
    lemma_astar_cost_is_cost_of_steps(&graph, &heuristic, start_id, goal_id, usual_config());
    lemma_astar_decides_reachability(&graph, &heuristic, start_id, goal_id, usual_config());
    let cs = choose|cs: Seq<Cost>| #[trigger] is_least_walk(&graph, a.path, cs) && total_cost(cs) == a.cost;
    let n = cs.len() as int;
    assert(cs.take(n) =~= cs);
    hg.lemma_stitched_cost(&graph, a.path, cs, start, goal, n);
}

/// On a grid of unit costs an edge from an open cell has its like the other
/// way round, at the same cost, which is `COST_ONE` at the least.
pub proof fn lemma_unit_edge_back(grid: &Grid2D, a: GridPos, b: GridPos, c: Cost)
    requires
        unit_costs(grid),
        !grid.blocked(a.x as int, a.y as int),
        grid.edges_of(a).contains((b, c)),
    ensures
        grid.edges_of(b).contains((a, c)),
        c >= COST_ONE,
        !grid.blocked(b.x as int, b.y as int),
{
    lemma_edges_are_steps(grid, a, (b, c));
    let (dx, dy) = choose|dx: int, dy: int|
        is_step(dx, dy) && (#[trigger] step_edge(grid, a, dx, dy)).contains((b, c));
    let part = step_edge(grid, a, dx, dy);
    let i = choose|i: int| 0 <= i < part.len() && part[i] == (b, c);
    assert(part.len() == 1);
    assert(b.x == a.x + dx && b.y == a.y + dy);
    assert(!grid.blocked(b.x as int, b.y as int));
    assert(grid.cost_at(b.x as int, b.y as int) == COST_ONE);
    assert(grid.cost_at(a.x as int, a.y as int) == COST_ONE);
    assert(cost_scaled(COST_ONE, COST_SQRT2) == COST_SQRT2) by {
        assert((1_000_000 * 1_414_214) / 1_000_000 == 1_414_214) by (nonlinear_arith);
    }
    assert(step_edge(grid, b, -dx, -dy)[0] == (a, c));
    assert(is_step(-dx, -dy));
    lemma_edges_are_steps(grid, b, (a, c));
}

/// On a grid of unit costs every cell of a walk from an open cell is open.
pub proof fn lemma_unit_walk_is_open(grid: &Grid2D, path: Seq<GridPos>, costs: Seq<Cost>, i: int)
    requires
        unit_costs(grid),
        is_walk(grid, path, costs),
        !grid.blocked(path[0].x as int, path[0].y as int),
        0 <= i < path.len(),
    ensures
        !grid.blocked(path[i].x as int, path[i].y as int),
        i >= 1 ==> costs[i - 1] >= COST_ONE,
    decreases i,
{
    if i > 0 {
        lemma_unit_walk_is_open(grid, path, costs, i - 1);
        let j = i - 1;
        assert(edge_link(grid)(path[j], path[j + 1], costs[j]));
        lemma_unit_edge_back(grid, path[j], path[j + 1], costs[j]);
    }
}

/// One step costs what it costs.
pub proof fn lemma_total_cost_of_one(c: Cost)
    ensures
        total_cost(seq![c]) == c,
{
    let one = seq![c];
    assert(one.drop_last() =~= Seq::<Cost>::empty());
    assert(total_cost(one.drop_last()) == 0);
    assert(one.last() == c);
}

/// The steps of a walk cost the same in either order.
pub proof fn lemma_total_cost_reversed(costs: Seq<Cost>)
    ensures
        total_cost(costs.reverse()) == total_cost(costs),
    decreases costs.len(),
{
    if costs.len() > 0 {
        let init = costs.drop_last();
        let last = costs.last();
        lemma_total_cost_reversed(init);
        assert(costs.reverse() =~= seq![last] + init.reverse());
        lemma_total_cost_add(seq![last], init.reverse());
        lemma_total_cost_of_one(last);
    } else {
        assert(costs.reverse() =~= costs);
    }
}

/// On a grid of unit costs a walk from an open cell can be walked back at the same cost.
pub proof fn lemma_unit_walk_back(grid: &Grid2D, path: Seq<GridPos>, cost: Cost)
    requires
        unit_costs(grid),
        is_walked_at(grid, path, cost),
        !grid.blocked(path[0].x as int, path[0].y as int),
    ensures
        is_walked_at(grid, path.reverse(), cost),
{
    let costs = choose|costs: Seq<Cost>| #[trigger] is_walk(grid, path, costs) && total_cost(costs) == cost;
    let back = path.reverse();
    let bc = costs.reverse();
    lemma_total_cost_reversed(costs);
    assert forall|i: int| 0 <= i < bc.len() implies #[trigger] edge_link(grid)(back[i], back[i + 1], bc[i]) by {
        let j = costs.len() - 1 - i;
        assert(back[i] == path[j + 1] && back[i + 1] == path[j] && bc[i] == costs[j]);
        assert(edge_link(grid)(path[j], path[j + 1], costs[j]));
        lemma_unit_walk_is_open(grid, path, costs, j);
        lemma_unit_edge_back(grid, path[j], path[j + 1], costs[j]);
    }
    assert(is_walk(grid, back, bc));
}

/// On a grid of unit costs a walk between two different cells, the first of them open, costs `COST_ONE` at the least.
pub proof fn lemma_unit_walk_costs(grid: &Grid2D, path: Seq<GridPos>, cost: Cost)
    requires
        unit_costs(grid),
        is_walked_at(grid, path, cost),
        !grid.blocked(path[0].x as int, path[0].y as int),
        path[0] != path.last(),
    ensures
        cost >= COST_ONE,
{
    let costs = choose|costs: Seq<Cost>| #[trigger] is_walk(grid, path, costs) && total_cost(costs) == cost;
    assert(costs.len() >= 1);
    lemma_unit_walk_is_open(grid, path, costs, 1);
    lemma_total_cost_of_first(costs, 1);
    lemma_total_cost_of_first(costs, 0);
    assert(costs.take(0) =~= Seq::<Cost>::empty());
}

/// On a grid of unit costs the step between the two cells of an entrance is a walk at `COST_ONE`.
pub proof fn lemma_crossing_cost(grid: &Grid2D, cluster_size: int, a: GridPos, b: GridPos)
    requires
        unit_costs(grid),
        is_entrance(grid, cluster_size, a, b),
    ensures
        is_walked_at(grid, seq![a, b], COST_ONE),
        is_walked_at(grid, seq![b, a], COST_ONE),
        a != b,
{
    let (fixed, lo, hi, vertical, k, q) = choose|fixed: int, lo: int, hi: int, vertical: bool, k: int, q: int| #[trigger]
        entrance_at(grid, cluster_size, a, b, fixed, lo, hi, vertical, k, q);
    let mid = lo + (hi - lo) / 2;
    assert(lo <= mid <= hi);
    assert(border_open(grid, fixed, mid, vertical));
    let (dx, dy): (int, int) = if vertical { (1, 0) } else { (0, 1) };
    assert(b.x == a.x + dx && b.y == a.y + dy);
    assert(!grid.blocked(a.x as int, a.y as int));
    assert(!grid.blocked(b.x as int, b.y as int));
    assert(grid.cost_at(b.x as int, b.y as int) == COST_ONE);
    assert(grid.cost_at(a.x as int, a.y as int) == COST_ONE);
    assert(step_edge(grid, a, dx, dy)[0] == (b, COST_ONE));
    assert(is_step(dx, dy));
    lemma_edges_are_steps(grid, a, (b, COST_ONE));
    assert(step_edge(grid, b, -dx, -dy)[0] == (a, COST_ONE));
    assert(is_step(-dx, -dy));
    lemma_edges_are_steps(grid, b, (a, COST_ONE));
    let one = seq![COST_ONE];
    lemma_total_cost_of_one(COST_ONE);
    assert(is_walk(grid, seq![a, b], one));
    assert(is_walk(grid, seq![b, a], one));
}

/// Whether `r` is one of the two edges that `pair_records` gives for the nodes `a` and `b`, in the order of their ids.
pub open spec fn record_of_pair(
    grid: &Grid2D,
    nodes: Seq<GridPos>,
    r: RecordView,
    a: AbstractNodeId,
    b: AbstractNodeId,
) -> bool {
    let o = astar_outcome(grid, &Manhattan, nodes[a.0 as int], nodes[b.0 as int], usual_config());
    &&& a.0 < b.0 < nodes.len()
    &&& o.status == PathStatus::Found
    &&& r.cost == o.cost
    &&& (r.from == a && r.to == b && r.path == o.path) || (r.from == b && r.to == a && r.path == o.path.reverse())
}

/// Whether `r` is an edge between two nodes as `pair_records` gives it.
pub open spec fn record_paired(grid: &Grid2D, nodes: Seq<GridPos>, r: RecordView) -> bool {
    exists|a: AbstractNodeId, b: AbstractNodeId| #[trigger] record_of_pair(grid, nodes, r, a, b)
}

/// Whether the ids of `list` rise and name nodes.
pub open spec fn rises(list: Seq<AbstractNodeId>, n: int) -> bool {
    &&& forall|x: int| 0 <= x < list.len() ==> (#[trigger] list[x]).0 < n
    &&& forall|x: int, y: int| 0 <= x < y < list.len() ==> (#[trigger] list[x]).0 < (#[trigger] list[y]).0
}

/// The nodes of a cluster are listed by rising id.
pub proof fn lemma_members_rise(nodes: Seq<GridPos>, cluster_size: int, cols: int, count: int, c: int, n: int)
    requires
        0 <= n <= usize::MAX,
    ensures
        rises(members(nodes, cluster_size, cols, count, c, n), n),
    decreases n,
{
    if n > 0 {
        lemma_members_rise(nodes, cluster_size, cols, count, c, n - 1);
        let before = members(nodes, cluster_size, cols, count, c, n - 1);
        let now = members(nodes, cluster_size, cols, count, c, n);
        assert forall|x: int| 0 <= x < now.len() implies (#[trigger] now[x]).0 < n by {
            if x < before.len() {
                assert(now[x] == before[x]);
            }
        }
        assert forall|x: int, y: int| 0 <= x < y < now.len() implies (#[trigger] now[x]).0 < (#[trigger] now[y]).0 by {
            assert(now[x] == before[x]);
            if y < before.len() {
                assert(now[y] == before[y]);
            }
        }
    }
}

/// Every edge between the `i`-th node of a rising list and the later ones is an edge of a pair.
pub proof fn lemma_row_records_paired(
    grid: &Grid2D,
    nodes: Seq<GridPos>,
    list: Seq<AbstractNodeId>,
    i: int,
    j: int,
    k: int,
)
    requires
        rises(list, nodes.len() as int),
        0 <= i < list.len(),
        j <= list.len(),
        0 <= k < row_records(grid, nodes, list, i, j).len(),
    ensures
        record_paired(grid, nodes, row_records(grid, nodes, list, i, j)[k]),
    decreases j - i,
{
    if j > i + 1 {
        let before = row_records(grid, nodes, list, i, j - 1);
        let pair = pair_records(grid, nodes, list[i], list[j - 1]);
        if k < before.len() {
            lemma_row_records_paired(grid, nodes, list, i, j - 1, k);
        } else {
            let r = pair[k - before.len()];
            assert(record_of_pair(grid, nodes, r, list[i], list[j - 1]));
        }
    }
}

/// Every edge between two nodes of a rising list is an edge of a pair.
pub proof fn lemma_cluster_records_paired(
    grid: &Grid2D,
    nodes: Seq<GridPos>,
    list: Seq<AbstractNodeId>,
    n: int,
    k: int,
)
    requires
        rises(list, nodes.len() as int),
        n <= list.len(),
        0 <= k < cluster_records(grid, nodes, list, n).len(),
    ensures
        record_paired(grid, nodes, cluster_records(grid, nodes, list, n)[k]),
    decreases n,
{
    if n > 0 {
        let before = cluster_records(grid, nodes, list, n - 1);
        if k < before.len() {
            lemma_cluster_records_paired(grid, nodes, list, n - 1, k);
        } else {
            lemma_row_records_paired(grid, nodes, list, n - 1, list.len() as int, k - before.len());
        }
    }
}

/// Every edge that the first `n` of `records` give the node `from` comes from one of those records.
pub proof fn lemma_stored_from_has(records: Seq<RecordView>, from: int, n: int, k: int)
    requires
        n <= records.len(),
        0 <= k < stored_from(records, from, n).len(),
    ensures
        exists|m: int|
            0 <= m < n && (#[trigger] records[m]).from.0 == from && stored_from(records, from, n)[k] == (EdgeView {
                target: records[m].to,
                cost: records[m].cost,
                path: records[m].path,
            }),
    decreases n,
{
    if n > 0 {
        let before = stored_from(records, from, n - 1);
        if k < before.len() {
            lemma_stored_from_has(records, from, n - 1, k);
            let m = choose|m: int|
                0 <= m < n - 1 && (#[trigger] records[m]).from.0 == from && before[k] == (EdgeView {
                    target: records[m].to,
                    cost: records[m].cost,
                    path: records[m].path,
                });
            assert(stored_from(records, from, n)[k] == before[k]);
        } else {
            assert(records[n - 1].from.0 == from);
        }
    }
}

impl HierarchicalGrid {
    /// Every edge inside the first `n` clusters is an edge of a pair of nodes.
    pub proof fn lemma_every_record_paired(&self, n: int, k: int)
        requires
            self.well_formed(),
            n <= self.cluster_nodes@.len(),
            0 <= k < self.every_record(n).len(),
        ensures
            record_paired(&self.base_grid, self.nodes@, self.every_record(n)[k]),
        decreases n,
    {
        if n > 0 {
            let before = self.every_record(n - 1);
            if k < before.len() {
                self.lemma_every_record_paired(n - 1, k);
            } else {
                let list = self.cluster_nodes@[n - 1]@;
                assert(self.nodes@.len() == self.nodes.len());
                lemma_members_rise(
                    self.nodes@,
                    self.cluster_size as int,
                    self.cluster_cols as int,
                    self.cluster_nodes@.len() as int,
                    n - 1,
                    self.nodes@.len() as int,
                );
                assert(self.clusters_listed());
                assert(self.cluster_nodes@[n - 1]@ == members(
                    self.nodes@,
                    self.cluster_size as int,
                    self.cluster_cols as int,
                    self.cluster_nodes@.len() as int,
                    n - 1,
                    self.nodes@.len() as int,
                ));
                lemma_cluster_records_paired(
                    &self.base_grid,
                    self.nodes@,
                    list,
                    list.len() as int,
                    k - before.len(),
                );
            }
        }
    }
}

impl HierarchicalGrid {
    /// Whether every node has the crossing of its entrance as its first
    /// edge and after it the edges that the edges inside the clusters give
    /// it: what `HierarchicalGrid::new` makes.
    pub open spec fn freshly_made(&self) -> bool {
        let records = self.every_record(self.cluster_nodes@.len() as int);
        &&& self.entrances_paired()
        &&& forall|k: int|
            0 <= k < self.edges@.len() ==> edge_views((#[trigger] self.edges@[k])@).len() >= 1 && edge_views(
                self.edges@[k]@,
            ).skip(1) == stored_from(records, k, records.len() as int)
    }

    /// The record that the `j`-th edge of the node `u` was stored from, where `j` is not the first.
    pub proof fn lemma_edge_record(&self, u: int, j: int) -> (r: RecordView)
        requires
            self.well_formed(),
            self.freshly_made(),
            0 <= u < self.edges@.len(),
            1 <= j < self.edges@[u]@.len(),
        ensures
            record_paired(&self.base_grid, self.nodes@, r),
            r.from.0 == u,
            r.to == self.edges@[u]@[j].target,
            r.cost == self.edges@[u]@[j].cost,
            r.path == self.edges@[u]@[j].path@,
    {
        let records = self.every_record(self.cluster_nodes@.len() as int);
        let ev = edge_views(self.edges@[u]@);
        let rest = stored_from(records, u, records.len() as int);
        assert(ev.skip(1) == rest);
        assert(ev.skip(1)[j - 1] == ev[j]);
        assert(ev[j] == self.edges@[u]@[j]@);
        lemma_stored_from_has(records, u, records.len() as int, j - 1);
        let m = choose|m: int|
            0 <= m < records.len() && (#[trigger] records[m]).from.0 == u && rest[j - 1] == (EdgeView {
                target: records[m].to,
                cost: records[m].cost,
                path: records[m].path,
            });
        self.lemma_every_record_paired(self.cluster_nodes@.len() as int, m);
        records[m]
    }

    /// An edge stored from a record costs what the steps of its path cost on a grid of unit costs.
    pub proof fn lemma_record_cost(&self, r: RecordView)
        requires
            self.well_formed(),
            unit_costs(&self.base_grid),
            record_paired(&self.base_grid, self.nodes@, r),
            fits(r.cost),
        ensures
            is_walked_at(&self.base_grid, r.path, r.cost),
    {
        let grid = &self.base_grid;
        let (a, b) = choose|a: AbstractNodeId, b: AbstractNodeId| #[trigger]
            record_of_pair(grid, self.nodes@, r, a, b);
        let from = self.nodes@[a.0 as int];
        let to = self.nodes@[b.0 as int];
        let o = astar_outcome(grid, &Manhattan, from, to, usual_config());
        lemma_grid_lists_edges(grid);
        lemma_grid_estimates_are_bounded(to);
        assert(prices_fit(&Manhattan, to, o.cost));
        lemma_astar_cost_is_cost_of_steps(grid, &Manhattan, from, to, usual_config());
        lemma_astar_decides_reachability(grid, &Manhattan, from, to, usual_config());
        if r.from != a {
            lemma_unit_walk_back(grid, o.path, o.cost);
        }
    }

    /// On a grid of unit costs the first edge of a node of a fresh
    /// hierarchy, the crossing of its entrance, costs what its one step
    /// costs, and leads to another cell.
    pub proof fn lemma_first_edge_is_crossing(&self, u: int)
        requires
            self.well_formed(),
            self.freshly_made(),
            unit_costs(&self.base_grid),
            0 <= u < self.edges@.len(),
        ensures
            self.edges@[u]@.len() >= 1,
            self.edges@[u]@[0].cost == COST_ONE,
            is_walked_at(&self.base_grid, self.edges@[u]@[0].path@, COST_ONE),
            self.edges@[u]@[0].target.0 < self.nodes@.len(),
            self.nodes@[u] != self.nodes@[self.edges@[u]@[0].target.0 as int],
    {
        let i = u / 2;
        assert(self.nodes@.len() % 2 == 0);
        assert(2 * i + 1 < self.nodes@.len());
        assert(self.pair_ok(i));
        let a = self.nodes@[2 * i];
        let b = self.nodes@[2 * i + 1];
        lemma_crossing_cost(&self.base_grid, self.cluster_size as int, a, b);
    }

    /// Two edges of a fresh hierarchy from one node to another, neither the first of the node, cost the same.
    pub proof fn lemma_stored_twice(&self, u: int, j: int, k: int)
        requires
            self.well_formed(),
            self.freshly_made(),
            0 <= u < self.edges@.len(),
            1 <= j < self.edges@[u]@.len(),
            1 <= k < self.edges@[u]@.len(),
            self.edges@[u]@[j].target == self.edges@[u]@[k].target,
        ensures
            self.edges@[u]@[j].cost == self.edges@[u]@[k].cost,
    {
        let grid = &self.base_grid;
        let r = self.lemma_edge_record(u, j);
        let r0 = self.lemma_edge_record(u, k);
        let (x, y) = choose|x: AbstractNodeId, y: AbstractNodeId| #[trigger]
            record_of_pair(grid, self.nodes@, r, x, y);
        let (x0, y0) = choose|x0: AbstractNodeId, y0: AbstractNodeId| #[trigger]
            record_of_pair(grid, self.nodes@, r0, x0, y0);
        assert(x == x0 && y == y0);
    }

    /// On a grid of unit costs every edge of a fresh hierarchy is priced.
    pub proof fn lemma_fresh_edge_priced(&self, u: int, j: int)
        requires
            self.well_formed(),
            self.freshly_made(),
            unit_costs(&self.base_grid),
            0 <= u < self.edges@.len(),
            0 <= j < self.edges@[u]@.len(),
        ensures
            self.edge_priced(u, j),
    {
        let grid = &self.base_grid;
        let list = self.edges@[u]@;
        let e = list[j];
        assert(list.len() == self.edges@[u].len());
        self.lemma_first_edge_is_crossing(u);
        assert(self.edge_ok(u, j));
        lemma_first_edge_found(list, e.target, 0, j);
        let j0 = first_edge(list, e.target, 0)->0 as int;
        if j >= 1 {
            let r = self.lemma_edge_record(u, j);
            if fits(e.cost) {
                self.lemma_record_cost(r);
            }
            if j0 == 0 {
                if fits(e.cost) {
                    lemma_unit_walk_costs(grid, e.path@, e.cost);
                }
            } else {
                self.lemma_stored_twice(u, j, j0);
            }
        }
    }

    /// A hierarchy as `HierarchicalGrid::new` makes it on a grid of unit
    /// costs is priced: every stored edge costs what the steps of its path
    /// cost, and the first of the edges stored from one node to another is
    /// a cheapest.
    pub proof fn lemma_fresh_is_priced(&self)
        requires
            self.well_formed(),
            self.freshly_made(),
            unit_costs(&self.base_grid),
        ensures
            self.priced(),
    {
        assert forall|u: int, j: int|
            0 <= u < self.edges@.len() && 0 <= j < self.edges@[u]@.len() implies #[trigger] self.edge_priced(
            u,
            j,
        ) by {
            self.lemma_fresh_edge_priced(u, j);
        }
    }
}

} // verus!
