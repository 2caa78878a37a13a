//! A grid cut into square clusters, with one abstract node on each side of
//! every entrance between two clusters. Paths between the nodes of a cluster
//! are found once; a query searches the small abstract graph and stitches
//! the stored pieces together.

use rayon::iter::{IntoParallelRefIterator, ParallelIterator};
use vstd::prelude::*;
use crate::algorithms::astar::{astar, astar_outcome, is_walked_at, AStarConfig, TieBreaking};
use crate::algorithms::guarantees::lists_edges;
use crate::algorithms::lineage::{estimates_at_most, prices_fit};
use crate::algorithms::on_grids::{lemma_grid_estimates_are_bounded, GRID_ESTIMATE_BOUND};
use crate::cost::{Cost, COST_INFINITY, COST_ONE};
use crate::graphs::refinement::{fits, lemma_refined_cost, query_graph};
use crate::graphs::grid2d::{
    connected, lemma_cardinal_step_connects, lemma_edge_back, lemma_edge_target_open, Grid2D, GridPos,
};
use crate::heuristics::{Euclidean, Manhattan};
use crate::traits::{
    edge_link, is_linked_path, is_route, nothing_found, Graph, Heuristic, Keyed, Outcome, PathResult, PathStatus,
};

verus! {

#[derive(Clone, Copy, Debug, PartialEq, Eq, Hash, Structural)]
pub struct AbstractNodeId(pub usize);

#[derive(Debug, Clone)]
pub struct AbstractEdge {
    pub target: AbstractNodeId,
    pub cost: Cost,
    /// The concrete steps of the edge, kept for refinement.
    pub path: Vec<GridPos>,
}

pub struct HierarchicalGrid {
    pub base_grid: Grid2D,
    pub cluster_size: usize,
    /// The position of every abstract node, by id.
    pub nodes: Vec<GridPos>,
    /// The outgoing edges of every abstract node, by id.
    pub edges: Vec<Vec<AbstractEdge>>,
    /// The abstract nodes of every cluster, by row-major cluster index.
    pub cluster_nodes: Vec<Vec<AbstractNodeId>>,
    pub cluster_cols: usize,
    pub cluster_rows: usize,
}

/// An edge found inside a cluster, before it is stored.
pub struct ClusterEdge {
    pub from: AbstractNodeId,
    pub to: AbstractNodeId,
    pub cost: Cost,
    pub path: Vec<GridPos>,
}

/// A path between a query's endpoint and an abstract node of its cluster.
pub struct Link {
    pub node: AbstractNodeId,
    pub cost: Cost,
    pub path: Vec<GridPos>,
}

impl Keyed for AbstractNodeId {
    open spec fn key_of(self) -> u128 {
        self.0 as u128
    }

    fn key(&self) -> (k: u128) {
        self.0 as u128
    }

    proof fn key_is_injective(a: Self, b: Self) {
    }
}

/// Whether both cells at `i` along the border behind the line `fixed` are open:
/// the cells `(fixed, i)` and `(fixed + 1, i)` of a vertical border, the
/// cells `(i, fixed)` and `(i, fixed + 1)` of a horizontal one.
pub open spec fn border_open(grid: &Grid2D, fixed: int, i: int, vertical: bool) -> bool {
    if vertical {
        !grid.blocked(fixed, i) && !grid.blocked(fixed + 1, i)
    } else {
        !grid.blocked(i, fixed) && !grid.blocked(i, fixed + 1)
    }
}

/// Whether the cells `a` and `b` are the two sides of the entrance that
/// spans the positions `lo` to `hi` of the border behind the line `fixed`:
/// the border separates the clusters `k - 1` and `k`, the span lies along
/// the cluster `q`, every position of it is open, no open position
/// adjoins it inside the cluster, and the cells sit at its middle.
pub open spec fn entrance_at(
    grid: &Grid2D,
    cluster_size: int,
    a: GridPos,
    b: GridPos,
    fixed: int,
    lo: int,
    hi: int,
    vertical: bool,
    k: int,
    q: int,
) -> bool {
    let mid = lo + (hi - lo) / 2;
    &&& k >= 1
    &&& fixed + 1 == k * cluster_size
    &&& q >= 0
    &&& q * cluster_size <= lo <= hi < q * cluster_size + cluster_size
    &&& forall|i: int| lo <= i <= hi ==> border_open(grid, fixed, i, vertical)
    &&& lo == q * cluster_size || !border_open(grid, fixed, lo - 1, vertical)
    &&& hi + 1 == q * cluster_size + cluster_size || !border_open(grid, fixed, hi + 1, vertical)
    &&& if vertical {
        a.x == fixed && a.y == mid && b.x == fixed + 1 && b.y == mid
    } else {
        a.x == mid && a.y == fixed && b.x == mid && b.y == fixed + 1
    }
}

/// Whether the cells `a` and `b` are the two sides of an entrance: the
/// middle of a maximal span of open positions along a border between two clusters.
pub open spec fn is_entrance(grid: &Grid2D, cluster_size: int, a: GridPos, b: GridPos) -> bool {
    exists|fixed: int, lo: int, hi: int, vertical: bool, k: int, q: int| #[trigger]
        entrance_at(grid, cluster_size, a, b, fixed, lo, hi, vertical, k, q)
}

/// What an `AbstractEdge` holds, as plain values.
pub ghost struct EdgeView {
    pub target: AbstractNodeId,
    pub cost: Cost,
    pub path: Seq<GridPos>,
}

/// What a `ClusterEdge` holds, as plain values.
pub ghost struct RecordView {
    pub from: AbstractNodeId,
    pub to: AbstractNodeId,
    pub cost: Cost,
    pub path: Seq<GridPos>,
}

/// What a `Link` holds, as plain values.
pub ghost struct LinkView {
    pub node: AbstractNodeId,
    pub cost: Cost,
    pub path: Seq<GridPos>,
}

impl View for AbstractEdge {
    type V = EdgeView;

    open spec fn view(&self) -> EdgeView {
        EdgeView { target: self.target, cost: self.cost, path: self.path@ }
    }
}

impl View for ClusterEdge {
    type V = RecordView;

    open spec fn view(&self) -> RecordView {
        RecordView { from: self.from, to: self.to, cost: self.cost, path: self.path@ }
    }
}

impl View for Link {
    type V = LinkView;

    open spec fn view(&self) -> LinkView {
        LinkView { node: self.node, cost: self.cost, path: self.path@ }
    }
}

/// The views of a list of edges.
pub open spec fn edge_views(edges: Seq<AbstractEdge>) -> Seq<EdgeView> {
    Seq::new(edges.len(), |k: int| edges[k]@)
}

/// The views of a list of records.
pub open spec fn record_views(records: Seq<ClusterEdge>) -> Seq<RecordView> {
    Seq::new(records.len(), |k: int| records[k]@)
}

/// The views of a list of links.
pub open spec fn link_views(links: Seq<Link>) -> Seq<LinkView> {
    Seq::new(links.len(), |k: int| links[k]@)
}

/// The configuration of every search that the hierarchy makes: no limits, ties broken towards the goal.
pub open spec fn usual_config() -> AStarConfig {
    AStarConfig { max_iterations: None, timeout: None, tie_breaking: TieBreaking::PreferHigherG }
}

/// The edges between the abstract nodes `a` and `b`: one each way along the
/// path that A* with the Manhattan heuristic finds from `a` to `b`, the
/// way back being that path reversed at the same cost; none where it finds no path.
pub open spec fn pair_records(grid: &Grid2D, nodes: Seq<GridPos>, a: AbstractNodeId, b: AbstractNodeId) -> Seq<
    RecordView,
> {
    let o = astar_outcome(grid, &Manhattan, nodes[a.0 as int], nodes[b.0 as int], usual_config());
    if o.status == PathStatus::Found {
        seq![
            RecordView { from: a, to: b, cost: o.cost, path: o.path },
            RecordView { from: b, to: a, cost: o.cost, path: o.path.reverse() },
        ]
    } else {
        Seq::empty()
    }
}

/// The edges between the `i`-th node of `list` and each later node before the `j`-th.
pub open spec fn row_records(grid: &Grid2D, nodes: Seq<GridPos>, list: Seq<AbstractNodeId>, i: int, j: int) -> Seq<
    RecordView,
>
    decreases j - i,
{
    if j <= i + 1 {
        Seq::empty()
    } else {
        row_records(grid, nodes, list, i, j - 1) + pair_records(grid, nodes, list[i], list[j - 1])
    }
}

/// The edges between every two nodes of `list` of which the first is among the first `n`.
pub open spec fn cluster_records(grid: &Grid2D, nodes: Seq<GridPos>, list: Seq<AbstractNodeId>, n: int) -> Seq<
    RecordView,
>
    decreases n,
{
    if n <= 0 {
        Seq::empty()
    } else {
        cluster_records(grid, nodes, list, n - 1) + row_records(grid, nodes, list, n - 1, list.len() as int)
    }
}

/// The link between the cell `end` and the abstract node `id`: the path
/// that A* with the Euclidean heuristic finds from `end` to the node, or,
/// with `towards`, from the node to `end`; none where it finds no path.
pub open spec fn link_to(grid: &Grid2D, nodes: Seq<GridPos>, id: AbstractNodeId, end: GridPos, towards: bool) -> Seq<
    LinkView,
> {
    let pos = nodes[id.0 as int];
    let o = if towards {
        astar_outcome(grid, &Euclidean, pos, end, usual_config())
    } else {
        astar_outcome(grid, &Euclidean, end, pos, usual_config())
    };
    if o.status == PathStatus::Found {
        seq![LinkView { node: id, cost: o.cost, path: o.path }]
    } else {
        Seq::empty()
    }
}

/// The links between the cell `end` and the first `n` nodes of `list`.
pub open spec fn links_of(
    grid: &Grid2D,
    nodes: Seq<GridPos>,
    list: Seq<AbstractNodeId>,
    end: GridPos,
    towards: bool,
    n: int,
) -> Seq<LinkView>
    decreases n,
{
    if n <= 0 {
        Seq::empty()
    } else {
        links_of(grid, nodes, list, end, towards, n - 1) + link_to(grid, nodes, list[n - 1], end, towards)
    }
}

/// The row-major index of the cluster that holds the cell `pos`, on a grid
/// of `count` clusters in rows of `cols`, each of side `cluster_size`; none
/// for a cell outside those clusters.
pub open spec fn cluster_index(cluster_size: int, cols: int, count: int, pos: GridPos) -> Option<usize> {
    let cx = pos.x as int / cluster_size;
    let cy = pos.y as int / cluster_size;
    if pos.x < 0 || pos.y < 0 || cx >= cols || cy * cols + cx >= count {
        None
    } else {
        Some((cy * cols + cx) as usize)
    }
}

/// The index of the first of `links`, at or after `from`, that belongs to the node `id`.
pub open spec fn first_link(links: Seq<Link>, id: AbstractNodeId, from: int) -> Option<usize>
    decreases links.len() - from,
{
    if from < 0 || from >= links.len() {
        None
    } else if links[from].node == id {
        Some(from as usize)
    } else {
        first_link(links, id, from + 1)
    }
}

/// The index of the first of `edges`, at or after `from`, that leads to `target`.
pub open spec fn first_edge(edges: Seq<AbstractEdge>, target: AbstractNodeId, from: int) -> Option<usize>
    decreases edges.len() - from,
{
    if from < 0 || from >= edges.len() {
        None
    } else if edges[from].target == target {
        Some(from as usize)
    } else {
        first_edge(edges, target, from + 1)
    }
}

/// The abstract nodes among the first `n` of `nodes` that lie in the cluster `c`, in order.
pub open spec fn members(nodes: Seq<GridPos>, cluster_size: int, cols: int, count: int, c: int, n: int) -> Seq<
    AbstractNodeId,
>
    decreases n,
{
    if n <= 0 {
        Seq::empty()
    } else {
        let before = members(nodes, cluster_size, cols, count, c, n - 1);
        if cluster_index(cluster_size, cols, count, nodes[n - 1]) == Some(c as usize) {
            before.push(AbstractNodeId((n - 1) as usize))
        } else {
            before
        }
    }
}

/// A node added at the end does not change which of the earlier nodes a cluster holds.
pub proof fn lemma_members_kept(
    nodes: Seq<GridPos>,
    pos: GridPos,
    cluster_size: int,
    cols: int,
    count: int,
    c: int,
    n: int,
)
    requires
        n <= nodes.len(),
    ensures
        members(nodes.push(pos), cluster_size, cols, count, c, n) == members(nodes, cluster_size, cols, count, c, n),
    decreases n,
{
    if n > 0 {
        lemma_members_kept(nodes, pos, cluster_size, cols, count, c, n - 1);
    }
}

/// The two sides of the entrance that spans the positions `lo` to `hi` of
/// the border behind the line `fixed`: the cells at the middle of the span.
pub open spec fn entrance_pair(fixed: int, lo: int, hi: int, vertical: bool) -> (GridPos, GridPos) {
    let mid = lo + (hi - lo) / 2;
    if vertical {
        (GridPos { x: fixed as i32, y: mid as i32 }, GridPos { x: (fixed + 1) as i32, y: mid as i32 })
    } else {
        (GridPos { x: mid as i32, y: fixed as i32 }, GridPos { x: mid as i32, y: (fixed + 1) as i32 })
    }
}

/// The entrance of a span that began at `span` and ends at `last`; none where no span is under way.
pub open spec fn span_entrance(span: Option<int>, fixed: int, last: int, vertical: bool) -> Seq<(GridPos, GridPos)> {
    match span {
        Some(s) => seq![entrance_pair(fixed, s, last, vertical)],
        None => Seq::empty(),
    }
}

/// The entrances along the positions `from` up to `to` of the border
/// behind the line `fixed`, in order: one for every maximal span of open
/// positions. `span` is the start of the span under way at `from`, if any.
pub open spec fn scanned(grid: &Grid2D, fixed: int, vertical: bool, from: int, to: int, span: Option<int>) -> Seq<
    (GridPos, GridPos),
>
    decreases to - from,
{
    if from >= to {
        span_entrance(span, fixed, from - 1, vertical)
    } else if border_open(grid, fixed, from, vertical) {
        scanned(
            grid,
            fixed,
            vertical,
            from + 1,
            to,
            if span is Some {
                span
            } else {
                Some(from)
            },
        )
    } else {
        span_entrance(span, fixed, from - 1, vertical) + scanned(grid, fixed, vertical, from + 1, to, None)
    }
}

/// Where the stretch of a cluster that begins at `start` ends, on an axis of length `limit`.
pub open spec fn stretch_end(limit: int, start: int, cluster_size: int) -> int {
    if limit - start <= cluster_size {
        limit
    } else {
        start + cluster_size
    }
}

/// The entrances of the vertical borders from the line `px_next` on, along
/// the row of clusters that spans the rows `y_start` up to `y_end`.
pub open spec fn row_entrances(grid: &Grid2D, cluster_size: int, y_start: int, y_end: int, px_next: int) -> Seq<
    (GridPos, GridPos),
>
    decreases grid.width - px_next,
{
    if cluster_size <= 0 || px_next >= grid.width {
        Seq::empty()
    } else {
        scanned(grid, px_next - 1, true, y_start, y_end, None) + (if grid.width - px_next <= cluster_size {
            Seq::empty()
        } else {
            row_entrances(grid, cluster_size, y_start, y_end, px_next + cluster_size)
        })
    }
}

/// The entrances of all vertical borders, row of clusters by row, from the row that begins at `y_start` on.
pub open spec fn vertical_entrances(grid: &Grid2D, cluster_size: int, y_start: int) -> Seq<(GridPos, GridPos)>
    decreases grid.height - y_start,
{
    if cluster_size <= 0 || y_start < 0 || y_start >= grid.height {
        Seq::empty()
    } else {
        let y_end = stretch_end(grid.height as int, y_start, cluster_size);
        row_entrances(grid, cluster_size, y_start, y_end, cluster_size) + vertical_entrances(
            grid,
            cluster_size,
            y_end,
        )
    }
}

/// The entrances of the horizontal border behind the line `py_next - 1`,
/// cluster by cluster, from the column `x_start` on.
pub open spec fn border_entrances(grid: &Grid2D, cluster_size: int, py_next: int, x_start: int) -> Seq<
    (GridPos, GridPos),
>
    decreases grid.width - x_start,
{
    if cluster_size <= 0 || x_start < 0 || x_start >= grid.width {
        Seq::empty()
    } else {
        let x_end = stretch_end(grid.width as int, x_start, cluster_size);
        scanned(grid, py_next - 1, false, x_start, x_end, None) + border_entrances(
            grid,
            cluster_size,
            py_next,
            x_end,
        )
    }
}

/// The entrances of all horizontal borders from the line `py_next` on.
pub open spec fn horizontal_entrances(grid: &Grid2D, cluster_size: int, py_next: int) -> Seq<(GridPos, GridPos)>
    decreases grid.height - py_next,
{
    if cluster_size <= 0 || py_next >= grid.height {
        Seq::empty()
    } else {
        border_entrances(grid, cluster_size, py_next, 0) + (if grid.height - py_next <= cluster_size {
            Seq::empty()
        } else {
            horizontal_entrances(grid, cluster_size, py_next + cluster_size)
        })
    }
}

/// The entrances of a grid cut into clusters of side `cluster_size`: those
/// of the vertical borders, row of clusters by row, then those of the
/// horizontal borders, border by border.
pub open spec fn all_entrances(grid: &Grid2D, cluster_size: int) -> Seq<(GridPos, GridPos)> {
    vertical_entrances(grid, cluster_size, 0) + horizontal_entrances(grid, cluster_size, cluster_size)
}

/// The node list `nodes` with the two cells of each of `pairs` added, as
/// long as the list has room for them.
pub open spec fn grown(nodes: Seq<GridPos>, pairs: Seq<(GridPos, GridPos)>) -> Seq<GridPos>
    decreases pairs.len(),
{
    if pairs.len() == 0 {
        nodes
    } else {
        let before = grown(nodes, pairs.drop_last());
        if before.len() >= usize::MAX - 4 {
            before
        } else {
            before.push(pairs.last().0).push(pairs.last().1)
        }
    }
}

/// Adding two lists of entrances one after the other is adding the two lists joined.
pub proof fn lemma_grown_add(nodes: Seq<GridPos>, a: Seq<(GridPos, GridPos)>, b: Seq<(GridPos, GridPos)>)
    ensures
        grown(nodes, a + b) == grown(grown(nodes, a), b),
        grown(nodes, a).len() >= nodes.len(),
    decreases b.len(),
{
    lemma_grown_len(nodes, a);
    if b.len() == 0 {
        assert(a + b =~= a);
    } else {
        lemma_grown_add(nodes, a, b.drop_last());
        assert((a + b).drop_last() =~= a + b.drop_last());
    }
}

/// Adding entrances never shortens the node list.
pub proof fn lemma_grown_len(nodes: Seq<GridPos>, a: Seq<(GridPos, GridPos)>)
    ensures
        grown(nodes, a).len() >= nodes.len(),
    decreases a.len(),
{
    if a.len() > 0 {
        lemma_grown_len(nodes, a.drop_last());
    }
}

/// The edges that the first `n` of `records` give the node `from`, in order.
pub open spec fn stored_from(records: Seq<RecordView>, from: int, n: int) -> Seq<EdgeView>
    decreases n,
{
    if n <= 0 {
        Seq::empty()
    } else {
        let before = stored_from(records, from, n - 1);
        if records[n - 1].from.0 == from {
            before.push(EdgeView { target: records[n - 1].to, cost: records[n - 1].cost, path: records[n - 1].path })
        } else {
            before
        }
    }
}

/// A record added at the end does not change what the earlier records give a node.
pub proof fn lemma_stored_kept(records: Seq<RecordView>, x: RecordView, from: int, n: int)
    requires
        n <= records.len(),
    ensures
        stored_from(records.push(x), from, n) == stored_from(records, from, n),
    decreases n,
{
    if n > 0 {
        lemma_stored_kept(records, x, from, n - 1);
    }
}

/// Whether `e` is the crossing of an entrance from the cell `a` to the cell
/// `b`, which is the node `target`: one step at cost `COST_ONE`.
pub open spec fn is_crossing(e: AbstractEdge, target: int, a: GridPos, b: GridPos) -> bool {
    e.target.0 == target && e.cost == COST_ONE && e.path@ == seq![a, b]
}

/// Whether `path` is not empty and each of its steps is an edge of the grid.
pub open spec fn is_traversable(grid: &Grid2D, path: Seq<GridPos>) -> bool {
    &&& path.len() >= 1
    &&& forall|i: int| 0 <= i < path.len() - 1 ==> connected(grid, #[trigger] path[i], path[i + 1])
}

/// Whether every cell of `path` is open.
pub open spec fn all_open(grid: &Grid2D, path: Seq<GridPos>) -> bool {
    forall|i: int| 0 <= i < path.len() ==> !grid.blocked((#[trigger] path[i]).x as int, path[i].y as int)
}

/// Whether `path` leads from `from` to `to` over open cells along edges of the grid.
pub open spec fn joins(grid: &Grid2D, path: Seq<GridPos>, from: GridPos, to: GridPos) -> bool {
    &&& is_traversable(grid, path)
    &&& all_open(grid, path)
    &&& path[0] == from
    &&& path.last() == to
}

/// A route along the edges of a grid from an open cell is traversable and crosses open cells only.
pub proof fn lemma_route_joins(grid: &Grid2D, path: Seq<GridPos>, start: GridPos, cost: Cost)
    requires
        is_route(path, start, cost, edge_link(grid)),
        !grid.blocked(start.x as int, start.y as int),
    ensures
        joins(grid, path, start, path.last()),
{
    let costs = choose|costs: Seq<Cost>| #[trigger]
        is_linked_path(path, costs, edge_link(grid)) && path[0] == start;
    let link = edge_link(grid);
    assert forall|i: int| 0 <= i < path.len() - 1 implies connected(grid, #[trigger] path[i], path[i + 1]) by {
        assert(link(path[i], path[i + 1], costs[i]));
        assert(grid.edges_of(path[i]).contains((path[i + 1], costs[i])));
    }
    assert forall|i: int| 0 <= i < path.len() implies !grid.blocked(
        (#[trigger] path[i]).x as int,
        path[i].y as int,
    ) by {
        if i > 0 {
            assert(link(path[i - 1], path[i], costs[i - 1]));
            let out = grid.edges_of(path[i - 1]);
            assert(out.contains((path[i], costs[i - 1])));
            let k = choose|k: int| 0 <= k < out.len() && #[trigger] out[k] == (path[i], costs[i - 1]);
            lemma_edge_target_open(grid, path[i - 1], k);
        }
    }
}

/// A path walked backwards is still a path.
pub proof fn lemma_reverse_joins(grid: &Grid2D, path: Seq<GridPos>, from: GridPos, to: GridPos)
    requires
        joins(grid, path, from, to),
    ensures
        joins(grid, path.reverse(), to, from),
{
    let rev = path.reverse();
    assert forall|i: int| 0 <= i < rev.len() - 1 implies connected(grid, #[trigger] rev[i], rev[i + 1]) by {
        let j = path.len() - 2 - i;
        assert(rev[i] == path[j + 1]);
        assert(rev[i + 1] == path[j]);
        assert(connected(grid, path[j], path[j + 1]));
        lemma_edge_back(grid, path[j], path[j + 1]);
    }
    assert forall|i: int| 0 <= i < rev.len() implies !grid.blocked(
        (#[trigger] rev[i]).x as int,
        rev[i].y as int,
    ) by {
        assert(rev[i] == path[path.len() - 1 - i]);
    }
}

/// Two paths that meet end to start make one path.
pub proof fn lemma_joined(grid: &Grid2D, a: Seq<GridPos>, b: Seq<GridPos>, from: GridPos, mid: GridPos, to: GridPos)
    requires
        joins(grid, a, from, mid),
        joins(grid, b, mid, to),
    ensures
        joins(grid, a + b.drop_first(), from, to),
{
    let all = a + b.drop_first();
    assert forall|i: int| 0 <= i < all.len() - 1 implies connected(grid, #[trigger] all[i], all[i + 1]) by {
        if i < a.len() - 1 {
            assert(all[i] == a[i] && all[i + 1] == a[i + 1]);
        } else if i == a.len() - 1 {
            assert(all[i] == b[0]);
            assert(all[i + 1] == b[1]);
        } else {
            let j = i - a.len() + 1;
            assert(all[i] == b[j] && all[i + 1] == b[j + 1]);
        }
    }
    assert forall|i: int| 0 <= i < all.len() implies !grid.blocked(
        (#[trigger] all[i]).x as int,
        all[i].y as int,
    ) by {
        if i < a.len() {
            assert(all[i] == a[i]);
        } else {
            assert(all[i] == b[i - a.len() + 1]);
        }
    }
}

fn copy_path(path: &Vec<GridPos>) -> (r: Vec<GridPos>)
    ensures
        r@ == path@,
{
    let mut out: Vec<GridPos> = Vec::new();
    let mut i: usize = 0;
    while i < path.len()
        invariant
            i <= path.len(),
            out@ == path@.subrange(0, i as int),
        decreases path.len() - i,
    {
        out.push(path[i]);
        proof {
            assert(out@ =~= path@.subrange(0, i + 1));
        }
        i += 1;
    }
    proof {
        assert(out@ =~= path@);
    }
    out
}

fn reversed(path: &Vec<GridPos>) -> (r: Vec<GridPos>)
    ensures
        r@ == path@.reverse(),
{
    let n: usize = path.len();
    let mut out: Vec<GridPos> = Vec::new();
    let mut i: usize = n;
    while i > 0
        invariant
            n == path@.len(),
            i <= n,
            out@.len() == n - i,
            forall|j: int| 0 <= j < out@.len() ==> out@[j] == path@[n - 1 - j],
        decreases i,
    {
        i -= 1;
        out.push(path[i]);
    }
    proof {
        assert(out@ =~= path@.reverse());
    }
    out
}

impl HierarchicalGrid {
    /// Whether the `j`-th edge stored for the node `id` leads to a node and
    /// carries a path from the one to the other.
    pub open spec fn edge_ok(&self, id: int, j: int) -> bool {
        let e = self.edges@[id]@[j];
        &&& e.target.0 < self.nodes@.len()
        &&& joins(&self.base_grid, e.path@, self.nodes@[id], self.nodes@[e.target.0 as int])
    }

    /// Whether an edge found for a cluster can be stored.
    pub open spec fn record_ok(&self, rec: ClusterEdge) -> bool {
        &&& rec.from.0 < self.nodes@.len()
        &&& rec.to.0 < self.nodes@.len()
        &&& joins(&self.base_grid, rec.path@, self.nodes@[rec.from.0 as int], self.nodes@[rec.to.0 as int])
    }

    /// Whether every edge in `recs` can be stored.
    pub open spec fn records_ok(&self, recs: Seq<ClusterEdge>) -> bool {
        forall|k: int| 0 <= k < recs.len() ==> self.record_ok(#[trigger] recs[k])
    }

    /// The representation invariant: every abstract node is an open cell of
    /// the base grid, every cluster lists nodes only, and every stored edge
    /// carries a path of the base grid between its two nodes.
    pub open spec fn well_formed(&self) -> bool {
        &&& self.base_grid.well_formed()
        &&& self.cluster_size > 0
        &&& self.edges@.len() == self.nodes@.len()
        &&& self.nodes@.len() < usize::MAX - 1
        &&& forall|i: int|
            0 <= i < self.nodes@.len() ==> !self.base_grid.blocked(
                (#[trigger] self.nodes@[i]).x as int,
                self.nodes@[i].y as int,
            )
        &&& forall|c: int, j: int|
            0 <= c < self.cluster_nodes@.len() && 0 <= j < self.cluster_nodes@[c]@.len() ==> (
            #[trigger] self.cluster_nodes@[c]@[j]).0 < self.nodes@.len()
        &&& forall|id: int, j: int|
            0 <= id < self.edges@.len() && 0 <= j < self.edges@[id]@.len() ==> #[trigger] self.edge_ok(id, j)
        &&& self.clusters_listed()
    }

    /// Whether every cluster lists exactly the abstract nodes that lie in it, in the order of their ids.
    pub open spec fn clusters_listed(&self) -> bool {
        forall|c: int|
            0 <= c < self.cluster_nodes@.len() ==> (#[trigger] self.cluster_nodes@[c])@ == members(
                self.nodes@,
                self.cluster_size as int,
                self.cluster_cols as int,
                self.cluster_nodes@.len() as int,
                c,
                self.nodes@.len() as int,
            )
    }

    /// Whether `self` is `old` with the entrances `pairs` added: two nodes
    /// for each, as long as there is room, every new node with one edge, and
    /// the edges of the nodes of `old` as they were.
    pub open spec fn entrances_added(&self, old: &Self, pairs: Seq<(GridPos, GridPos)>) -> bool {
        &&& self.nodes@ == grown(old.nodes@, pairs)
        &&& old.nodes@.len() <= self.nodes@.len()
        &&& forall|i: int| 0 <= i < old.edges@.len() ==> #[trigger] self.edges@[i] == old.edges@[i]
        &&& forall|k: int| old.nodes@.len() <= k < self.nodes@.len() ==> (#[trigger] self.edges@[k])@.len() == 1
    }

    /// Entrances added in two goes are the two lists of entrances added at once.
    pub proof fn lemma_added_twice(
        old: &Self,
        mid: &Self,
        fin: &Self,
        a: Seq<(GridPos, GridPos)>,
        b: Seq<(GridPos, GridPos)>,
    )
        requires
            mid.entrances_added(old, a),
            fin.entrances_added(mid, b),
            old.edges@.len() == old.nodes@.len(),
            mid.edges@.len() == mid.nodes@.len(),
        ensures
            fin.entrances_added(old, a + b),
    {
        lemma_grown_add(old.nodes@, a, b);
        assert forall|i: int| 0 <= i < old.edges@.len() implies #[trigger] fin.edges@[i] == old.edges@[i] by {
            assert(fin.edges@[i] == mid.edges@[i]);
        }
        assert forall|k: int| old.nodes@.len() <= k < fin.nodes@.len() implies (#[trigger] fin.edges@[k])@.len()
            == 1 by {
            if k < mid.nodes@.len() {
                assert(fin.edges@[k] == mid.edges@[k]);
            }
        }
    }

    /// Whether the abstract nodes `2 * i` and `2 * i + 1` are the two sides of
    /// an entrance, each with the crossing to the other as the first of its edges.
    pub open spec fn pair_ok(&self, i: int) -> bool {
        let a = self.nodes@[2 * i];
        let b = self.nodes@[2 * i + 1];
        &&& is_entrance(&self.base_grid, self.cluster_size as int, a, b)
        &&& self.edges@[2 * i]@.len() >= 1
        &&& is_crossing(self.edges@[2 * i]@[0], 2 * i + 1, a, b)
        &&& self.edges@[2 * i + 1]@.len() >= 1
        &&& is_crossing(self.edges@[2 * i + 1]@[0], 2 * i, b, a)
    }

    /// Whether the abstract nodes come in pairs, one pair for each entrance.
    pub open spec fn entrances_paired(&self) -> bool {
        &&& self.nodes@.len() % 2 == 0
        &&& self.edges@.len() == self.nodes@.len()
        &&& forall|i: int| 0 <= i && 2 * i + 1 < self.nodes@.len() ==> #[trigger] self.pair_ok(i)
    }

    /// The edges inside the cluster `cluster`: between every two of its
    /// abstract nodes, in the order of the cluster's list; none for a cluster
    /// that the grid does not have.
    pub open spec fn records_of(&self, cluster: int) -> Seq<RecordView> {
        if 0 <= cluster < self.cluster_nodes@.len() {
            cluster_records(
                &self.base_grid,
                self.nodes@,
                self.cluster_nodes@[cluster]@,
                self.cluster_nodes@[cluster]@.len() as int,
            )
        } else {
            Seq::empty()
        }
    }

    /// The links between the cell `end` and the abstract nodes of the
    /// cluster `cluster`, in the order of the cluster's list; none for no cluster.
    pub open spec fn reach_of(&self, cluster: Option<usize>, end: GridPos, towards: bool) -> Seq<LinkView> {
        match cluster {
            Some(c) => links_of(
                &self.base_grid,
                self.nodes@,
                self.cluster_nodes@[c as int]@,
                end,
                towards,
                self.cluster_nodes@[c as int]@.len() as int,
            ),
            None => Seq::empty(),
        }
    }

    /// The edges inside the first `n` clusters, cluster by cluster.
    pub open spec fn every_record(&self, n: int) -> Seq<RecordView>
        decreases n,
    {
        if n <= 0 {
            Seq::empty()
        } else {
            self.every_record(n - 1) + self.records_of(n - 1)
        }
    }

    /// The edges inside the first `n` of the clusters `clusters`, cluster by cluster.
    pub open spec fn active_records(&self, clusters: Seq<usize>, n: int) -> Seq<RecordView>
        decreases n,
    {
        if n <= 0 {
            Seq::empty()
        } else {
            self.active_records(clusters, n - 1) + self.records_of(clusters[n - 1] as int)
        }
    }

    /// A cluster added at the end of the list does not change the edges of the earlier ones.
    pub proof fn lemma_active_kept(&self, clusters: Seq<usize>, c: usize, n: int)
        requires
            n <= clusters.len(),
        ensures
            self.active_records(clusters.push(c), n) == self.active_records(clusters, n),
        decreases n,
    {
        if n > 0 {
            self.lemma_active_kept(clusters, c, n - 1);
        }
    }

    /// Whether every node of `self` has the edges it had in `old`, followed
    /// by those that `records` give it.
    pub open spec fn edges_stored(&self, old: &Self, records: Seq<RecordView>) -> bool {
        &&& self.edges@.len() == old.edges@.len()
        &&& forall|i: int|
            0 <= i < self.edges@.len() ==> edge_views((#[trigger] self.edges@[i])@) == edge_views(old.edges@[i]@)
                + stored_from(records, i, records.len() as int)
    }

    /// Whether `self` is `old` made ready: the entrances of all borders are
    /// added as nodes, every new node has the crossing of its entrance as its
    /// first edge, and after the edges a node had come those that the edges
    /// inside the clusters give it.
    pub open spec fn prepared_from(&self, old: &Self) -> bool {
        let records = self.every_record(self.cluster_nodes@.len() as int);
        &&& self.nodes@ == grown(old.nodes@, all_entrances(&old.base_grid, old.cluster_size as int))
        &&& self.cluster_nodes@.len() == old.cluster_nodes@.len()
        &&& self.entrances_paired()
        &&& forall|i: int|
            0 <= i < old.edges@.len() ==> edge_views((#[trigger] self.edges@[i])@) == edge_views(old.edges@[i]@)
                + stored_from(records, i, records.len() as int)
        &&& forall|k: int|
            old.edges@.len() <= k < self.edges@.len() ==> edge_views((#[trigger] self.edges@[k])@).len() >= 1
                && edge_views(self.edges@[k]@).skip(1) == stored_from(records, k, records.len() as int)
    }

    /// Whether `other` has the same grid, clusters and nodes as `self`.
    pub open spec fn same_frame(&self, other: &Self) -> bool {
        &&& self.base_grid == other.base_grid
        &&& self.cluster_size == other.cluster_size
        &&& self.cluster_cols == other.cluster_cols
        &&& self.cluster_rows == other.cluster_rows
        &&& self.cluster_nodes@.len() == other.cluster_nodes@.len()
    }

    /// The row-major index of the cluster that holds `pos`, if the grid has such a cluster.
    fn cluster_of(&self, pos: GridPos) -> (r: Option<usize>)
        requires
            self.cluster_size > 0,
        ensures
            r == cluster_index(
                self.cluster_size as int,
                self.cluster_cols as int,
                self.cluster_nodes@.len() as int,
                pos,
            ),
            r matches Some(c) ==> c < self.cluster_nodes@.len(),
    {
        if pos.x < 0 || pos.y < 0 {
            return None;
        }
        let cx: usize = pos.x as usize / self.cluster_size;
        let cy: usize = pos.y as usize / self.cluster_size;
        if cx >= self.cluster_cols {
            return None;
        }
        proof {
            assert(cy * self.cluster_cols <= 0x7fff_ffff * 0xffff_ffff_ffff_ffff) by (nonlinear_arith)
                requires
                    cy <= 0x7fff_ffff,
                    self.cluster_cols <= 0xffff_ffff_ffff_ffff,
            ;
        }
        let wide: u128 = (cy as u128) * (self.cluster_cols as u128) + (cx as u128);
        if wide < self.cluster_nodes.len() as u128 {
            Some(wide as usize)
        } else {
            None
        }
    }

    fn add_node(&mut self, pos: GridPos) -> (id: AbstractNodeId)
        requires
            old(self).well_formed(),
            old(self).nodes@.len() + 1 < usize::MAX - 1,
            !old(self).base_grid.blocked(pos.x as int, pos.y as int),
        ensures
            final(self).well_formed(),
            final(self).same_frame(old(self)),
            id.0 == old(self).nodes@.len(),
            final(self).nodes@ == old(self).nodes@.push(pos),
            final(self).edges@.len() == old(self).edges@.len() + 1,
            final(self).edges@.last()@.len() == 0,
            forall|i: int| 0 <= i < old(self).edges@.len() ==> final(self).edges@[i] == old(self).edges@[i],
    {
        let id = AbstractNodeId(self.nodes.len());
        self.nodes.push(pos);
        self.edges.push(Vec::new());
        let cluster: Option<usize> = self.cluster_of(pos);
        let count: usize = self.cluster_nodes.len();
        let ghost mid = *self;
        match cluster {
            Some(c) => {
                self.cluster_nodes[c].push(id);
            },
            None => {},
        }
        proof {
            assert forall|c: int| 0 <= c < self.cluster_nodes@.len() implies (#[trigger] self.cluster_nodes@[c])@
                == members(
                self.nodes@,
                self.cluster_size as int,
                self.cluster_cols as int,
                self.cluster_nodes@.len() as int,
                c,
                self.nodes@.len() as int,
            ) by {
                lemma_members_kept(
                    old(self).nodes@,
                    pos,
                    self.cluster_size as int,
                    self.cluster_cols as int,
                    self.cluster_nodes@.len() as int,
                    c,
                    old(self).nodes@.len() as int,
                );
                assert(old(self).cluster_nodes@[c]@ == members(
                    old(self).nodes@,
                    self.cluster_size as int,
                    self.cluster_cols as int,
                    self.cluster_nodes@.len() as int,
                    c,
                    old(self).nodes@.len() as int,
                ));
                let n = old(self).nodes@.len() as int;
                assert(self.nodes@[n] == pos);
                assert(id == AbstractNodeId(n as usize));
                assert(mid.cluster_nodes@ == old(self).cluster_nodes@);
                if cluster == Some(c as usize) {
                    let cv = cluster->0;
                    assert(cv as int == c);
                    assert(self.cluster_nodes@[cv as int]@ == mid.cluster_nodes@[cv as int]@.push(id));
                } else {
                    assert(self.cluster_nodes@[c] == old(self).cluster_nodes@[c]);
                }
            }
            assert forall|i: int, j: int|
                0 <= i < self.edges@.len() && 0 <= j < self.edges@[i]@.len() implies #[trigger] self.edge_ok(
                i,
                j,
            ) by {
                assert(old(self).edge_ok(i, j));
            }
            assert forall|c: int, j: int|
                0 <= c < self.cluster_nodes@.len() && 0 <= j < self.cluster_nodes@[c]@.len() implies (
            #[trigger] self.cluster_nodes@[c]@[j]).0 < self.nodes@.len() by {
                if cluster == Some(c as usize) {
                    if j < old(self).cluster_nodes@[c]@.len() {
                        assert(self.cluster_nodes@[c]@[j] == old(self).cluster_nodes@[c]@[j]);
                    }
                } else {
                    assert(self.cluster_nodes@[c] == old(self).cluster_nodes@[c]);
                }
            }
        }
        id
    }

    fn add_edge(&mut self, from: AbstractNodeId, to: AbstractNodeId, cost: Cost, path: Vec<GridPos>)
        requires
            old(self).well_formed(),
            from.0 < old(self).nodes@.len(),
            to.0 < old(self).nodes@.len(),
            joins(
                &old(self).base_grid,
                path@,
                old(self).nodes@[from.0 as int],
                old(self).nodes@[to.0 as int],
            ),
        ensures
            final(self).well_formed(),
            final(self).same_frame(old(self)),
            final(self).nodes@ == old(self).nodes@,
            final(self).cluster_nodes@ == old(self).cluster_nodes@,
            final(self).edges@.len() == old(self).edges@.len(),
            final(self).edges@[from.0 as int]@ == old(self).edges@[from.0 as int]@.push(
                AbstractEdge { target: to, cost, path },
            ),
            forall|i: int|
                0 <= i < old(self).edges@.len() && i != from.0 ==> final(self).edges@[i] == old(self).edges@[i],
            old(self).entrances_paired() && old(self).edges@[from.0 as int]@.len() >= 1
                ==> final(self).entrances_paired(),
    {
        self.edges[from.0].push(AbstractEdge { target: to, cost, path });
        proof {
            if old(self).entrances_paired() && old(self).edges@[from.0 as int]@.len() >= 1 {
                assert forall|i: int| 0 <= i && 2 * i + 1 < self.nodes@.len() implies #[trigger] self.pair_ok(
                    i,
                ) by {
                    assert(old(self).pair_ok(i));
                }
            }
        }
        proof {
            assert forall|i: int, j: int|
                0 <= i < self.edges@.len() && 0 <= j < self.edges@[i]@.len() implies #[trigger] self.edge_ok(
                i,
                j,
            ) by {
                if i == from.0 {
                    if j < old(self).edges@[i]@.len() {
                        assert(old(self).edge_ok(i, j));
                    }
                } else {
                    assert(self.edges@[i] == old(self).edges@[i]);
                    assert(old(self).edge_ok(i, j));
                }
            }
        }
    }

    /// Places one node on each side of the border at the middle of the span
    /// from `start` to `end`, and joins the two by an edge of cost `COST_ONE`
    /// each way. Does nothing where the node list has no room for the two.
    fn create_entrance(
        &mut self,
        start: usize,
        end: usize,
        fixed: usize,
        is_vertical: bool,
        Ghost(k): Ghost<int>,
        Ghost(q): Ghost<int>,
    )
        requires
            old(self).well_formed(),
            old(self).entrances_paired(),
            start <= end,
            k >= 1,
            fixed + 1 == k * old(self).cluster_size,
            q >= 0,
            q * old(self).cluster_size <= start,
            end < q * old(self).cluster_size + old(self).cluster_size,
            forall|i: int| start <= i <= end ==> border_open(&old(self).base_grid, fixed as int, i, is_vertical),
            start == q * old(self).cluster_size || !border_open(
                &old(self).base_grid,
                fixed as int,
                start - 1,
                is_vertical,
            ),
            end + 1 == q * old(self).cluster_size + old(self).cluster_size || !border_open(
                &old(self).base_grid,
                fixed as int,
                end + 1,
                is_vertical,
            ),
        ensures
            final(self).well_formed(),
            final(self).same_frame(old(self)),
            final(self).entrances_paired(),
            final(self).entrances_added(
                old(self),
                seq![entrance_pair(fixed as int, start as int, end as int, is_vertical)],
            ),
    {
        let ghost pair = entrance_pair(fixed as int, start as int, end as int, is_vertical);
        let ghost one: Seq<(GridPos, GridPos)> = seq![pair];
        proof {
            assert(one.drop_last() =~= Seq::<(GridPos, GridPos)>::empty());
            assert(grown(self.nodes@, one.drop_last()) == self.nodes@);
        }
        if self.nodes.len() >= usize::MAX - 4 {
            return ;
        }
        let mid: usize = start + (end - start) / 2;
        proof {
            assert(border_open(&self.base_grid, fixed as int, mid as int, is_vertical));
        }
        let (pos1, pos2) = if is_vertical {
            (
                GridPos { x: fixed as i32, y: mid as i32 },
                GridPos { x: (fixed + 1) as i32, y: mid as i32 },
            )
        } else {
            (
                GridPos { x: mid as i32, y: fixed as i32 },
                GridPos { x: mid as i32, y: (fixed + 1) as i32 },
            )
        };
        proof {
            assert(pair == (pos1, pos2));
            assert(entrance_at(
                &self.base_grid,
                self.cluster_size as int,
                pos1,
                pos2,
                fixed as int,
                start as int,
                end as int,
                is_vertical,
                k,
                q,
            ));
        }
        let id1 = self.add_node(pos1);
        let id2 = self.add_node(pos2);
        let there: Vec<GridPos> = vec![pos1, pos2];
        let back: Vec<GridPos> = vec![pos2, pos1];
        proof {
            let grid = &self.base_grid;
            if is_vertical {
                lemma_cardinal_step_connects(grid, pos1, 1, 0);
                lemma_cardinal_step_connects(grid, pos2, -1, 0);
            } else {
                lemma_cardinal_step_connects(grid, pos1, 0, 1);
                lemma_cardinal_step_connects(grid, pos2, 0, -1);
            }
            assert(there@[0] == pos1 && there@[1] == pos2);
            assert(back@[0] == pos2 && back@[1] == pos1);
            assert(joins(grid, there@, pos1, pos2));
            assert(joins(grid, back@, pos2, pos1));
        }
        self.add_edge(id1, id2, COST_ONE, there);
        self.add_edge(id2, id1, COST_ONE, back);
        proof {
            let n = old(self).nodes@.len() as int;
            assert(there@ =~= seq![pos1, pos2]);
            assert(back@ =~= seq![pos2, pos1]);
            assert(self.edges@[n]@ =~= seq![AbstractEdge { target: id2, cost: COST_ONE, path: there }]);
            assert(self.edges@[n + 1]@ =~= seq![AbstractEdge { target: id1, cost: COST_ONE, path: back }]);
            assert forall|i: int| 0 <= i && 2 * i + 1 < self.nodes@.len() implies #[trigger] self.pair_ok(i) by {
                if 2 * i + 1 < n {
                    assert(old(self).pair_ok(i));
                    assert(self.edges@[2 * i] == old(self).edges@[2 * i]);
                    assert(self.edges@[2 * i + 1] == old(self).edges@[2 * i + 1]);
                } else {
                    assert(2 * i == n);
                }
            }
            assert(self.nodes@ == old(self).nodes@.push(pos1).push(pos2));
        }
    }

    /// Scans the positions `range_start` up to `range_end` of a border for
    /// maximal spans of open cell pairs and creates one entrance for each.
    fn detect_entrances(
        &mut self,
        fixed: usize,
        range_start: usize,
        range_end: usize,
        is_vertical: bool,
        Ghost(k): Ghost<int>,
        Ghost(q): Ghost<int>,
    )
        requires
            old(self).well_formed(),
            old(self).entrances_paired(),
            fixed < usize::MAX,
            k >= 1,
            fixed + 1 == k * old(self).cluster_size,
            q >= 0,
            range_start == q * old(self).cluster_size,
            range_end <= range_start + old(self).cluster_size,
            range_end == range_start + old(self).cluster_size || !border_open(
                &old(self).base_grid,
                fixed as int,
                range_end as int,
                is_vertical,
            ),
        ensures
            final(self).well_formed(),
            final(self).same_frame(old(self)),
            final(self).entrances_paired(),
            final(self).entrances_added(
                old(self),
                scanned(
                    &old(self).base_grid,
                    fixed as int,
                    is_vertical,
                    range_start as int,
                    range_end as int,
                    None,
                ),
            ),
    {
        let mut start_idx: Option<usize> = None;
        let mut i: usize = range_start;
        let ghost grid = &old(self).base_grid;
        let ghost mut acc: Seq<(GridPos, GridPos)> = Seq::empty();
        let ghost whole = scanned(grid, fixed as int, is_vertical, range_start as int, range_end as int, None);
        proof {
            assert(acc + whole =~= whole);
        }
        while i < range_end
            invariant
                self.well_formed(),
                self.entrances_paired(),
                self.same_frame(old(self)),
                grid == &old(self).base_grid,
                old(self).edges@.len() == old(self).nodes@.len(),
                fixed < usize::MAX,
                k >= 1,
                fixed + 1 == k * self.cluster_size,
                q >= 0,
                range_start == q * self.cluster_size,
                range_end <= range_start + self.cluster_size,
                range_start <= i,
                range_start <= range_end ==> i <= range_end,
                start_idx is Some ==> range_start < range_end,
                range_end == range_start + self.cluster_size || !border_open(
                    &self.base_grid,
                    fixed as int,
                    range_end as int,
                    is_vertical,
                ),
                start_idx matches Some(s) ==> {
                    &&& range_start <= s < i
                    &&& forall|j: int| s <= j < i ==> border_open(&self.base_grid, fixed as int, j, is_vertical)
                    &&& s == range_start || !border_open(&self.base_grid, fixed as int, s - 1, is_vertical)
                },
                start_idx is None && i > range_start ==> !border_open(
                    &self.base_grid,
                    fixed as int,
                    i - 1,
                    is_vertical,
                ),
                self.entrances_added(old(self), acc),
                whole == acc + scanned(
                    grid,
                    fixed as int,
                    is_vertical,
                    i as int,
                    range_end as int,
                    match start_idx {
                        Some(s) => Some(s as int),
                        None => None,
                    },
                ),
            decreases range_end - i,
        {
            let passable: bool = if is_vertical {
                !self.base_grid.cell_blocked(fixed, i) && !self.base_grid.cell_blocked(fixed + 1, i)
            } else {
                !self.base_grid.cell_blocked(i, fixed) && !self.base_grid.cell_blocked(i, fixed + 1)
            };
            proof {
                assert(passable == border_open(grid, fixed as int, i as int, is_vertical));
            }
            if passable {
                if start_idx.is_none() {
                    start_idx = Some(i);
                }
            } else {
                if let Some(s) = start_idx {
                    let ghost mid = *self;
                    let ghost one: Seq<(GridPos, GridPos)> = seq![
                        entrance_pair(fixed as int, s as int, i - 1, is_vertical),
                    ];
                    let ghost rest = scanned(grid, fixed as int, is_vertical, i + 1, range_end as int, None);
                    self.create_entrance(s, i - 1, fixed, is_vertical, Ghost(k), Ghost(q));
                    proof {
                        Self::lemma_added_twice(old(self), &mid, self, acc, one);
                        assert(acc + (one + rest) =~= (acc + one) + rest);
                        acc = acc + one;
                    }
                    start_idx = None;
                } else {
                    proof {
                        let rest = scanned(grid, fixed as int, is_vertical, i + 1, range_end as int, None);
                        assert(Seq::<(GridPos, GridPos)>::empty() + rest =~= rest);
                    }
                }
            }
            i += 1;
        }
        if let Some(s) = start_idx {
            let ghost mid = *self;
            let ghost one: Seq<(GridPos, GridPos)> = seq![entrance_pair(fixed as int, s as int, i - 1, is_vertical)];
            self.create_entrance(s, i - 1, fixed, is_vertical, Ghost(k), Ghost(q));
            proof {
                Self::lemma_added_twice(old(self), &mid, self, acc, one);
            }
        } else {
            proof {
                assert(acc + Seq::<(GridPos, GridPos)>::empty() =~= acc);
            }
        }
    }

    /// Creates the entrances of every border between two clusters: first of
    /// the vertical borders, row of clusters by row, then of the horizontal ones.
    fn build_abstract_nodes(&mut self)
        requires
            old(self).well_formed(),
            old(self).entrances_paired(),
        ensures
            final(self).well_formed(),
            final(self).same_frame(old(self)),
            final(self).entrances_paired(),
            final(self).entrances_added(
                old(self),
                all_entrances(&old(self).base_grid, old(self).cluster_size as int),
            ),
    {
        let w: usize = self.base_grid.width;
        let h: usize = self.base_grid.height;
        let cs: usize = self.cluster_size;
        let ghost grid = &old(self).base_grid;
        let ghost mut acc: Seq<(GridPos, GridPos)> = Seq::empty();
        let ghost upright = vertical_entrances(grid, cs as int, 0);
        let ghost level = horizontal_entrances(grid, cs as int, cs as int);
        let mut y_start: usize = 0;
        let ghost mut q: int = 0;
        proof {
            assert(0 * cs == 0) by (nonlinear_arith);
            assert(acc + upright =~= upright);
            assert(grown(self.nodes@, acc) == self.nodes@);
        }
        while y_start < h
            invariant
                self.well_formed(),
                self.entrances_paired(),
                self.same_frame(old(self)),
                grid == &old(self).base_grid,
                old(self).edges@.len() == old(self).nodes@.len(),
                w == self.base_grid.width,
                h == self.base_grid.height,
                cs == self.cluster_size,
                q >= 0,
                y_start == q * cs || y_start >= h,
                self.entrances_added(old(self), acc),
                upright == acc + vertical_entrances(grid, cs as int, y_start as int),
            decreases h - y_start,
        {
            let y_end: usize = if h - y_start <= cs { h } else { y_start + cs };
            let mut px_next: usize = cs;
            let mut more: bool = true;
            let ghost mut k: int = 1;
            let ghost below = vertical_entrances(grid, cs as int, y_end as int);
            proof {
                assert(1 * cs == cs) by (nonlinear_arith);
                assert(y_end == stretch_end(h as int, y_start as int, cs as int));
                let row = row_entrances(grid, cs as int, y_start as int, y_end as int, cs as int);
                assert(acc + (row + below) =~= (acc + row) + below);
            }
            while more && px_next < w
                invariant
                    self.well_formed(),
                    self.entrances_paired(),
                    self.same_frame(old(self)),
                    grid == &old(self).base_grid,
                    old(self).edges@.len() == old(self).nodes@.len(),
                    w == self.base_grid.width,
                    h == self.base_grid.height,
                    cs == self.cluster_size,
                    cs > 0,
                    px_next >= 1,
                    k >= 1,
                    px_next == k * cs,
                    q >= 0,
                    y_start == q * cs,
                    y_start < h,
                    y_end == (if h - y_start <= cs { h } else { (y_start + cs) as usize }),
                    self.entrances_added(old(self), acc),
                    upright == acc + (if more {
                        row_entrances(grid, cs as int, y_start as int, y_end as int, px_next as int)
                    } else {
                        Seq::empty()
                    }) + below,
                decreases w - px_next + (if more { 1int } else { 0int }),
            {
                let ghost mid = *self;
                let ghost found = scanned(grid, px_next - 1, true, y_start as int, y_end as int, None);
                let ghost after: Seq<(GridPos, GridPos)> = if w - px_next <= cs {
                    Seq::empty()
                } else {
                    row_entrances(grid, cs as int, y_start as int, y_end as int, px_next + cs)
                };
                self.detect_entrances(px_next - 1, y_start, y_end, true, Ghost(k), Ghost(q));
                proof {
                    Self::lemma_added_twice(old(self), &mid, self, acc, found);
                    assert((acc + (found + after)) + below =~= ((acc + found) + after) + below);
                    acc = acc + found;
                }
                if w - px_next <= cs {
                    more = false;
                } else {
                    proof {
                        assert((k + 1) * cs == k * cs + cs) by (nonlinear_arith);
                        k = k + 1;
                    }
                    px_next = px_next + cs;
                }
            }
            proof {
                assert((q + 1) * cs == q * cs + cs) by (nonlinear_arith);
                q = q + 1;
                assert((acc + Seq::<(GridPos, GridPos)>::empty()) + below =~= acc + below);
            }
            y_start = y_end;
        }
        let ghost first = acc;
        let ghost mut flat: Seq<(GridPos, GridPos)> = Seq::empty();
        let mut py_next: usize = cs;
        let mut more: bool = true;
        let ghost mut k: int = 1;
        proof {
            assert(1 * cs == cs) by (nonlinear_arith);
            assert(first + Seq::<(GridPos, GridPos)>::empty() =~= first);
            assert(first =~= upright);
            assert(first + flat =~= acc);
            assert(flat + level =~= level);
        }
        while more && py_next < h
            invariant
                self.well_formed(),
                self.entrances_paired(),
                self.same_frame(old(self)),
                grid == &old(self).base_grid,
                old(self).edges@.len() == old(self).nodes@.len(),
                w == self.base_grid.width,
                h == self.base_grid.height,
                cs == self.cluster_size,
                cs > 0,
                py_next >= 1,
                k >= 1,
                py_next == k * cs,
                first == upright,
                acc == first + flat,
                self.entrances_added(old(self), acc),
                level == flat + (if more {
                    horizontal_entrances(grid, cs as int, py_next as int)
                } else {
                    Seq::empty()
                }),
            decreases h - py_next + (if more { 1int } else { 0int }),
        {
            let mut x_start: usize = 0;
            let ghost mut q: int = 0;
            let ghost later: Seq<(GridPos, GridPos)> = if h - py_next <= cs {
                Seq::empty()
            } else {
                horizontal_entrances(grid, cs as int, py_next + cs)
            };
            proof {
                assert(0 * cs == 0) by (nonlinear_arith);
                let border = border_entrances(grid, cs as int, py_next as int, 0);
                assert(flat + (border + later) =~= (flat + border) + later);
            }
            while x_start < w
                invariant
                    self.well_formed(),
                    self.entrances_paired(),
                    self.same_frame(old(self)),
                    grid == &old(self).base_grid,
                    old(self).edges@.len() == old(self).nodes@.len(),
                    w == self.base_grid.width,
                    h == self.base_grid.height,
                    cs == self.cluster_size,
                    py_next >= 1,
                    py_next < h,
                    k >= 1,
                    py_next == k * cs,
                    q >= 0,
                    x_start == q * cs || x_start >= w,
                    first == upright,
                    acc == first + flat,
                    self.entrances_added(old(self), acc),
                    level == flat + border_entrances(grid, cs as int, py_next as int, x_start as int) + later,
                decreases w - x_start,
            {
                let x_end: usize = if w - x_start <= cs { w } else { x_start + cs };
                let ghost mid = *self;
                let ghost found = scanned(grid, py_next - 1, false, x_start as int, x_end as int, None);
                let ghost rest = border_entrances(grid, cs as int, py_next as int, x_end as int);
                proof {
                    assert(x_end == stretch_end(w as int, x_start as int, cs as int));
                }
                self.detect_entrances(py_next - 1, x_start, x_end, false, Ghost(k), Ghost(q));
                proof {
                    Self::lemma_added_twice(old(self), &mid, self, acc, found);
                    assert((flat + (found + rest)) + later =~= ((flat + found) + rest) + later);
                    assert(first + (flat + found) =~= (first + flat) + found);
                    flat = flat + found;
                    acc = acc + found;
                    assert((q + 1) * cs == q * cs + cs) by (nonlinear_arith);
                    q = q + 1;
                }
                x_start = x_end;
            }
            proof {
                assert((flat + Seq::<(GridPos, GridPos)>::empty()) + later =~= flat + later);
            }
            if h - py_next <= cs {
                more = false;
            } else {
                proof {
                    assert((k + 1) * cs == k * cs + cs) by (nonlinear_arith);
                    k = k + 1;
                }
                py_next = py_next + cs;
            }
        }
        proof {
            assert(flat + Seq::<(GridPos, GridPos)>::empty() =~= flat);
            assert(acc == all_entrances(grid, cs as int));
        }
    }

    /// Finds a path between every two abstract nodes of a cluster, and
    /// returns an edge each way for every pair that is joined.
    pub fn process_cluster(&self, cluster: usize) -> (r: Vec<ClusterEdge>)
        requires
            self.well_formed(),
        ensures
            self.records_ok(r@),
            record_views(r@) == self.records_of(cluster as int),
    {
        let mut local_edges: Vec<ClusterEdge> = Vec::new();
        if cluster >= self.cluster_nodes.len() {
            proof {
                assert(record_views(local_edges@) =~= Seq::<RecordView>::empty());
            }
            return local_edges;
        }
        let heuristic = Manhattan;
        let n: usize = self.cluster_nodes[cluster].len();
        let ghost list = self.cluster_nodes@[cluster as int]@;
        let ghost grid = &self.base_grid;
        let ghost mut model: Seq<RecordView> = Seq::empty();
        let mut i: usize = 0;
        proof {
            assert(record_views(local_edges@) =~= model);
        }
        while i < n
            invariant
                self.well_formed(),
                cluster < self.cluster_nodes@.len(),
                n == self.cluster_nodes@[cluster as int]@.len(),
                list == self.cluster_nodes@[cluster as int]@,
                grid == &self.base_grid,
                i <= n,
                self.records_ok(local_edges@),
                record_views(local_edges@) == model,
                model == cluster_records(grid, self.nodes@, list, i as int),
            decreases n - i,
        {
            let mut j: usize = i + 1;
            let ghost done = model;
            proof {
                assert(model =~= done + row_records(grid, self.nodes@, list, i as int, j as int));
            }
            while j < n
                invariant
                    self.well_formed(),
                    cluster < self.cluster_nodes@.len(),
                    n == self.cluster_nodes@[cluster as int]@.len(),
                    list == self.cluster_nodes@[cluster as int]@,
                    grid == &self.base_grid,
                    i < n,
                    i < j <= n,
                    self.records_ok(local_edges@),
                    record_views(local_edges@) == model,
                    done == cluster_records(grid, self.nodes@, list, i as int),
                    model == done + row_records(grid, self.nodes@, list, i as int, j as int),
                decreases n - j,
            {
                let id_a: AbstractNodeId = self.cluster_nodes[cluster][i];
                let id_b: AbstractNodeId = self.cluster_nodes[cluster][j];
                let pos_a: GridPos = self.nodes[id_a.0];
                let pos_b: GridPos = self.nodes[id_b.0];
                let config = AStarConfig::default();
                let result = astar(&self.base_grid, &heuristic, pos_a, pos_b, config);
                let ghost found = pair_records(grid, self.nodes@, id_a, id_b);
                let ghost row = row_records(grid, self.nodes@, list, i as int, j as int);
                proof {
                    assert(config == usual_config());
                    assert(result@ == astar_outcome(grid, &Manhattan, pos_a, pos_b, usual_config()));
                    assert(row_records(grid, self.nodes@, list, i as int, j + 1) == row + found);
                    assert((done + row) + found =~= done + (row + found));
                }
                if result.status == PathStatus::Found {
                    let rev: Vec<GridPos> = reversed(&result.path);
                    proof {
                        lemma_route_joins(&self.base_grid, result.path@, pos_a, result.cost);
                        lemma_reverse_joins(&self.base_grid, result.path@, pos_a, pos_b);
                    }
                    let ghost before = local_edges@;
                    let there = ClusterEdge { from: id_a, to: id_b, cost: result.cost, path: result.path };
                    let back = ClusterEdge { from: id_b, to: id_a, cost: result.cost, path: rev };
                    local_edges.push(there);
                    local_edges.push(back);
                    proof {
                        assert forall|k: int| 0 <= k < local_edges@.len() implies self.record_ok(
                            #[trigger] local_edges@[k],
                        ) by {
                            if k < before.len() {
                                assert(local_edges@[k] == before[k]);
                            }
                        }
                        assert(record_views(local_edges@) =~= model + found) by {
                            assert forall|k: int| 0 <= k < before.len() implies record_views(local_edges@)[k]
                                == model[k] by {
                                assert(local_edges@[k] == before[k]);
                                assert(record_views(before)[k] == before[k]@);
                            }
                        }
                        model = model + found;
                    }
                } else {
                    proof {
                        assert(model + found =~= model);
                    }
                }
                j += 1;
            }
            proof {
                assert(cluster_records(grid, self.nodes@, list, i + 1) == done + row_records(
                    grid,
                    self.nodes@,
                    list,
                    i as int,
                    list.len() as int,
                ));
            }
            i += 1;
        }
        local_edges
    }

    /// Runs `process_cluster` on every cluster of `clusters` through
    /// rayon's `par_iter`, `map` and `collect`, which hands the results back
    /// in the order of `clusters`. What is claimed of each result is what
    /// `process_cluster` ensures.
    #[verifier::external_body]
    fn process_clusters_parallel(&self, clusters: &Vec<usize>) -> (r: Vec<Vec<ClusterEdge>>)
        requires
            self.well_formed(),
        ensures
            r@.len() == clusters@.len(),
            forall|i: int|
                0 <= i < r@.len() ==> self.records_ok(#[trigger] r@[i]@) && record_views(r@[i]@)
                    == self.records_of(clusters@[i] as int),
    {
        clusters.par_iter().map(|c| self.process_cluster(*c)).collect()
    }

    /// Finds the edges inside every cluster that has nodes, in parallel
    /// when there are more than fifty such clusters, and stores them cluster
    /// by cluster.
    fn build_intra_cluster_edges(&mut self)
        requires
            old(self).well_formed(),
            old(self).entrances_paired(),
        ensures
            final(self).well_formed(),
            final(self).same_frame(old(self)),
            final(self).nodes@ == old(self).nodes@,
            final(self).cluster_nodes@ == old(self).cluster_nodes@,
            final(self).entrances_paired(),
            final(self).edges_stored(old(self), old(self).every_record(old(self).cluster_nodes@.len() as int)),
    {
        let mut clusters: Vec<usize> = Vec::new();
        let mut c: usize = 0;
        while c < self.cluster_nodes.len()
            invariant
                c <= self.cluster_nodes@.len(),
                self.active_records(clusters@, clusters@.len() as int) == self.every_record(c as int),
            decreases self.cluster_nodes@.len() - c,
        {
            let ghost before = clusters@;
            if self.cluster_nodes[c].len() > 0 {
                clusters.push(c);
                proof {
                    self.lemma_active_kept(before, c, before.len() as int);
                }
            } else {
                proof {
                    assert(self.records_of(c as int) =~= Seq::<RecordView>::empty());
                    assert(self.every_record(c as int) + self.records_of(c as int) =~= self.every_record(c as int));
                }
            }
            c += 1;
        }
        let new_edges: Vec<Vec<ClusterEdge>> = if clusters.len() > 50 {
            self.process_clusters_parallel(&clusters)
        } else {
            let mut all: Vec<Vec<ClusterEdge>> = Vec::new();
            let mut k: usize = 0;
            while k < clusters.len()
                invariant
                    self.well_formed(),
                    k <= clusters@.len(),
                    all@.len() == k,
                    forall|i: int|
                        0 <= i < all@.len() ==> self.records_ok(#[trigger] all@[i]@) && record_views(all@[i]@)
                            == self.records_of(clusters@[i] as int),
                decreases clusters@.len() - k,
            {
                let found = self.process_cluster(clusters[k]);
                all.push(found);
                k += 1;
            }
            all
        };
        let ghost every = self.every_record(self.cluster_nodes@.len() as int);
        let ghost mut applied: Seq<RecordView> = Seq::empty();
        let mut a: usize = 0;
        proof {
            assert forall|i: int| 0 <= i < self.edges@.len() implies edge_views((#[trigger] self.edges@[i])@)
                == edge_views(old(self).edges@[i]@) + stored_from(applied, i, applied.len() as int) by {
                assert(edge_views(self.edges@[i]@) + Seq::<EdgeView>::empty() =~= edge_views(self.edges@[i]@));
            }
        }
        while a < new_edges.len()
            invariant
                self.well_formed(),
                self.entrances_paired(),
                self.same_frame(old(self)),
                self.nodes@ == old(self).nodes@,
                self.cluster_nodes@ == old(self).cluster_nodes@,
                self.base_grid == old(self).base_grid,
                a <= new_edges@.len(),
                new_edges@.len() == clusters@.len(),
                every == old(self).active_records(clusters@, clusters@.len() as int),
                forall|i: int|
                    0 <= i < new_edges@.len() ==> old(self).records_ok(#[trigger] new_edges@[i]@) && record_views(
                        new_edges@[i]@,
                    ) == old(self).records_of(clusters@[i] as int),
                applied == old(self).active_records(clusters@, a as int),
                self.edges_stored(old(self), applied),
            decreases new_edges@.len() - a,
        {
            let mut b: usize = 0;
            let ghost done = applied;
            let ghost here = record_views(new_edges@[a as int]@);
            proof {
                assert(applied =~= done + here.take(0));
            }
            while b < new_edges[a].len()
                invariant
                    self.well_formed(),
                    self.entrances_paired(),
                    self.same_frame(old(self)),
                    self.nodes@ == old(self).nodes@,
                    self.cluster_nodes@ == old(self).cluster_nodes@,
                    self.base_grid == old(self).base_grid,
                    a < new_edges@.len(),
                    b <= new_edges@[a as int]@.len(),
                    here == record_views(new_edges@[a as int]@),
                    forall|i: int|
                        0 <= i < new_edges@.len() ==> old(self).records_ok(#[trigger] new_edges@[i]@)
                            && record_views(new_edges@[i]@) == old(self).records_of(clusters@[i] as int),
                    applied == done + here.take(b as int),
                    self.edges_stored(old(self), applied),
                decreases new_edges@[a as int]@.len() - b,
            {
                proof {
                    assert(old(self).records_ok(new_edges@[a as int]@));
                    assert(old(self).record_ok(new_edges@[a as int]@[b as int]));
                    let half = new_edges@[a as int]@[b as int].from.0 as int / 2;
                    assert(self.pair_ok(half));
                }
                let from: AbstractNodeId = new_edges[a][b].from;
                let to: AbstractNodeId = new_edges[a][b].to;
                let cost: Cost = new_edges[a][b].cost;
                let path: Vec<GridPos> = copy_path(&new_edges[a][b].path);
                let ghost prev = *self;
                let ghost record = new_edges@[a as int]@[b as int]@;
                let ghost grown_records = applied.push(record);
                self.add_edge(from, to, cost, path);
                proof {
                    assert(here[b as int] == record);
                    assert(here.take(b + 1) =~= here.take(b as int).push(record));
                    assert(done + here.take(b + 1) =~= (done + here.take(b as int)).push(record));
                    assert forall|i: int| 0 <= i < self.edges@.len() implies edge_views(
                        (#[trigger] self.edges@[i])@,
                    ) == edge_views(old(self).edges@[i]@) + stored_from(
                        grown_records,
                        i,
                        grown_records.len() as int,
                    ) by {
                        lemma_stored_kept(applied, record, i, applied.len() as int);
                        let given = stored_from(applied, i, applied.len() as int);
                        assert(edge_views(prev.edges@[i]@) == edge_views(old(self).edges@[i]@) + given);
                        if i == from.0 {
                            let e = AbstractEdge { target: to, cost, path };
                            assert(self.edges@[i]@ == prev.edges@[i]@.push(e));
                            assert(edge_views(self.edges@[i]@) =~= edge_views(prev.edges@[i]@).push(e@));
                            assert((edge_views(old(self).edges@[i]@) + given).push(e@) =~= edge_views(
                                old(self).edges@[i]@,
                            ) + given.push(e@));
                        } else {
                            assert(self.edges@[i] == prev.edges@[i]);
                        }
                    }
                    applied = grown_records;
                }
                b += 1;
            }
            proof {
                assert(here.take(here.len() as int) =~= here);
            }
            a += 1;
        }
    }

    /// Cuts `base_grid` into clusters of side `cluster_size` and prepares
    /// the abstract graph.
    pub fn new(base_grid: Grid2D, cluster_size: usize) -> (r: Self)
        requires
            base_grid.well_formed(),
            cluster_size > 0,
        ensures
            r.well_formed(),
            r.entrances_paired(),
            r.freshly_made(),
            r.base_grid == base_grid,
            r.cluster_size == cluster_size,
            r.nodes@ == grown(Seq::empty(), all_entrances(&base_grid, cluster_size as int)),
            forall|k: int|
                0 <= k < r.edges@.len() ==> edge_views((#[trigger] r.edges@[k])@).len() >= 1 && edge_views(
                    r.edges@[k]@,
                ).skip(1) == stored_from(
                    r.every_record(r.cluster_nodes@.len() as int),
                    k,
                    r.every_record(r.cluster_nodes@.len() as int).len() as int,
                ),
    {
        let w: usize = base_grid.width;
        let h: usize = base_grid.height;
        let whole_cols: usize = w / cluster_size;
        let whole_rows: usize = h / cluster_size;
        let cols: usize = if w % cluster_size != 0 && whole_cols < usize::MAX {
            whole_cols + 1
        } else {
            whole_cols
        };
        let rows: usize = if h % cluster_size != 0 && whole_rows < usize::MAX {
            whole_rows + 1
        } else {
            whole_rows
        };
        let mut cluster_nodes: Vec<Vec<AbstractNodeId>> = Vec::new();
        let mut row: usize = 0;
        while row < rows
            invariant
                forall|c: int| 0 <= c < cluster_nodes@.len() ==> (#[trigger] cluster_nodes@[c])@.len() == 0,
            decreases rows - row,
        {
            let mut col: usize = 0;
            while col < cols
                invariant
                    forall|c: int| 0 <= c < cluster_nodes@.len() ==> (#[trigger] cluster_nodes@[c])@.len() == 0,
                decreases cols - col,
            {
                cluster_nodes.push(Vec::new());
                col += 1;
            }
            row += 1;
        }
        let mut hp = HierarchicalGrid {
            base_grid,
            cluster_size,
            nodes: Vec::new(),
            edges: Vec::new(),
            cluster_nodes,
            cluster_cols: cols,
            cluster_rows: rows,
        };
        proof {
            assert forall|c: int| 0 <= c < hp.cluster_nodes@.len() implies (#[trigger] hp.cluster_nodes@[c])@
                == members(
                hp.nodes@,
                hp.cluster_size as int,
                hp.cluster_cols as int,
                hp.cluster_nodes@.len() as int,
                c,
                hp.nodes@.len() as int,
            ) by {
                assert(hp.cluster_nodes@[c]@ =~= Seq::<AbstractNodeId>::empty());
            }
        }
        let ghost fresh = hp;
        hp.preprocess();
        proof {
            assert(fresh.nodes@ =~= Seq::<GridPos>::empty());
            assert(hp.prepared_from(&fresh));
        }
        hp
    }

    fn preprocess(&mut self)
        requires
            old(self).well_formed(),
            old(self).entrances_paired(),
        ensures
            final(self).well_formed(),
            final(self).entrances_paired(),
            final(self).same_frame(old(self)),
            final(self).prepared_from(old(self)),
    {
        self.build_abstract_nodes();
        let ghost mid = *self;
        self.build_intra_cluster_edges();
        proof {
            let count = self.cluster_nodes@.len() as int;
            let records = self.every_record(count);
            Self::lemma_same_records(&mid, self, count);
            assert forall|k: int| old(self).edges@.len() <= k < self.edges@.len() implies edge_views(
                (#[trigger] self.edges@[k])@,
            ).len() >= 1 && edge_views(self.edges@[k]@).skip(1) == stored_from(
                records,
                k,
                records.len() as int,
            ) by {
                let given = stored_from(records, k, records.len() as int);
                assert(mid.edges@[k]@.len() == 1);
                assert(edge_views(self.edges@[k]@) == edge_views(mid.edges@[k]@) + given);
                assert((edge_views(mid.edges@[k]@) + given).skip(1) =~= given);
            }
            assert forall|i: int| 0 <= i < old(self).edges@.len() implies edge_views((#[trigger] self.edges@[i])@)
                == edge_views(old(self).edges@[i]@) + stored_from(records, i, records.len() as int) by {
                assert(mid.edges@[i] == old(self).edges@[i]);
            }
        }
    }

    /// The edges inside the clusters depend on the grid, the nodes and the cluster lists only.
    pub proof fn lemma_same_records(a: &Self, b: &Self, n: int)
        requires
            a.base_grid == b.base_grid,
            a.nodes@ == b.nodes@,
            a.cluster_nodes@ == b.cluster_nodes@,
        ensures
            a.every_record(n) == b.every_record(n),
        decreases n,
    {
        if n > 0 {
            Self::lemma_same_records(a, b, n - 1);
        }
    }
}

/// The abstract graph of one query: the stored edges, with a virtual start
/// that leads to the nodes of the start's cluster and a virtual goal that
/// the nodes of the goal's cluster lead to.
pub struct AbstractSearchGraph<'a> {
    pub hp: &'a HierarchicalGrid,
    pub start_edges: &'a Vec<Link>,
    pub goal_edges: &'a Vec<Link>,
    pub start_id: AbstractNodeId,
    pub goal_id: AbstractNodeId,
}

/// The straight-line distance from an abstract node to the goal of a query;
/// zero for the two virtual nodes.
pub struct AbstractHeuristic<'a> {
    pub hp: &'a HierarchicalGrid,
    pub goal_pos: GridPos,
    pub start_id: AbstractNodeId,
    pub goal_id: AbstractNodeId,
}

/// The first `n` of `links` as edges to their nodes.
pub open spec fn links_out(links: Seq<Link>, n: nat) -> Seq<(AbstractNodeId, Cost)>
    decreases n,
{
    if n == 0 {
        Seq::empty()
    } else {
        links_out(links, (n - 1) as nat).push((links[n - 1].node, links[n - 1].cost))
    }
}

/// The first `n` of `stored` as edges to their targets.
pub open spec fn stored_out(stored: Seq<AbstractEdge>, n: nat) -> Seq<(AbstractNodeId, Cost)>
    decreases n,
{
    if n == 0 {
        Seq::empty()
    } else {
        stored_out(stored, (n - 1) as nat).push((stored[n - 1].target, stored[n - 1].cost))
    }
}

/// An edge to `goal_id` for each of the first `n` of `links` that starts at `node`.
pub open spec fn links_in(links: Seq<Link>, node: AbstractNodeId, goal_id: AbstractNodeId, n: nat) -> Seq<
    (AbstractNodeId, Cost),
>
    decreases n,
{
    if n == 0 {
        Seq::empty()
    } else if links[n - 1].node == node {
        links_in(links, node, goal_id, (n - 1) as nat).push((goal_id, links[n - 1].cost))
    } else {
        links_in(links, node, goal_id, (n - 1) as nat)
    }
}

impl<'a> Graph for AbstractSearchGraph<'a> {
    type Node = AbstractNodeId;

    open spec fn well_formed(&self) -> bool {
        self.hp.edges@.len() == self.hp.nodes@.len()
    }

    open spec fn passable(&self, node: AbstractNodeId) -> bool {
        true
    }

    open spec fn edges(&self, node: AbstractNodeId) -> Seq<(AbstractNodeId, Cost)> {
        if node == self.start_id {
            links_out(self.start_edges@, self.start_edges@.len())
        } else if node == self.goal_id {
            Seq::empty()
        } else {
            (if node.0 < self.hp.edges@.len() {
                stored_out(self.hp.edges@[node.0 as int]@, self.hp.edges@[node.0 as int]@.len())
            } else {
                Seq::empty()
            }) + links_in(self.goal_edges@, node, self.goal_id, self.goal_edges@.len())
        }
    }

    open spec fn visible(&self, from: AbstractNodeId, to: AbstractNodeId) -> bool {
        true
    }

    fn is_passable(&self, node: &AbstractNodeId) -> (r: bool) {
        true
    }

    fn neighbors(&self, node: &AbstractNodeId) -> (r: Vec<(AbstractNodeId, Cost)>) {
        let mut out: Vec<(AbstractNodeId, Cost)> = Vec::new();
        if *node == self.start_id {
            let mut i: usize = 0;
            while i < self.start_edges.len()
                invariant
                    i <= self.start_edges@.len(),
                    out@ == links_out(self.start_edges@, i as nat),
                decreases self.start_edges@.len() - i,
            {
                out.push((self.start_edges[i].node, self.start_edges[i].cost));
                i += 1;
            }
        } else if *node == self.goal_id {
            proof {
                assert(out@ =~= Seq::empty());
            }
        } else {
            if node.0 < self.hp.edges.len() {
                let mut j: usize = 0;
                while j < self.hp.edges[node.0].len()
                    invariant
                        node.0 < self.hp.edges@.len(),
                        j <= self.hp.edges@[node.0 as int]@.len(),
                        out@ == stored_out(self.hp.edges@[node.0 as int]@, j as nat),
                    decreases self.hp.edges@[node.0 as int]@.len() - j,
                {
                    out.push((self.hp.edges[node.0][j].target, self.hp.edges[node.0][j].cost));
                    j += 1;
                }
            }
            let ghost base = out@;
            let mut k: usize = 0;
            proof {
                assert(out@ =~= base + links_in(self.goal_edges@, *node, self.goal_id, 0));
            }
            while k < self.goal_edges.len()
                invariant
                    k <= self.goal_edges@.len(),
                    out@ == base + links_in(self.goal_edges@, *node, self.goal_id, k as nat),
                decreases self.goal_edges@.len() - k,
            {
                if self.goal_edges[k].node == *node {
                    out.push((self.goal_id, self.goal_edges[k].cost));
                    proof {
                        assert(out@ =~= base + links_in(self.goal_edges@, *node, self.goal_id, (k + 1) as nat));
                    }
                }
                k += 1;
            }
        }
        out
    }

    fn can_traverse(&self, from: &AbstractNodeId, to: &AbstractNodeId) -> (r: bool) {
        true
    }
}

impl<'a> Heuristic<AbstractNodeId> for AbstractHeuristic<'a> {
    open spec fn estimate_of(&self, from: AbstractNodeId, to: AbstractNodeId) -> Cost {
        if from == self.start_id || from == self.goal_id || from.0 >= self.hp.nodes@.len() {
            0
        } else {
            Euclidean.estimate_of(self.hp.nodes@[from.0 as int], self.goal_pos)
        }
    }

    fn estimate(&self, from: &AbstractNodeId, to: &AbstractNodeId) -> (r: Cost) {
        if *from == self.start_id || *from == self.goal_id || from.0 >= self.hp.nodes.len() {
            return 0;
        }
        let from_pos: GridPos = self.hp.nodes[from.0];
        Euclidean.estimate(&from_pos, &self.goal_pos)
    }

    open spec fn admissible(&self) -> bool {
        true
    }

    fn is_admissible(&self) -> (r: bool) {
        true
    }
}

fn find_link(links: &Vec<Link>, id: AbstractNodeId) -> (r: Option<usize>)
    ensures
        r == first_link(links@, id, 0),
        r matches Some(i) ==> i < links@.len() && links@[i as int].node == id,
{
    let mut i: usize = 0;
    while i < links.len()
        invariant
            i <= links@.len(),
            first_link(links@, id, 0) == first_link(links@, id, i as int),
        decreases links@.len() - i,
    {
        if links[i].node == id {
            return Some(i);
        }
        i += 1;
    }
    None
}

fn find_edge(edges: &Vec<AbstractEdge>, target: AbstractNodeId) -> (r: Option<usize>)
    ensures
        r == first_edge(edges@, target, 0),
        r matches Some(i) ==> i < edges@.len() && edges@[i as int].target == target,
{
    let mut i: usize = 0;
    while i < edges.len()
        invariant
            i <= edges@.len(),
            first_edge(edges@, target, 0) == first_edge(edges@, target, i as int),
        decreases edges@.len() - i,
    {
        if edges[i].target == target {
            return Some(i);
        }
        i += 1;
    }
    None
}

/// Appends `segment` to `full`, leaving out its first cell where `full`
/// already ends with it.
fn append_segment(full: &mut Vec<GridPos>, segment: &Vec<GridPos>)
    requires
        segment@.len() >= 1,
    ensures
        final(full)@ == (if old(full)@.len() == 0 {
            segment@
        } else {
            old(full)@ + segment@.drop_first()
        }),
{
    let mut i: usize = if full.len() == 0 { 0 } else { 1 };
    let ghost first = i;
    while i < segment.len()
        invariant
            first <= i <= segment@.len(),
            first == (if old(full)@.len() == 0 { 0usize } else { 1usize }),
            full@ == old(full)@ + segment@.subrange(first as int, i as int),
        decreases segment@.len() - i,
    {
        full.push(segment[i]);
        proof {
            assert(full@ =~= old(full)@ + segment@.subrange(first as int, i + 1));
        }
        i += 1;
    }
    proof {
        if old(full)@.len() == 0 {
            assert(full@ =~= segment@);
        } else {
            assert(segment@.subrange(1, segment@.len() as int) =~= segment@.drop_first());
        }
    }
}

impl HierarchicalGrid {
    /// Whether `link` joins `start` to one of the abstract nodes.
    pub open spec fn leaves(&self, link: Link, start: GridPos) -> bool {
        &&& link.node.0 < self.nodes@.len()
        &&& joins(&self.base_grid, link.path@, start, self.nodes@[link.node.0 as int])
    }

    /// Whether `link` joins one of the abstract nodes to `goal`.
    pub open spec fn arrives(&self, link: Link, goal: GridPos) -> bool {
        &&& link.node.0 < self.nodes@.len()
        &&& joins(&self.base_grid, link.path@, self.nodes@[link.node.0 as int], goal)
    }

    /// Whether two cells lie in the same cluster.
    pub open spec fn same_cluster(&self, a: GridPos, b: GridPos) -> bool {
        let cs = self.cluster_size as int;
        (a.x as int) / cs == (b.x as int) / cs && (a.y as int) / cs == (b.y as int) / cs
    }

    /// The cell that a node of the abstract graph of a query stands for.
    pub open spec fn place(&self, id: AbstractNodeId, start: GridPos, goal: GridPos) -> GridPos {
        if id.0 == usize::MAX - 1 {
            start
        } else if id.0 == usize::MAX {
            goal
        } else {
            self.nodes@[id.0 as int]
        }
    }

    /// The paths from `start` to the abstract nodes of the cluster `cluster`
    /// (or, with `towards`, from those nodes to `start`).
    fn connect(&self, cluster: Option<usize>, end: GridPos, towards: bool) -> (r: Vec<Link>)
        requires
            self.well_formed(),
            !self.base_grid.blocked(end.x as int, end.y as int),
            cluster matches Some(c) ==> c < self.cluster_nodes@.len(),
        ensures
            link_views(r@) == self.reach_of(cluster, end, towards),
            forall|k: int|
                0 <= k < r@.len() ==> (if towards {
                    self.arrives(#[trigger] r@[k], end)
                } else {
                    self.leaves(r@[k], end)
                }),
    {
        let mut links: Vec<Link> = Vec::new();
        let ghost mut model: Seq<LinkView> = Seq::empty();
        proof {
            assert(link_views(links@) =~= model);
        }
        let c: usize = match cluster {
            Some(c) => c,
            None => {
                return links;
            },
        };
        let n: usize = self.cluster_nodes[c].len();
        let ghost list = self.cluster_nodes@[c as int]@;
        let ghost grid = &self.base_grid;
        let mut i: usize = 0;
        while i < n
            invariant
                self.well_formed(),
                !self.base_grid.blocked(end.x as int, end.y as int),
                c < self.cluster_nodes@.len(),
                n == self.cluster_nodes@[c as int]@.len(),
                list == self.cluster_nodes@[c as int]@,
                grid == &self.base_grid,
                i <= n,
                link_views(links@) == model,
                model == links_of(grid, self.nodes@, list, end, towards, i as int),
                forall|k: int|
                    0 <= k < links@.len() ==> (if towards {
                        self.arrives(#[trigger] links@[k], end)
                    } else {
                        self.leaves(links@[k], end)
                    }),
            decreases n - i,
        {
            let id: AbstractNodeId = self.cluster_nodes[c][i];
            let pos: GridPos = self.nodes[id.0];
            let config = AStarConfig::default();
            let res = if towards {
                astar(&self.base_grid, &Euclidean, pos, end, config)
            } else {
                astar(&self.base_grid, &Euclidean, end, pos, config)
            };
            let ghost found = link_to(grid, self.nodes@, id, end, towards);
            proof {
                assert(config == usual_config());
            }
            if res.status == PathStatus::Found {
                proof {
                    if towards {
                        lemma_route_joins(&self.base_grid, res.path@, pos, res.cost);
                    } else {
                        lemma_route_joins(&self.base_grid, res.path@, end, res.cost);
                    }
                }
                let ghost before = links@;
                links.push(Link { node: id, cost: res.cost, path: res.path });
                proof {
                    assert forall|k: int| 0 <= k < links@.len() implies (if towards {
                        self.arrives(#[trigger] links@[k], end)
                    } else {
                        self.leaves(links@[k], end)
                    }) by {
                        if k < before.len() {
                            assert(links@[k] == before[k]);
                        }
                    }
                    assert(link_views(links@) =~= model + found) by {
                        assert forall|k: int| 0 <= k < before.len() implies link_views(links@)[k] == model[k] by {
                            assert(links@[k] == before[k]);
                            assert(link_views(before)[k] == before[k]@);
                        }
                    }
                    model = model + found;
                }
            } else {
                proof {
                    assert(model + found =~= model);
                }
            }
            i += 1;
        }
        links
    }

    /// The stored path for the step from `cur` to `next` of an abstract
    /// path: of the first link from the start to `next`, of the first link
    /// from `cur` to the goal, or of the first stored edge from `cur` to `next`.
    pub open spec fn piece(
        &self,
        cur: AbstractNodeId,
        next: AbstractNodeId,
        start_edges: Seq<Link>,
        goal_edges: Seq<Link>,
    ) -> Option<Seq<GridPos>> {
        if cur.0 == usize::MAX - 1 {
            match first_link(start_edges, next, 0) {
                Some(k) => Some(start_edges[k as int].path@),
                None => None,
            }
        } else if next.0 == usize::MAX {
            match first_link(goal_edges, cur, 0) {
                Some(k) => Some(goal_edges[k as int].path@),
                None => None,
            }
        } else if cur.0 >= self.edges@.len() {
            None
        } else {
            match first_edge(self.edges@[cur.0 as int]@, next, 0) {
                Some(k) => Some(self.edges@[cur.0 as int]@[k as int].path@),
                None => None,
            }
        }
    }

    /// The pieces of the first `n` steps of the abstract path `ap` put end
    /// to end, each but the first without its first cell; nothing where a
    /// step has no piece.
    pub open spec fn stitched(
        &self,
        ap: Seq<AbstractNodeId>,
        start_edges: Seq<Link>,
        goal_edges: Seq<Link>,
        n: int,
    ) -> Option<Seq<GridPos>>
        decreases n,
    {
        if n <= 0 {
            Some(Seq::empty())
        } else {
            match self.stitched(ap, start_edges, goal_edges, n - 1) {
                None => None,
                Some(full) => match self.piece(ap[n - 1], ap[n], start_edges, goal_edges) {
                    None => None,
                    Some(segment) => Some(
                        if full.len() == 0 {
                            segment
                        } else {
                            full + segment.drop_first()
                        },
                    ),
                },
            }
        }
    }

    /// Once a step has no piece, no longer stretch of the path is stitched.
    pub proof fn lemma_stitched_stays_none(
        &self,
        ap: Seq<AbstractNodeId>,
        start_edges: Seq<Link>,
        goal_edges: Seq<Link>,
        n: int,
        m: int,
    )
        requires
            n <= m,
            self.stitched(ap, start_edges, goal_edges, n) is None,
        ensures
            self.stitched(ap, start_edges, goal_edges, m) is None,
        decreases m - n,
    {
        if n < m {
            self.lemma_stitched_stays_none(ap, start_edges, goal_edges, n, m - 1);
        }
    }

    /// What a query between two clusters returns, where `start_edges` lead from
    /// `start` to the nodes of its cluster and `goal_edges` from the nodes of the
    /// goal's cluster to `goal`.
    ///
    /// The abstract graph is searched from the virtual start to the virtual
    /// goal. Where no path is found the status and the count of expanded nodes
    /// are handed on; a path of fewer than two nodes, or one with a step that
    /// has no stored piece, gives `NotFound`; otherwise the pieces are put end
    /// to end, at the cost of the abstract path.
    pub open spec fn query_result(
        &self,
        start_edges: Vec<Link>,
        goal_edges: Vec<Link>,
        start: GridPos,
        goal: GridPos,
    ) -> Outcome<GridPos> {
        let start_id = AbstractNodeId((usize::MAX - 1) as usize);
        let goal_id = AbstractNodeId(usize::MAX);
        let o = astar_outcome(
            &(AbstractSearchGraph {
                hp: self,
                start_edges: &start_edges,
                goal_edges: &goal_edges,
                start_id,
                goal_id,
            }),
            &(AbstractHeuristic { hp: self, goal_pos: goal, start_id, goal_id }),
            start_id,
            goal_id,
            usual_config(),
        );
        if o.status != PathStatus::Found {
            Outcome { path: Seq::empty(), cost: 0, nodes_expanded: o.nodes_expanded, status: o.status }
        } else if o.path.len() < 2 {
            nothing_found(o.nodes_expanded)
        } else {
            match self.stitched(o.path, start_edges@, goal_edges@, o.path.len() - 1) {
                Some(path) => Outcome {
                    path,
                    cost: o.cost,
                    nodes_expanded: o.nodes_expanded,
                    status: PathStatus::Found,
                },
                None => nothing_found(o.nodes_expanded),
            }
        }
    }

    /// Whether the abstract path of a query walks from the virtual start along
    /// edges of the abstract graph whose costs sum to no more than `cost`, and
    /// to `cost` exactly where no node of that graph has more edges than a
    /// vector holds and `cost` is not close to `COST_INFINITY`.
    pub open spec fn abstract_route(
        &self,
        start_edges: Vec<Link>,
        goal_edges: Vec<Link>,
        goal: GridPos,
        cost: Cost,
    ) -> bool {
        let start_id = AbstractNodeId((usize::MAX - 1) as usize);
        let goal_id = AbstractNodeId(usize::MAX);
        let graph = AbstractSearchGraph {
            hp: self,
            start_edges: &start_edges,
            goal_edges: &goal_edges,
            start_id,
            goal_id,
        };
        let heuristic = AbstractHeuristic { hp: self, goal_pos: goal, start_id, goal_id };
        let path = astar_outcome(&graph, &heuristic, start_id, goal_id, usual_config()).path;
        &&& is_route(path, start_id, cost, edge_link(&graph))
        &&& lists_edges(&graph) && cost + GRID_ESTIMATE_BOUND < COST_INFINITY ==> is_walked_at(&graph, path, cost)
    }

    /// Turns a path of the abstract graph into a path of the base grid by
    /// putting the stored pieces end to end. Gives nothing where a step of
    /// the abstract path has no stored piece.
    fn refine(
        &self,
        ap: &Vec<AbstractNodeId>,
        start_edges: &Vec<Link>,
        goal_edges: &Vec<Link>,
        start: GridPos,
        goal: GridPos,
    ) -> (r: Option<Vec<GridPos>>)
        requires
            self.well_formed(),
            ap@.len() >= 2,
            ap@[0].0 == usize::MAX - 1,
            ap@.last().0 == usize::MAX,
            forall|k: int| 0 <= k < start_edges@.len() ==> self.leaves(#[trigger] start_edges@[k], start),
            forall|k: int| 0 <= k < goal_edges@.len() ==> self.arrives(#[trigger] goal_edges@[k], goal),
        ensures
            match r {
                Some(path) => self.stitched(ap@, start_edges@, goal_edges@, ap@.len() - 1) == Some(path@),
                None => self.stitched(ap@, start_edges@, goal_edges@, ap@.len() - 1) is None,
            },
            r matches Some(path) ==> joins(&self.base_grid, path@, start, goal),
    {
        let mut full: Vec<GridPos> = Vec::new();
        let mut i: usize = 0;
        let ghost last = ap@.len() - 1;
        while i < ap.len() - 1
            invariant
                self.well_formed(),
                ap@.len() >= 2,
                last == ap@.len() - 1,
                ap@[0].0 == usize::MAX - 1,
                i <= ap@.len() - 1,
                forall|k: int| 0 <= k < start_edges@.len() ==> self.leaves(#[trigger] start_edges@[k], start),
                forall|k: int| 0 <= k < goal_edges@.len() ==> self.arrives(#[trigger] goal_edges@[k], goal),
                i == 0 ==> full@.len() == 0,
                i > 0 ==> joins(&self.base_grid, full@, start, self.place(ap@[i as int], start, goal)),
                self.stitched(ap@, start_edges@, goal_edges@, i as int) == Some(full@),
            decreases ap@.len() - i,
        {
            let current: AbstractNodeId = ap[i];
            let next: AbstractNodeId = ap[i + 1];
            let ghost before = full@;
            let ghost here = self.place(current, start, goal);
            let ghost there = self.place(next, start, goal);
            let ghost step = self.piece(current, next, start_edges@, goal_edges@);
            proof {
                assert(self.stitched(ap@, start_edges@, goal_edges@, i + 1) == (match step {
                    None => None::<Seq<GridPos>>,
                    Some(segment) => Some(
                        if before.len() == 0 {
                            segment
                        } else {
                            before + segment.drop_first()
                        },
                    ),
                }));
            }
            if current.0 == usize::MAX - 1 {
                match find_link(start_edges, next) {
                    Some(k) => {
                        proof {
                            assert(self.leaves(start_edges@[k as int], start));
                            assert(joins(&self.base_grid, start_edges@[k as int].path@, here, there));
                        }
                        append_segment(&mut full, &start_edges[k].path);
                        proof {
                            if i > 0 {
                                lemma_joined(
                                    &self.base_grid,
                                    before,
                                    start_edges@[k as int].path@,
                                    start,
                                    here,
                                    there,
                                );
                            }
                        }
                    },
                    None => {
                        proof {
                            self.lemma_stitched_stays_none(ap@, start_edges@, goal_edges@, i + 1, last);
                        }
                        return None;
                    },
                }
            } else if next.0 == usize::MAX {
                match find_link(goal_edges, current) {
                    Some(k) => {
                        proof {
                            assert(self.arrives(goal_edges@[k as int], goal));
                            assert(joins(&self.base_grid, goal_edges@[k as int].path@, here, there));
                        }
                        append_segment(&mut full, &goal_edges[k].path);
                        proof {
                            lemma_joined(
                                &self.base_grid,
                                before,
                                goal_edges@[k as int].path@,
                                start,
                                here,
                                there,
                            );
                        }
                    },
                    None => {
                        proof {
                            self.lemma_stitched_stays_none(ap@, start_edges@, goal_edges@, i + 1, last);
                        }
                        return None;
                    },
                }
            } else {
                if current.0 >= self.edges.len() {
                    proof {
                        self.lemma_stitched_stays_none(ap@, start_edges@, goal_edges@, i + 1, last);
                    }
                    return None;
                }
                match find_edge(&self.edges[current.0], next) {
                    Some(k) => {
                        proof {
                            assert(self.edge_ok(current.0 as int, k as int));
                            assert(joins(
                                &self.base_grid,
                                self.edges@[current.0 as int]@[k as int].path@,
                                here,
                                there,
                            ));
                        }
                        append_segment(&mut full, &self.edges[current.0][k].path);
                        proof {
                            lemma_joined(
                                &self.base_grid,
                                before,
                                self.edges@[current.0 as int]@[k as int].path@,
                                start,
                                here,
                                there,
                            );
                        }
                    },
                    None => {
                        proof {
                            self.lemma_stitched_stays_none(ap@, start_edges@, goal_edges@, i + 1, last);
                        }
                        return None;
                    },
                }
            }
            i += 1;
        }
        Some(full)
    }

    /// Finds a path from `start` to `goal`.
    ///
    /// Within one cluster this is plain A* on the base grid. Otherwise the
    /// abstract graph is searched from a virtual start, which leads to the
    /// nodes of the start's cluster, to a virtual goal, and the path found is
    /// refined into cells. Every path returned with status `Found` leads from
    /// `start` to `goal` along edges of the base grid. The cost of a path
    /// through the abstract graph is that of the abstract path: the sum of
    /// the costs of the abstract edges it takes. Where the stored edges are
    /// priced by their paths, as they are on a grid of unit costs, that is
    /// the sum of the costs of the path's steps on the base grid.
    pub fn find_path(&self, start: GridPos, goal: GridPos) -> (r: PathResult<GridPos>)
        requires
            self.well_formed(),
        ensures
            self.base_grid.blocked(start.x as int, start.y as int) || self.base_grid.blocked(
                goal.x as int,
                goal.y as int,
            ) ==> r.status == PathStatus::NotFound && r.nodes_expanded == 0,
            r.status == PathStatus::Found ==> joins(&self.base_grid, r.path@, start, goal),
            r.status == PathStatus::NotFound ==> r.path@.len() == 0 && r.cost == 0,
            r.status != PathStatus::PartialTimeout,
            !self.base_grid.blocked(start.x as int, start.y as int) && !self.base_grid.blocked(
                goal.x as int,
                goal.y as int,
            ) && self.same_cluster(start, goal) ==> r@ == astar_outcome(
                &self.base_grid,
                &Euclidean,
                start,
                goal,
                AStarConfig { max_iterations: None, timeout: None, tie_breaking: TieBreaking::PreferHigherG },
            ),
            !self.base_grid.blocked(start.x as int, start.y as int) && !self.base_grid.blocked(
                goal.x as int,
                goal.y as int,
            ) && !self.same_cluster(start, goal) ==> exists|start_edges: Vec<Link>, goal_edges: Vec<Link>|
                {
                    &&& link_views(start_edges@) == self.reach_of(
                        cluster_index(
                            self.cluster_size as int,
                            self.cluster_cols as int,
                            self.cluster_nodes@.len() as int,
                            start,
                        ),
                        start,
                        false,
                    )
                    &&& link_views(goal_edges@) == self.reach_of(
                        cluster_index(
                            self.cluster_size as int,
                            self.cluster_cols as int,
                            self.cluster_nodes@.len() as int,
                            goal,
                        ),
                        goal,
                        true,
                    )
                    &&& r@ == #[trigger] self.query_result(start_edges, goal_edges, start, goal)
                    &&& r.status == PathStatus::Found ==> self.abstract_route(start_edges, goal_edges, goal, r.cost)
                    &&& r.status == PathStatus::Found && self.priced() && fits(r.cost) && lists_edges(
                        &query_graph(self, &start_edges, &goal_edges),
                    ) ==> is_walked_at(&self.base_grid, r.path@, r.cost)
                },
    {
        if self.base_grid.is_blocked(start.x, start.y) || self.base_grid.is_blocked(goal.x, goal.y) {
            return PathResult::not_found(0);
        }
        let s_cx: usize = start.x as usize / self.cluster_size;
        let s_cy: usize = start.y as usize / self.cluster_size;
        let g_cx: usize = goal.x as usize / self.cluster_size;
        let g_cy: usize = goal.y as usize / self.cluster_size;
        if s_cx == g_cx && s_cy == g_cy {
            let direct = astar(&self.base_grid, &Euclidean, start, goal, AStarConfig::default());
            proof {
                if direct.status == PathStatus::Found {
                    lemma_route_joins(&self.base_grid, direct.path@, start, direct.cost);
                }
            }
            return direct;
        }
        let start_edges: Vec<Link> = self.connect(self.cluster_of(start), start, false);
        let goal_edges: Vec<Link> = self.connect(self.cluster_of(goal), goal, true);
        let start_id = AbstractNodeId(usize::MAX - 1);
        let goal_id = AbstractNodeId(usize::MAX);
        let search_graph = AbstractSearchGraph {
            hp: self,
            start_edges: &start_edges,
            goal_edges: &goal_edges,
            start_id,
            goal_id,
        };
        let heuristic = AbstractHeuristic { hp: self, goal_pos: goal, start_id, goal_id };
        let found = astar(&search_graph, &heuristic, start_id, goal_id, AStarConfig::default());
        let ghost expected = self.query_result(start_edges, goal_edges, start, goal);
        proof {
            assert(found@ == astar_outcome(&search_graph, &heuristic, start_id, goal_id, usual_config()));
            if found.cost + GRID_ESTIMATE_BOUND < COST_INFINITY {
                lemma_grid_estimates_are_bounded(goal);
                assert forall|n: AbstractNodeId| #[trigger]
                    heuristic.estimate_of(n, goal_id) <= GRID_ESTIMATE_BOUND by {
                    if !(n == start_id || n == goal_id || n.0 >= self.nodes@.len()) {
                        assert(Euclidean.estimate_of(self.nodes@[n.0 as int], goal) <= GRID_ESTIMATE_BOUND);
                    }
                }
                assert(estimates_at_most(&heuristic, goal_id, GRID_ESTIMATE_BOUND));
                assert(prices_fit(&heuristic, goal_id, found.cost));
            }
        }
        if found.status != PathStatus::Found {
            let r = PathResult {
                path: Vec::new(),
                cost: 0,
                nodes_expanded: found.nodes_expanded,
                status: found.status,
            };
            proof {
                assert(r@.path =~= Seq::<GridPos>::empty());
                assert(r@ == expected);
            }
            return r;
        }
        proof {
            let costs = choose|costs: Seq<Cost>| #[trigger]
                is_linked_path(found.path@, costs, edge_link(&search_graph)) && found.path@[0] == start_id;
            assert(found.path@.len() >= 1);
        }
        if found.path.len() < 2 {
            return PathResult::not_found(found.nodes_expanded);
        }
        let r = match self.refine(&found.path, &start_edges, &goal_edges, start, goal) {
            Some(path) => PathResult {
                path,
                cost: found.cost,
                nodes_expanded: found.nodes_expanded,
                status: PathStatus::Found,
            },
            None => PathResult::not_found(found.nodes_expanded),
        };
        proof {
            assert(r@ == expected);
            if r.status == PathStatus::Found && self.priced() && fits(r.cost) && lists_edges(
                &query_graph(self, &start_edges, &goal_edges),
            ) {
                lemma_refined_cost(self, start_edges, goal_edges, start, goal);
            }
        }
        r
    }
}

} // verus!
