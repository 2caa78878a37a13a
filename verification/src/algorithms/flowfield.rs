//! Flow fields: the cost from every cell to a goal, and for every cell the
//! step that descends that cost.

use vstd::prelude::*;
use vstd::multiset::Multiset;
use crate::algorithms::search::{entry_before, is_first, Entry, Frontier};
use crate::cost::{cost_add, cost_sum, Cost, COST_INFINITY};
use crate::graphs::grid2d::{
    lemma_cell_index, lemma_cell_index_injective, lemma_edge_target_open, DiagonalMode, Grid2D, GridPos,
};
use crate::traits::{edge_link, is_walk, total_cost, Graph};

verus! {

broadcast use {vstd::multiset::group_multiset_axioms, vstd::seq_lib::group_to_multiset_ensures};

#[derive(Clone, Copy, Debug, PartialEq, Eq, Structural)]
pub enum Direction {
    /// No step lowers the cost.
    Stay,
    N,
    NE,
    E,
    SE,
    S,
    SW,
    W,
    NW,
}

#[derive(Clone)]
pub struct FlowField {
    pub width: usize,
    pub height: usize,
    /// Cost to the goal; `COST_INFINITY` where the goal cannot be reached.
    pub integration: Vec<Cost>,
    /// Best step toward the goal.
    pub flow: Vec<Direction>,
}

impl Default for Direction {
    fn default() -> (r: Self)
        ensures
            r == Direction::Stay,
    {
        Direction::Stay
    }
}

/// The step that a direction stands for; north is towards smaller `y`.
pub open spec fn direction_offset(d: Direction) -> (int, int) {
    match d {
        Direction::Stay => (0, 0),
        Direction::N => (0, -1),
        Direction::NE => (1, -1),
        Direction::E => (1, 0),
        Direction::SE => (1, 1),
        Direction::S => (0, 1),
        Direction::SW => (-1, 1),
        Direction::W => (-1, 0),
        Direction::NW => (-1, -1),
    }
}

/// The directions that the flow pass tries, in order.
pub open spec fn directions_of(mode: DiagonalMode) -> Seq<Direction> {
    match mode {
        DiagonalMode::Never => seq![Direction::N, Direction::E, Direction::S, Direction::W],
        _ => seq![
            Direction::N,
            Direction::NE,
            Direction::E,
            Direction::SE,
            Direction::S,
            Direction::SW,
            Direction::W,
            Direction::NW,
        ],
    }
}

/// The value that `field` holds for the cell `(x, y)`.
pub open spec fn value_in(field: Seq<Cost>, grid: &Grid2D, x: int, y: int) -> Cost {
    field[y * grid.width + x]
}

/// Whether stepping from `p` in direction `d` leads to an open cell with a value below `bound`.
pub open spec fn steps_below(field: Seq<Cost>, grid: &Grid2D, p: GridPos, d: Direction, bound: Cost) -> bool {
    let x = p.x + direction_offset(d).0;
    let y = p.y + direction_offset(d).1;
    !grid.blocked(x, y) && value_in(field, grid, x, y) < bound
}

/// The best direction among the first `n` of `dirs`, with the value it leads
/// to: a direction replaces the best so far only if it leads strictly lower.
pub open spec fn descent(field: Seq<Cost>, grid: &Grid2D, p: GridPos, dirs: Seq<Direction>, n: nat) -> (
    Direction,
    Cost,
)
    decreases n,
{
    if n == 0 {
        (Direction::Stay, value_at(field, grid, p))
    } else {
        let best = descent(field, grid, p, dirs, (n - 1) as nat);
        let d = dirs[n - 1];
        if steps_below(field, grid, p, d, best.1) {
            (d, value_in(field, grid, p.x + direction_offset(d).0, p.y + direction_offset(d).1))
        } else {
            best
        }
    }
}

/// The direction of the flow at `p`: the first direction that leads to the
/// lowest value below the cell's own; `Stay` where there is none, and for
/// blocked and unreached cells.
pub open spec fn steepest(field: Seq<Cost>, grid: &Grid2D, p: GridPos) -> Direction {
    if grid.blocked(p.x as int, p.y as int) || value_at(field, grid, p) == COST_INFINITY {
        Direction::Stay
    } else {
        let dirs = directions_of(grid.diagonal_movement);
        descent(field, grid, p, dirs, dirs.len()).0
    }
}

/// Whether `flow` holds the steepest direction of every cell.
pub open spec fn is_flow_of(flow: Seq<Direction>, field: Seq<Cost>, grid: &Grid2D) -> bool {
    &&& flow.len() == grid.width * grid.height
    &&& forall|p: GridPos| on_grid(grid, p) ==> #[trigger] flow[cell_index(grid, p)] == steepest(field, grid, p)
}

/// A direction other than `Stay` that `descent` picks leads to an open cell
/// whose value is the one reported, strictly below the value of `p`.
pub proof fn lemma_descent(field: Seq<Cost>, grid: &Grid2D, p: GridPos, dirs: Seq<Direction>, n: nat)
    requires
        n <= dirs.len(),
    ensures
        ({
            let best = descent(field, grid, p, dirs, n);
            &&& best.1 <= value_at(field, grid, p)
            &&& best.0 != Direction::Stay ==> steps_below(field, grid, p, best.0, value_at(field, grid, p))
                && best.1 == value_in(
                field,
                grid,
                p.x + direction_offset(best.0).0,
                p.y + direction_offset(best.0).1,
            )
        }),
    decreases n,
{
    if n > 0 {
        lemma_descent(field, grid, p, dirs, (n - 1) as nat);
    }
}

/// Whether the direction of the cell `p`, if it is not `Stay`, points at an
/// open cell with a strictly lower value.
pub open spec fn points_downhill(flow: Seq<Direction>, field: Seq<Cost>, grid: &Grid2D, p: GridPos) -> bool {
    let d = flow[cell_index(grid, p)];
    let x = p.x + direction_offset(d).0;
    let y = p.y + direction_offset(d).1;
    d != Direction::Stay ==> {
        &&& value_at(field, grid, p) < COST_INFINITY
        &&& !grid.blocked(x, y)
        &&& value_in(field, grid, x, y) < value_at(field, grid, p)
    }
}

/// The flow points downhill: where the direction of a cell is not `Stay`,
/// the cell it points at is open and strictly closer to the goal.
pub proof fn lemma_flow_descends(flow: Seq<Direction>, field: Seq<Cost>, grid: &Grid2D, p: GridPos)
    requires
        is_flow_of(flow, field, grid),
        on_grid(grid, p),
        flow[cell_index(grid, p)] != Direction::Stay,
    ensures
        ({
            let d = flow[cell_index(grid, p)];
            let x = p.x + direction_offset(d).0;
            let y = p.y + direction_offset(d).1;
            &&& value_at(field, grid, p) < COST_INFINITY
            &&& !grid.blocked(x, y)
            &&& value_in(field, grid, x, y) < value_at(field, grid, p)
        }),
{
    let dirs = directions_of(grid.diagonal_movement);
    lemma_descent(field, grid, p, dirs, dirs.len());
}

/// The index of the cell `p` in a row-major buffer of the grid's size.
pub open spec fn cell_index(grid: &Grid2D, p: GridPos) -> int {
    p.y * grid.width + p.x
}

/// The value that `field` holds for the cell `p`.
pub open spec fn value_at(field: Seq<Cost>, grid: &Grid2D, p: GridPos) -> Cost {
    field[cell_index(grid, p)]
}

/// Whether `p` names a cell of the grid.
pub open spec fn on_grid(grid: &Grid2D, p: GridPos) -> bool {
    grid.in_bounds(p.x as int, p.y as int)
}

/// Whether the `k`-th edge that leaves `p` cannot lower the value of its target.
pub open spec fn edge_settled(field: Seq<Cost>, grid: &Grid2D, p: GridPos, k: int) -> bool {
    value_at(field, grid, grid.edges_of(p)[k].0) <= cost_sum(value_at(field, grid, p), grid.edges_of(p)[k].1)
}

/// Whether the value of `n` is the value of `p` plus the cost of the `k`-th
/// edge that leaves `p`, which leads to `n`.
pub open spec fn value_comes_from(field: Seq<Cost>, grid: &Grid2D, n: GridPos, p: GridPos, k: int) -> bool {
    &&& on_grid(grid, p)
    &&& 0 <= k < grid.edges_of(p).len()
    &&& grid.edges_of(p)[k].0 == n
    &&& value_at(field, grid, p) < COST_INFINITY
    &&& value_at(field, grid, n) == cost_sum(value_at(field, grid, p), grid.edges_of(p)[k].1)
}

/// Whether `n` owes its value to an edge from a cell of lower rank.
pub open spec fn value_descends(field: Seq<Cost>, rank: Map<int, nat>, grid: &Grid2D, n: GridPos) -> bool {
    exists|p: GridPos, k: int| #[trigger]
        value_comes_from(field, grid, n, p, k) && rank[cell_index(grid, p)] < rank[cell_index(grid, n)]
}

/// Whether `field` is the cost-to-goal field of `grid`, with `rank` the
/// order in which its cells were reached: zero at the goal, no edge out of a
/// reached cell can lower a value, and every other reached cell owes its
/// value to an edge from a cell reached before it.
pub open spec fn is_ranked_field(field: Seq<Cost>, rank: Map<int, nat>, grid: &Grid2D, goal: GridPos) -> bool {
    &&& field.len() == grid.width * grid.height
    &&& on_grid(grid, goal)
    &&& value_at(field, grid, goal) == 0
    &&& forall|p: GridPos, k: int|
        on_grid(grid, p) && value_at(field, grid, p) < COST_INFINITY && 0 <= k < grid.edges_of(p).len()
            ==> #[trigger] edge_settled(field, grid, p, k)
    &&& forall|n: GridPos|
        on_grid(grid, n) && n != goal && #[trigger] value_at(field, grid, n) < COST_INFINITY ==> value_descends(
            field,
            rank,
            grid,
            n,
        )
}

/// Whether `field` is the cost-to-goal field of `grid`: the value of a cell
/// is the cost of a cheapest walk from `goal` to it, and `COST_INFINITY`
/// where there is none.
pub open spec fn is_integration_field(field: Seq<Cost>, grid: &Grid2D, goal: GridPos) -> bool {
    exists|rank: Map<int, nat>| #[trigger] is_ranked_field(field, rank, grid, goal)
}

/// How many entries of `s` are `false`.
pub open spec fn count_false(s: Seq<bool>) -> nat
    decreases s.len(),
{
    if s.len() == 0 {
        0
    } else {
        count_false(s.drop_last()) + if s.last() { 0nat } else { 1nat }
    }
}

proof fn lemma_count_false_update(s: Seq<bool>, i: int)
    requires
        0 <= i < s.len(),
        !s[i],
    ensures
        count_false(s.update(i, true)) + 1 == count_false(s),
    decreases s.len(),
{
    let t = s.update(i, true);
    if i == s.len() - 1 {
        assert(t.drop_last() =~= s.drop_last());
    } else {
        lemma_count_false_update(s.drop_last(), i);
        assert(t.drop_last() =~= s.drop_last().update(i, true));
    }
}

/// What the integration pass knows while it runs.
ghost struct Pass {
    field: Seq<Cost>,
    visited: Seq<bool>,
    frontier: Multiset<Entry<GridPos>>,
    /// The cost of the entry taken last: no later entry is cheaper.
    floor: Cost,
    /// For every reached cell that is not yet visited, its entry on the frontier.
    open: Map<int, Entry<GridPos>>,
    /// For every reached cell but the goal, the edge that gave it its value.
    from: Map<int, (GridPos, int)>,
    /// For every visited cell, the number of cells visited before it.
    rank: Map<int, nat>,
    /// The number of cells visited.
    stamp: nat,
}

/// Whether the cell `p` has been visited.
spec fn seen(s: Pass, grid: &Grid2D, p: GridPos) -> bool {
    s.visited[cell_index(grid, p)]
}

/// Whether the reached, unvisited cell `p` has its entry on the frontier.
spec fn waits(s: Pass, grid: &Grid2D, p: GridPos) -> bool {
    let w = s.open[cell_index(grid, p)];
    s.frontier.count(w) > 0 && w.node == p && w.g == value_at(s.field, grid, p)
}

/// Whether the reached cell `n` owes its value to an edge from a visited cell.
spec fn owes(s: Pass, grid: &Grid2D, n: GridPos) -> bool {
    let w = s.from[cell_index(grid, n)];
    &&& value_comes_from(s.field, grid, n, w.0, w.1)
    &&& seen(s, grid, w.0)
    &&& seen(s, grid, n) ==> s.rank[cell_index(grid, w.0)] < s.rank[cell_index(grid, n)]
}

/// What holds of an entry on the frontier.
spec fn entry_ok(s: Pass, grid: &Grid2D, e: Entry<GridPos>) -> bool {
    &&& on_grid(grid, e.node)
    &&& e.f == e.g
    &&& e.g >= s.floor
    &&& e.g < COST_INFINITY
    &&& value_at(s.field, grid, e.node) <= e.g
}

/// The invariant of the integration pass. While the cell `cur` is being
/// expanded, only the first `done` of its edges are known to be settled.
spec fn pass_inv(s: Pass, grid: &Grid2D, goal: GridPos, cur: Option<GridPos>, done: int) -> bool {
    &&& s.field.len() == grid.width * grid.height
    &&& s.visited.len() == s.field.len()
    &&& on_grid(grid, goal)
    &&& value_at(s.field, grid, goal) == 0
    &&& forall|e: Entry<GridPos>| #[trigger] s.frontier.count(e) > 0 ==> entry_ok(s, grid, e)
    &&& forall|p: GridPos|
        on_grid(grid, p) && #[trigger] seen(s, grid, p) ==> value_at(s.field, grid, p) <= s.floor && value_at(
            s.field,
            grid,
            p,
        ) < COST_INFINITY && s.rank[cell_index(grid, p)] < s.stamp
    &&& forall|p: GridPos, k: int|
        on_grid(grid, p) && seen(s, grid, p) && Some(p) != cur && 0 <= k < grid.edges_of(p).len()
            ==> #[trigger] edge_settled(s.field, grid, p, k)
    &&& cur matches Some(c) ==> {
        &&& on_grid(grid, c)
        &&& seen(s, grid, c)
        &&& value_at(s.field, grid, c) == s.floor
        &&& forall|k: int| 0 <= k < done ==> #[trigger] edge_settled(s.field, grid, c, k)
    }
    &&& forall|p: GridPos|
        on_grid(grid, p) && #[trigger] value_at(s.field, grid, p) < COST_INFINITY && !seen(s, grid, p) ==> waits(
            s,
            grid,
            p,
        )
    &&& forall|n: GridPos|
        on_grid(grid, n) && n != goal && #[trigger] value_at(s.field, grid, n) < COST_INFINITY ==> owes(
            s,
            grid,
            n,
        )
}

/// Two cells of the grid with the same index are the same cell.
proof fn lemma_same_index(grid: &Grid2D, p: GridPos, q: GridPos)
    requires
        on_grid(grid, p),
        on_grid(grid, q),
        cell_index(grid, p) == cell_index(grid, q),
    ensures
        p == q,
{
    lemma_cell_index_injective(grid.width as int, p.x as int, p.y as int, q.x as int, q.y as int);
}

/// Every cell of the grid has an index inside the buffers.
proof fn lemma_index_in_range(grid: &Grid2D, p: GridPos)
    requires
        on_grid(grid, p),
    ensures
        0 <= cell_index(grid, p) < grid.width * grid.height,
{
    lemma_cell_index(grid.width as int, grid.height as int, p.x as int, p.y as int);
}

proof fn lemma_count_false_bound(s: Seq<bool>)
    ensures
        count_false(s) <= s.len(),
    decreases s.len(),
{
    if s.len() > 0 {
        lemma_count_false_bound(s.drop_last());
    }
}

/// The pass starts in a state that satisfies its invariant.
proof fn lemma_pass_begins(s: Pass, grid: &Grid2D, goal: GridPos, first: Entry<GridPos>)
    requires
        on_grid(grid, goal),
        s.field.len() == grid.width * grid.height,
        s.visited.len() == s.field.len(),
        forall|i: int| 0 <= i < s.field.len() && i != cell_index(grid, goal) ==> s.field[i] == COST_INFINITY,
        s.field[cell_index(grid, goal)] == 0,
        forall|i: int| 0 <= i < s.visited.len() ==> !s.visited[i],
        first == (Entry { f: 0, tie: 0, seq: 0, g: 0, node: goal }),
        s.frontier == Multiset::<Entry<GridPos>>::empty().insert(first),
        s.floor == 0,
        s.open == Map::<int, Entry<GridPos>>::empty().insert(cell_index(grid, goal), first),
    ensures
        pass_inv(s, grid, goal, None, 0),
{
    assert forall|e: Entry<GridPos>| #[trigger] s.frontier.count(e) > 0 implies entry_ok(s, grid, e) by {
        if e != first {
            assert(Multiset::<Entry<GridPos>>::empty().insert(first).count(e) == 0);
        }
    }
    assert forall|p: GridPos| on_grid(grid, p) implies !(#[trigger] seen(s, grid, p)) by {
        lemma_index_in_range(grid, p);
    }
    assert forall|p: GridPos|
        on_grid(grid, p) && #[trigger] value_at(s.field, grid, p) < COST_INFINITY implies p == goal by {
        lemma_index_in_range(grid, p);
        if cell_index(grid, p) == cell_index(grid, goal) {
            lemma_same_index(grid, p, goal);
        }
    }
}

/// Dropping a superseded entry keeps the invariant.
proof fn lemma_pass_skips(s: Pass, t: Pass, grid: &Grid2D, goal: GridPos, e: Entry<GridPos>)
    requires
        pass_inv(s, grid, goal, None, 0),
        s.frontier.count(e) > 0,
        seen(s, grid, e.node) || e.g > value_at(s.field, grid, e.node),
        t == (Pass { frontier: s.frontier.remove(e), ..s }),
    ensures
        pass_inv(t, grid, goal, None, 0),
{
    assert forall|o: Entry<GridPos>| #[trigger] t.frontier.count(o) > 0 implies entry_ok(t, grid, o) by {
        assert(s.frontier.count(o) > 0);
        assert(entry_ok(s, grid, o));
    }
    assert forall|p: GridPos| on_grid(grid, p) && #[trigger] seen(t, grid, p) implies value_at(t.field, grid, p)
        <= t.floor && value_at(t.field, grid, p) < COST_INFINITY && t.rank[cell_index(grid, p)] < t.stamp by {
        assert(seen(s, grid, p));
    }
    assert forall|p: GridPos, k: int|
        on_grid(grid, p) && seen(t, grid, p) && 0 <= k < grid.edges_of(p).len() implies #[trigger] edge_settled(
        t.field,
        grid,
        p,
        k,
    ) by {
        assert(seen(s, grid, p));
        assert(edge_settled(s.field, grid, p, k));
    }
    assert forall|p: GridPos|
        on_grid(grid, p) && #[trigger] value_at(t.field, grid, p) < COST_INFINITY && !seen(t, grid, p) implies waits(
        t,
        grid,
        p,
    ) by {
        assert(waits(s, grid, p));
        let w = s.open[cell_index(grid, p)];
        assert(w != e);
    }
    assert forall|n: GridPos|
        on_grid(grid, n) && n != goal && #[trigger] value_at(t.field, grid, n) < COST_INFINITY implies owes(
        t,
        grid,
        n,
    ) by {
        assert(owes(s, grid, n));
    }
}

/// Taking the cheapest entry and marking its cell visited keeps the invariant.
proof fn lemma_pass_visits(s: Pass, t: Pass, grid: &Grid2D, goal: GridPos, e: Entry<GridPos>)
    requires
        pass_inv(s, grid, goal, None, 0),
        is_first(s.frontier, e),
        !seen(s, grid, e.node),
        e.g <= value_at(s.field, grid, e.node),
        t == (Pass {
            frontier: s.frontier.remove(e),
            visited: s.visited.update(cell_index(grid, e.node), true),
            floor: e.g,
            rank: s.rank.insert(cell_index(grid, e.node), s.stamp),
            stamp: s.stamp + 1,
            ..s
        }),
    ensures
        pass_inv(t, grid, goal, Some(e.node), 0),
        e.g < COST_INFINITY,
        on_grid(grid, e.node),
{
    let idx = cell_index(grid, e.node);
    assert(entry_ok(s, grid, e));
    lemma_index_in_range(grid, e.node);
    assert forall|p: GridPos| on_grid(grid, p) && p != e.node implies seen(t, grid, p) == seen(s, grid, p) by {
        lemma_index_in_range(grid, p);
        if cell_index(grid, p) == idx {
            lemma_same_index(grid, p, e.node);
        }
    }
    assert(seen(t, grid, e.node));
    assert forall|o: Entry<GridPos>| #[trigger] t.frontier.count(o) > 0 implies entry_ok(t, grid, o) by {
        assert(s.frontier.count(o) > 0);
        assert(entry_ok(s, grid, o));
        assert(entry_before(e, o));
    }
    assert forall|p: GridPos| on_grid(grid, p) && #[trigger] seen(t, grid, p) implies value_at(t.field, grid, p)
        <= t.floor && value_at(t.field, grid, p) < COST_INFINITY && t.rank[cell_index(grid, p)] < t.stamp by {
        if p != e.node {
            assert(seen(s, grid, p));
            if cell_index(grid, p) == idx {
                lemma_same_index(grid, p, e.node);
            }
        }
    }
    assert forall|p: GridPos, k: int|
        on_grid(grid, p) && seen(t, grid, p) && Some(p) != Some(e.node) && 0 <= k < grid.edges_of(p).len()
            implies #[trigger] edge_settled(t.field, grid, p, k) by {
        assert(seen(s, grid, p));
        assert(edge_settled(s.field, grid, p, k));
    }
    assert forall|p: GridPos|
        on_grid(grid, p) && #[trigger] value_at(t.field, grid, p) < COST_INFINITY && !seen(t, grid, p) implies waits(
        t,
        grid,
        p,
    ) by {
        assert(p != e.node);
        assert(!seen(s, grid, p));
        assert(waits(s, grid, p));
        let w = s.open[cell_index(grid, p)];
        assert(w != e);
    }
    assert forall|n: GridPos|
        on_grid(grid, n) && n != goal && #[trigger] value_at(t.field, grid, n) < COST_INFINITY implies owes(
        t,
        grid,
        n,
    ) by {
        assert(owes(s, grid, n));
        let w = s.from[cell_index(grid, n)];
        assert(seen(s, grid, w.0));
        assert(w.0 != e.node);
        assert(seen(t, grid, w.0) == seen(s, grid, w.0));
        lemma_index_in_range(grid, n);
        lemma_index_in_range(grid, w.0);
        if cell_index(grid, w.0) == idx {
            lemma_same_index(grid, w.0, e.node);
        }
        if n != e.node {
            if cell_index(grid, n) == idx {
                lemma_same_index(grid, n, e.node);
            }
        }
    }
}

/// An edge that does not lower the value of its target is settled.
proof fn lemma_pass_keeps(s: Pass, grid: &Grid2D, goal: GridPos, c: GridPos, done: int)
    requires
        pass_inv(s, grid, goal, Some(c), done),
        0 <= done < grid.edges_of(c).len(),
        cost_sum(s.floor, grid.edges_of(c)[done].1) >= value_at(s.field, grid, grid.edges_of(c)[done].0),
    ensures
        pass_inv(s, grid, goal, Some(c), done + 1),
{
    assert forall|k: int| 0 <= k < done + 1 implies #[trigger] edge_settled(s.field, grid, c, k) by {}
}

/// Lowering the value of an edge's target, and putting the target on the
/// frontier at its new value, keeps the invariant.
proof fn lemma_pass_lowers(s: Pass, t: Pass, grid: &Grid2D, goal: GridPos, c: GridPos, done: int, fresh: Entry<
    GridPos,
>)
    requires
        pass_inv(s, grid, goal, Some(c), done),
        0 <= done < grid.edges_of(c).len(),
        s.floor < COST_INFINITY,
        ({
            let n = grid.edges_of(c)[done].0;
            let v = cost_sum(s.floor, grid.edges_of(c)[done].1);
            &&& v < value_at(s.field, grid, n)
            &&& fresh.node == n
            &&& fresh.g == v
            &&& fresh.f == v
            &&& t == (Pass {
                field: s.field.update(cell_index(grid, n), v),
                frontier: s.frontier.insert(fresh),
                open: s.open.insert(cell_index(grid, n), fresh),
                from: s.from.insert(cell_index(grid, n), (c, done)),
                ..s
            })
        }),
    ensures
        pass_inv(t, grid, goal, Some(c), done + 1),
{
    let n = grid.edges_of(c)[done].0;
    let v = cost_sum(s.floor, grid.edges_of(c)[done].1);
    let n_idx = cell_index(grid, n);
    lemma_edge_target_open(grid, c, done);
    lemma_index_in_range(grid, n);
    assert forall|p: GridPos| on_grid(grid, p) && p != n implies value_at(t.field, grid, p) == value_at(
        s.field,
        grid,
        p,
    ) by {
        lemma_index_in_range(grid, p);
        if cell_index(grid, p) == n_idx {
            lemma_same_index(grid, p, n);
        }
    }
    assert(value_at(t.field, grid, n) == v);
    assert(!seen(s, grid, n)) by {
        if seen(s, grid, n) {
            assert(value_at(s.field, grid, n) <= s.floor);
        }
    }
    assert(n != c);
    assert(n != goal);
    assert forall|o: Entry<GridPos>| #[trigger] t.frontier.count(o) > 0 implies entry_ok(t, grid, o) by {
        if o != fresh {
            assert(s.frontier.count(o) > 0);
            assert(entry_ok(s, grid, o));
        }
    }
    assert forall|p: GridPos| on_grid(grid, p) && #[trigger] seen(t, grid, p) implies value_at(t.field, grid, p)
        <= t.floor && value_at(t.field, grid, p) < COST_INFINITY && t.rank[cell_index(grid, p)] < t.stamp by {
        assert(seen(s, grid, p));
    }
    assert forall|p: GridPos, k: int|
        on_grid(grid, p) && seen(t, grid, p) && Some(p) != Some(c) && 0 <= k < grid.edges_of(p).len()
            implies #[trigger] edge_settled(t.field, grid, p, k) by {
        assert(seen(s, grid, p));
        assert(edge_settled(s.field, grid, p, k));
        lemma_edge_target_open(grid, p, k);
        let m = grid.edges_of(p)[k].0;
        assert(on_grid(grid, m));
        assert(p != n);
        assert(value_at(t.field, grid, p) == value_at(s.field, grid, p));
        if m != n {
            assert(value_at(t.field, grid, m) == value_at(s.field, grid, m));
        }
    }
    assert(on_grid(grid, c));
    assert(value_at(t.field, grid, c) == value_at(s.field, grid, c));
    assert forall|k: int| 0 <= k < done + 1 implies #[trigger] edge_settled(t.field, grid, c, k) by {
        lemma_edge_target_open(grid, c, k);
        let m = grid.edges_of(c)[k].0;
        assert(on_grid(grid, m));
        if m != n {
            assert(value_at(t.field, grid, m) == value_at(s.field, grid, m));
        }
        if k < done {
            assert(edge_settled(s.field, grid, c, k));
        }
    }
    assert forall|p: GridPos|
        on_grid(grid, p) && #[trigger] value_at(t.field, grid, p) < COST_INFINITY && !seen(t, grid, p) implies waits(
        t,
        grid,
        p,
    ) by {
        if p != n {
            lemma_index_in_range(grid, p);
            if cell_index(grid, p) == n_idx {
                lemma_same_index(grid, p, n);
            }
            assert(!seen(s, grid, p));
            assert(waits(s, grid, p));
        }
    }
    assert forall|m: GridPos|
        on_grid(grid, m) && m != goal && #[trigger] value_at(t.field, grid, m) < COST_INFINITY implies owes(
        t,
        grid,
        m,
    ) by {
        if m != n {
            lemma_index_in_range(grid, m);
            if cell_index(grid, m) == n_idx {
                lemma_same_index(grid, m, n);
            }
            assert(owes(s, grid, m));
            let w = s.from[cell_index(grid, m)];
            assert(seen(s, grid, w.0));
            assert(w.0 != n);
        }
    }
}

/// Once every edge of the expanded cell is settled, the cell is like any other visited one.
proof fn lemma_pass_closes(s: Pass, grid: &Grid2D, goal: GridPos, c: GridPos)
    requires
        pass_inv(s, grid, goal, Some(c), grid.edges_of(c).len() as int),
    ensures
        pass_inv(s, grid, goal, None, 0),
{
    assert forall|p: GridPos, k: int|
        on_grid(grid, p) && seen(s, grid, p) && 0 <= k < grid.edges_of(p).len() implies #[trigger] edge_settled(
        s.field,
        grid,
        p,
        k,
    ) by {
        if p != c {
            assert(Some(p) != Some(c));
        }
    }
}

/// When the frontier has drained, the field is the integration field.
proof fn lemma_pass_ends(s: Pass, grid: &Grid2D, goal: GridPos)
    requires
        pass_inv(s, grid, goal, None, 0),
        s.frontier.len() == 0,
    ensures
        is_integration_field(s.field, grid, goal),
{
    assert forall|p: GridPos| on_grid(grid, p) && value_at(s.field, grid, p) < COST_INFINITY implies seen(
        s,
        grid,
        p,
    ) by {
        if !seen(s, grid, p) {
            assert(waits(s, grid, p));
        }
    }
    assert forall|p: GridPos, k: int|
        on_grid(grid, p) && value_at(s.field, grid, p) < COST_INFINITY && 0 <= k < grid.edges_of(p).len()
            implies #[trigger] edge_settled(s.field, grid, p, k) by {
        assert(seen(s, grid, p));
    }
    assert forall|n: GridPos|
        on_grid(grid, n) && n != goal && #[trigger] value_at(s.field, grid, n) < COST_INFINITY implies value_descends(
        s.field,
        s.rank,
        grid,
        n,
    ) by {
        assert(owes(s, grid, n));
        assert(seen(s, grid, n));
        let w = s.from[cell_index(grid, n)];
        assert(value_comes_from(s.field, grid, n, w.0, w.1));
    }
    assert(is_ranked_field(s.field, s.rank, grid, goal));
}

fn index_of(grid: &Grid2D, p: GridPos) -> (i: usize)
    requires
        grid.well_formed(),
        on_grid(grid, p),
    ensures
        i == cell_index(grid, p),
        i < grid.width * grid.height,
{
    proof {
        lemma_cell_index(grid.width as int, grid.height as int, p.x as int, p.y as int);
    }
    let len: usize = grid.cells.len();
    (p.y as usize) * grid.width + (p.x as usize)
}

fn filled<T: Copy>(value: T, len: usize) -> (v: Vec<T>)
    ensures
        v@.len() == len,
        forall|i: int| 0 <= i < len ==> v@[i] == value,
{
    let mut v: Vec<T> = Vec::new();
    let mut i: usize = 0;
    while i < len
        invariant
            i <= len,
            v@.len() == i,
            forall|j: int| 0 <= j < i ==> v@[j] == value,
        decreases len - i,
    {
        v.push(value);
        i += 1;
    }
    v
}

/// The cost from `goal` to every cell, by Dijkstra's algorithm over the
/// grid's edges. `goal` must be an open cell.
fn integrate(grid: &Grid2D, goal: GridPos) -> (field: Vec<Cost>)
    requires
        grid.well_formed(),
        !grid.blocked(goal.x as int, goal.y as int),
    ensures
        is_integration_field(field@, grid, goal),
{
    let len: usize = grid.cells.len();
    let mut field: Vec<Cost> = filled(COST_INFINITY, len);
    let mut visited: Vec<bool> = filled(false, len);
    let mut frontier: Frontier<GridPos> = Frontier::new();
    let goal_idx: usize = index_of(grid, goal);
    field.set(goal_idx, 0);
    let first = Entry { f: 0, tie: 0, seq: 0, g: 0, node: goal };
    frontier.push(first);
    let mut next_seq: u128 = 1;
    let mut expanded: usize = 0;
    let ghost mut s = Pass {
        field: field@,
        visited: visited@,
        frontier: frontier@,
        floor: 0,
        open: Map::empty().insert(goal_idx as int, first),
        from: Map::empty(),
        rank: Map::empty(),
        stamp: 0,
    };
    proof {
        lemma_pass_begins(s, grid, goal, first);
        lemma_count_false_bound(visited@);
        assert(1 + 0 * usize::MAX == 1) by (nonlinear_arith);
        assert(usize::MAX * usize::MAX <= 0xffff_ffff_ffff_ffff * 0xffff_ffff_ffff_ffff) by (nonlinear_arith)
            requires
                usize::MAX <= 0xffff_ffff_ffff_ffff,
        ;
    }
    while frontier.len() > 0
        invariant
            grid.well_formed(),
            len == grid.width * grid.height,
            s.field == field@,
            s.visited == visited@,
            s.frontier == frontier@,
            pass_inv(s, grid, goal, None, 0),
            expanded + count_false(visited@) <= len,
            next_seq <= 1 + expanded * usize::MAX,
            usize::MAX * usize::MAX + 1 < u128::MAX,
        decreases count_false(visited@), frontier@.len(),
    {
        let e: Entry<GridPos> = frontier.pop_min().unwrap();
        proof {
            assert(s.frontier.count(e) > 0);
            assert(entry_ok(s, grid, e));
        }
        let idx: usize = index_of(grid, e.node);
        if visited[idx] || e.g > field[idx] {
            proof {
                let t = Pass { frontier: s.frontier.remove(e), ..s };
                lemma_pass_skips(s, t, grid, goal, e);
                s = t;
            }
            continue ;
        }
        proof {
            lemma_count_false_update(visited@, idx as int);
            let t = Pass {
                frontier: s.frontier.remove(e),
                visited: s.visited.update(idx as int, true),
                floor: e.g,
                rank: s.rank.insert(idx as int, s.stamp),
                stamp: s.stamp + 1,
                ..s
            };
            lemma_pass_visits(s, t, grid, goal, e);
            s = t;
        }
        visited.set(idx, true);
        expanded = expanded + 1;
        let edges: Vec<(GridPos, Cost)> = grid.neighbors(&e.node);
        let ghost s_seq = next_seq;
        proof {
            assert((expanded - 1) * usize::MAX + usize::MAX == expanded * usize::MAX) by (nonlinear_arith);
            assert(expanded * usize::MAX <= usize::MAX * usize::MAX) by (nonlinear_arith)
                requires
                    expanded <= usize::MAX,
            ;
        }
        let mut i: usize = 0;
        while i < edges.len()
            invariant
                grid.well_formed(),
                len == grid.width * grid.height,
                i <= edges.len(),
                edges@ == grid.edges_of(e.node),
                s.field == field@,
                s.visited == visited@,
                s.frontier == frontier@,
                s.floor == e.g,
                e.g < COST_INFINITY,
                pass_inv(s, grid, goal, Some(e.node), i as int),
                next_seq <= s_seq + i,
                s_seq <= 1 + (expanded - 1) * usize::MAX,
                (expanded - 1) * usize::MAX + usize::MAX == expanded * usize::MAX,
                expanded * usize::MAX <= usize::MAX * usize::MAX,
                usize::MAX * usize::MAX + 1 < u128::MAX,
            decreases edges.len() - i,
        {
            let n: GridPos = edges[i].0;
            let c: Cost = edges[i].1;
            proof {
                lemma_edge_target_open(grid, e.node, i as int);
            }
            let next_cost: Cost = cost_add(e.g, c);
            let n_idx: usize = index_of(grid, n);
            if next_cost < field[n_idx] {
                let fresh = Entry { f: next_cost, tie: 0, seq: next_seq, g: next_cost, node: n };
                field.set(n_idx, next_cost);
                frontier.push(fresh);
                next_seq = next_seq + 1;
                proof {
                    let t = Pass {
                        field: s.field.update(n_idx as int, next_cost),
                        frontier: s.frontier.insert(fresh),
                        open: s.open.insert(n_idx as int, fresh),
                        from: s.from.insert(n_idx as int, (e.node, i as int)),
                        ..s
                    };
                    lemma_pass_lowers(s, t, grid, goal, e.node, i as int, fresh);
                    s = t;
                }
            } else {
                proof {
                    lemma_pass_keeps(s, grid, goal, e.node, i as int);
                }
            }
            i += 1;
        }
        proof {
            lemma_pass_closes(s, grid, goal, e.node);
        }
    }
    proof {
        lemma_pass_ends(s, grid, goal);
    }
    field
}

fn step_of(d: Direction) -> (r: (i64, i64))
    ensures
        r.0 == direction_offset(d).0,
        r.1 == direction_offset(d).1,
{
    match d {
        Direction::Stay => (0, 0),
        Direction::N => (0, -1),
        Direction::NE => (1, -1),
        Direction::E => (1, 0),
        Direction::SE => (1, 1),
        Direction::S => (0, 1),
        Direction::SW => (-1, 1),
        Direction::W => (-1, 0),
        Direction::NW => (-1, -1),
    }
}

fn neighbor_dirs(diag: DiagonalMode) -> (r: Vec<Direction>)
    ensures
        r@ == directions_of(diag),
{
    let mut dirs: Vec<Direction> = Vec::new();
    match diag {
        DiagonalMode::Never => {
            dirs.push(Direction::N);
            dirs.push(Direction::E);
            dirs.push(Direction::S);
            dirs.push(Direction::W);
        },
        _ => {
            dirs.push(Direction::N);
            dirs.push(Direction::NE);
            dirs.push(Direction::E);
            dirs.push(Direction::SE);
            dirs.push(Direction::S);
            dirs.push(Direction::SW);
            dirs.push(Direction::W);
            dirs.push(Direction::NW);
        },
    }
    proof {
        assert(dirs@ =~= directions_of(diag));
    }
    dirs
}

/// The direction of the flow at the cell `p`.
fn pick(grid: &Grid2D, field: &Vec<Cost>, dirs: &Vec<Direction>, p: GridPos) -> (r: Direction)
    requires
        grid.well_formed(),
        field@.len() == grid.width * grid.height,
        dirs@ == directions_of(grid.diagonal_movement),
        on_grid(grid, p),
    ensures
        r == steepest(field@, grid, p),
{
    let idx: usize = index_of(grid, p);
    if grid.blocked_at(p.x as i64, p.y as i64) || field[idx] == COST_INFINITY {
        return Direction::Stay;
    }
    let mut best_dir = Direction::Stay;
    let mut best_cost: Cost = field[idx];
    let mut i: usize = 0;
    while i < dirs.len()
        invariant
            grid.well_formed(),
            field@.len() == grid.width * grid.height,
            i <= dirs.len(),
            (best_dir, best_cost) == descent(field@, grid, p, dirs@, i as nat),
        decreases dirs.len() - i,
    {
        let d: Direction = dirs[i];
        let (dx, dy) = step_of(d);
        let nx: i64 = p.x as i64 + dx;
        let ny: i64 = p.y as i64 + dy;
        if !grid.blocked_at(nx, ny) {
            let n_idx: usize = index_of(grid, GridPos { x: nx as i32, y: ny as i32 });
            let n_cost: Cost = field[n_idx];
            if n_cost < best_cost {
                best_cost = n_cost;
                best_dir = d;
            }
        }
        i += 1;
    }
    best_dir
}

/// The steepest direction of every cell.
fn descend(grid: &Grid2D, field: &Vec<Cost>) -> (flow: Vec<Direction>)
    requires
        grid.well_formed(),
        field@.len() == grid.width * grid.height,
    ensures
        is_flow_of(flow@, field@, grid),
{
    let dirs: Vec<Direction> = neighbor_dirs(grid.diagonal_movement);
    let mut flow: Vec<Direction> = Vec::new();
    let mut y: usize = 0;
    proof {
        assert(0 * grid.width == 0) by (nonlinear_arith);
    }
    while y < grid.height
        invariant
            grid.well_formed(),
            field@.len() == grid.width * grid.height,
            dirs@ == directions_of(grid.diagonal_movement),
            y <= grid.height,
            flow@.len() == y * grid.width,
            forall|p: GridPos|
                on_grid(grid, p) && cell_index(grid, p) < flow@.len() ==> #[trigger] flow@[cell_index(grid, p)]
                    == steepest(field@, grid, p),
        decreases grid.height - y,
    {
        let mut x: usize = 0;
        while x < grid.width
            invariant
                grid.well_formed(),
                field@.len() == grid.width * grid.height,
                dirs@ == directions_of(grid.diagonal_movement),
                y < grid.height,
                x <= grid.width,
                flow@.len() == y * grid.width + x,
                forall|p: GridPos|
                    on_grid(grid, p) && cell_index(grid, p) < flow@.len() ==> #[trigger] flow@[cell_index(
                        grid,
                        p,
                    )] == steepest(field@, grid, p),
            decreases grid.width - x,
        {
            let ghost before = flow@;
            if x > 0x7fff_ffff || y > 0x7fff_ffff {
                flow.push(Direction::Stay);
                proof {
                    assert forall|p: GridPos|
                        on_grid(grid, p) && cell_index(grid, p) < flow@.len() implies #[trigger] flow@[cell_index(
                        grid,
                        p,
                    )] == steepest(field@, grid, p) by {
                        if cell_index(grid, p) == before.len() {
                            lemma_cell_index_injective(
                                grid.width as int,
                                p.x as int,
                                p.y as int,
                                x as int,
                                y as int,
                            );
                        }
                    }
                }
            } else {
                let p = GridPos { x: x as i32, y: y as i32 };
                let d: Direction = pick(grid, field, &dirs, p);
                flow.push(d);
                proof {
                    assert forall|q: GridPos|
                        on_grid(grid, q) && cell_index(grid, q) < flow@.len() implies #[trigger] flow@[cell_index(
                        grid,
                        q,
                    )] == steepest(field@, grid, q) by {
                        if cell_index(grid, q) == before.len() {
                            lemma_same_index(grid, q, p);
                        }
                    }
                }
            }
            x += 1;
        }
        proof {
            assert((y + 1) * grid.width == y * grid.width + grid.width) by (nonlinear_arith);
        }
        y += 1;
    }
    proof {
        assert(grid.height * grid.width == grid.width * grid.height) by (nonlinear_arith);
        assert forall|p: GridPos| on_grid(grid, p) implies #[trigger] flow@[cell_index(grid, p)] == steepest(
            field@,
            grid,
            p,
        ) by {
            lemma_index_in_range(grid, p);
        }
    }
    flow
}

/// The truncated quotient of a value with twelve fractional digits by a million.
pub open spec fn scaled_down(v: int) -> int {
    if v >= 0 {
        v / 1_000_000
    } else {
        -((-v) / 1_000_000)
    }
}

impl Direction {
    /// The step this direction stands for, as a fixed-point vector.
    pub fn to_vec2(self) -> (r: (i64, i64))
        ensures
            r.0 == direction_offset(self).0 * 1_000_000,
            r.1 == direction_offset(self).1 * 1_000_000,
    {
        let (dx, dy) = step_of(self);
        (dx * 1_000_000, dy * 1_000_000)
    }
}

impl FlowField {
    /// Both buffers hold one value per cell.
    pub open spec fn well_formed(&self) -> bool {
        &&& self.integration@.len() == self.width * self.height
        &&& self.flow@.len() == self.width * self.height
    }

    /// The direction stored for the cell `(x, y)`; `Stay` outside the field.
    pub open spec fn direction_at(&self, x: int, y: int) -> Direction {
        if 0 <= x < self.width && 0 <= y < self.height {
            self.flow@[y * self.width + x]
        } else {
            Direction::Stay
        }
    }

    /// The cost stored for the cell `(x, y)`; `COST_INFINITY` outside the field.
    pub open spec fn cost_at(&self, x: int, y: int) -> Cost {
        if 0 <= x < self.width && 0 <= y < self.height {
            self.integration@[y * self.width + x]
        } else {
            COST_INFINITY
        }
    }

    /// The weighted sum of one component of the four directions around a
    /// point, for the fractions `fx` and `fy` inside the point's cell.
    pub open spec fn blend(o00: int, o10: int, o01: int, o11: int, fx: int, fy: int) -> int {
        scaled_down(
            (1_000_000 - fx) * (1_000_000 - fy) * o00 + fx * (1_000_000 - fy) * o10 + (1_000_000 - fx) * fy
                * o01 + fx * fy * o11,
        )
    }

    /// The flow at the fixed-point position `(x, y)`, interpolated between
    /// the four surrounding cells; zero where one of them is outside the field.
    pub open spec fn sample(&self, x: int, y: int) -> (int, int) {
        let x0 = x / 1_000_000;
        let y0 = y / 1_000_000;
        if x < 0 || y < 0 || x0 + 1 >= self.width || y0 + 1 >= self.height {
            (0, 0)
        } else {
            let fx = x % 1_000_000;
            let fy = y % 1_000_000;
            let d00 = direction_offset(self.direction_at(x0, y0));
            let d10 = direction_offset(self.direction_at(x0 + 1, y0));
            let d01 = direction_offset(self.direction_at(x0, y0 + 1));
            let d11 = direction_offset(self.direction_at(x0 + 1, y0 + 1));
            (
                Self::blend(d00.0, d10.0, d01.0, d11.0, fx, fy),
                Self::blend(d00.1, d10.1, d01.1, d11.1, fx, fy),
            )
        }
    }

    /// The flow field of `grid` towards `goal`. With a goal that is blocked
    /// or outside the grid nothing is reached.
    pub fn compute(grid: &Grid2D, goal: GridPos) -> (ff: Self)
        requires
            grid.well_formed(),
        ensures
            ff.well_formed(),
            ff.width == grid.width,
            ff.height == grid.height,
            grid.blocked(goal.x as int, goal.y as int) ==> {
                &&& forall|i: int| 0 <= i < ff.integration@.len() ==> ff.integration@[i] == COST_INFINITY
                &&& forall|i: int| 0 <= i < ff.flow@.len() ==> ff.flow@[i] == Direction::Stay
            },
            !grid.blocked(goal.x as int, goal.y as int) ==> {
                &&& is_integration_field(ff.integration@, grid, goal)
                &&& is_flow_of(ff.flow@, ff.integration@, grid)
            },
            forall|p: GridPos| on_grid(grid, p) ==> #[trigger] points_downhill(ff.flow@, ff.integration@, grid, p),
    {
        let len: usize = grid.cells.len();
        if grid.blocked_at(goal.x as i64, goal.y as i64) {
            let idle = FlowField {
                width: grid.width,
                height: grid.height,
                integration: filled(COST_INFINITY, len),
                flow: filled(Direction::Stay, len),
            };
            proof {
                assert forall|p: GridPos| on_grid(grid, p) implies #[trigger] points_downhill(
                    idle.flow@,
                    idle.integration@,
                    grid,
                    p,
                ) by {
                    lemma_index_in_range(grid, p);
                }
            }
            return idle;
        }
        let integration: Vec<Cost> = integrate(grid, goal);
        let flow: Vec<Direction> = descend(grid, &integration);
        proof {
            assert forall|p: GridPos| on_grid(grid, p) implies #[trigger] points_downhill(
                flow@,
                integration@,
                grid,
                p,
            ) by {
                if flow@[cell_index(grid, p)] != Direction::Stay {
                    lemma_flow_descends(flow@, integration@, grid, p);
                }
            }
        }
        FlowField { width: grid.width, height: grid.height, integration, flow }
    }

    fn direction_of_cell(&self, x: usize, y: usize) -> (r: Direction)
        requires
            self.well_formed(),
        ensures
            r == self.direction_at(x as int, y as int),
    {
        if x >= self.width || y >= self.height {
            return Direction::Stay;
        }
        proof {
            lemma_cell_index(self.width as int, self.height as int, x as int, y as int);
        }
        let len: usize = self.flow.len();
        self.flow[y * self.width + x]
    }

    /// The direction stored for `pos`; `Stay` outside the field.
    pub fn get_direction(&self, pos: GridPos) -> (r: Direction)
        requires
            self.well_formed(),
        ensures
            r == self.direction_at(pos.x as int, pos.y as int),
    {
        if pos.x < 0 || pos.y < 0 {
            return Direction::Stay;
        }
        self.direction_of_cell(pos.x as usize, pos.y as usize)
    }

    /// The cost from `pos` to the goal; `COST_INFINITY` outside the field.
    pub fn get_cost_to_goal(&self, pos: GridPos) -> (r: Cost)
        requires
            self.well_formed(),
        ensures
            r == self.cost_at(pos.x as int, pos.y as int),
    {
        if pos.x < 0 || pos.y < 0 || pos.x as usize >= self.width || pos.y as usize >= self.height {
            return COST_INFINITY;
        }
        proof {
            lemma_cell_index(self.width as int, self.height as int, pos.x as int, pos.y as int);
        }
        let len: usize = self.integration.len();
        self.integration[(pos.y as usize) * self.width + (pos.x as usize)]
    }

    fn mix(o00: i64, o10: i64, o01: i64, o11: i64, fx: u64, fy: u64) -> (r: i64)
        requires
            -1 <= o00 <= 1,
            -1 <= o10 <= 1,
            -1 <= o01 <= 1,
            -1 <= o11 <= 1,
            fx < 1_000_000,
            fy < 1_000_000,
        ensures
            r == Self::blend(o00 as int, o10 as int, o01 as int, o11 as int, fx as int, fy as int),
    {
        let gx: u64 = 1_000_000 - fx;
        let gy: u64 = 1_000_000 - fy;
        proof {
            assert(gx * gy <= 1_000_000 * 1_000_000 && fx * gy <= 1_000_000 * 1_000_000 && gx * fy <= 1_000_000
                * 1_000_000 && fx * fy <= 1_000_000 * 1_000_000) by (nonlinear_arith)
                requires
                    gx <= 1_000_000,
                    gy <= 1_000_000,
                    fx <= 1_000_000,
                    fy <= 1_000_000,
            ;
        }
        let w00: i64 = (gx * gy) as i64;
        let w10: i64 = (fx * gy) as i64;
        let w01: i64 = (gx * fy) as i64;
        let w11: i64 = (fx * fy) as i64;
        proof {
            assert(w00 * o00 == (if o00 == 1 { w00 as int } else if o00 == 0 { 0 } else { -w00 }))
                by (nonlinear_arith)
                requires
                    -1 <= o00 <= 1,
            ;
            assert(w10 * o10 == (if o10 == 1 { w10 as int } else if o10 == 0 { 0 } else { -w10 }))
                by (nonlinear_arith)
                requires
                    -1 <= o10 <= 1,
            ;
            assert(w01 * o01 == (if o01 == 1 { w01 as int } else if o01 == 0 { 0 } else { -w01 }))
                by (nonlinear_arith)
                requires
                    -1 <= o01 <= 1,
            ;
            assert(w11 * o11 == (if o11 == 1 { w11 as int } else if o11 == 0 { 0 } else { -w11 }))
                by (nonlinear_arith)
                requires
                    -1 <= o11 <= 1,
            ;
        }
        let total: i64 = w00 * o00 + w10 * o10 + w01 * o01 + w11 * o11;
        if total >= 0 {
            ((total as u64) / 1_000_000) as i64
        } else {
            -((((-total) as u64) / 1_000_000) as i64)
        }
    }

    /// Returns a smoothed flow vector using bilinear sampling of the 4 surrounding cells.
    pub fn sample_bilinear(&self, x: i64, y: i64) -> (r: (i64, i64))
        requires
            self.well_formed(),
        ensures
            r.0 == self.sample(x as int, y as int).0,
            r.1 == self.sample(x as int, y as int).1,
    {
        if x < 0 || y < 0 {
            return (0, 0);
        }
        let x0: u64 = (x as u64) / 1_000_000;
        let y0: u64 = (y as u64) / 1_000_000;
        if x0 + 1 >= self.width as u64 || y0 + 1 >= self.height as u64 {
            return (0, 0);
        }
        let fx: u64 = (x as u64) % 1_000_000;
        let fy: u64 = (y as u64) % 1_000_000;
        let cx: usize = x0 as usize;
        let cy: usize = y0 as usize;
        let d00 = step_of(self.direction_of_cell(cx, cy));
        let d10 = step_of(self.direction_of_cell(cx + 1, cy));
        let d01 = step_of(self.direction_of_cell(cx, cy + 1));
        let d11 = step_of(self.direction_of_cell(cx + 1, cy + 1));
        (Self::mix(d00.0, d10.0, d01.0, d11.0, fx, fy), Self::mix(d00.1, d10.1, d01.1, d11.1, fx, fy))
    }
}

/// No walk from the goal to a cell costs less than the value of the cell:
/// the value of the `j`-th cell of a walk from the goal is at most the cost
/// of the walk up to it.
pub proof fn lemma_field_bounds_walk(
    field: Seq<Cost>,
    grid: &Grid2D,
    goal: GridPos,
    path: Seq<GridPos>,
    costs: Seq<Cost>,
    j: int,
)
    requires
        is_integration_field(field, grid, goal),
        is_walk(grid, path, costs),
        path[0] == goal,
        0 <= j < path.len(),
    ensures
        on_grid(grid, path[j]),
        value_at(field, grid, path[j]) <= total_cost(costs.subrange(0, j)),
    decreases j,
{
    let rank = choose|rank: Map<int, nat>| #[trigger] is_ranked_field(field, rank, grid, goal);
    if j == 0 {
        assert(costs.subrange(0, 0) =~= Seq::<Cost>::empty());
    } else {
        let i = j - 1;
        lemma_field_bounds_walk(field, grid, goal, path, costs, i);
        let link = edge_link(grid);
        assert(link(path[i], path[i + 1], costs[i]));
        let out = grid.edges_of(path[i]);
        assert(out.contains((path[i + 1], costs[i])));
        let k = choose|k: int| 0 <= k < out.len() && #[trigger] out[k] == (path[i + 1], costs[i]);
        lemma_edge_target_open(grid, path[i], k);
        assert(costs.subrange(0, i + 1).drop_last() =~= costs.subrange(0, i));
        if value_at(field, grid, path[i]) < COST_INFINITY {
            assert(edge_settled(field, grid, path[i], k));
        }
    }
}

/// Every cell with a value below `COST_INFINITY` is reached from the goal
/// by a walk that costs exactly its value.
pub proof fn lemma_field_is_walked(field: Seq<Cost>, rank: Map<int, nat>, grid: &Grid2D, goal: GridPos, p: GridPos) -> (w:
    (Seq<GridPos>, Seq<Cost>))
    requires
        is_ranked_field(field, rank, grid, goal),
        on_grid(grid, p),
        value_at(field, grid, p) < COST_INFINITY,
    ensures
        is_walk(grid, w.0, w.1),
        w.0[0] == goal,
        w.0.last() == p,
        total_cost(w.1) == value_at(field, grid, p),
    decreases rank[cell_index(grid, p)],
{
    let link = edge_link(grid);
    if p == goal {
        let path: Seq<GridPos> = seq![goal];
        let costs: Seq<Cost> = Seq::empty();
        assert(is_walk(grid, path, costs));
        (path, costs)
    } else {
        assert(value_descends(field, rank, grid, p));
        let (q, k) = choose|q: GridPos, k: int| #[trigger]
            value_comes_from(field, grid, p, q, k) && rank[cell_index(grid, q)] < rank[cell_index(grid, p)];
        let before = lemma_field_is_walked(field, rank, grid, goal, q);
        let c = grid.edges_of(q)[k].1;
        let path = before.0.push(p);
        let costs = before.1.push(c);
        assert(grid.edges_of(q).contains((p, c)));
        assert forall|i: int| 0 <= i < costs.len() implies #[trigger] link(path[i], path[i + 1], costs[i]) by {
            if i < before.1.len() {
                assert(link(before.0[i], before.0[i + 1], before.1[i]));
            }
        }
        assert(costs.drop_last() =~= before.1);
        (path, costs)
    }
}

} // verus!
