//! What the searches guarantee on grids: which heuristics never
//! overestimate, and how the paths of jump-point search relate to walks
//! along the edges of the grid.

use vstd::prelude::*;
use crate::algorithms::astar::{astar_outcome, AStarConfig};
use crate::algorithms::guarantees::{
    lemma_astar_finds_cheapest, lemma_total_cost_add, lemma_walks_join, lists_edges, never_overestimates,
    no_cheaper_walk, reachable, walks_between,
};
use crate::algorithms::jps::{is_run, jump_link, jump_room, octile_cost, reaches};
use crate::algorithms::lineage::estimates_at_most;
use crate::cost::{is_floor_sqrt, lemma_floor_sqrt_unique, span, Cost, COST_INFINITY, COST_ONE, COST_SQRT2};
use crate::graphs::grid2d::{
    is_step, lemma_edges_are_steps, step_edge, DiagonalMode, Grid2D, GridPos,
};
use crate::heuristics::{floor_sqrt, Diagonal, Euclidean, Manhattan, Position, Zero};
use crate::traits::{edge_link, is_linked_path, is_route, is_walk, total_cost, Graph, Heuristic, PathStatus};

verus! {

/// No cell of a grid has more edges than a vector can hold: it has at most eight.
pub proof fn lemma_grid_lists_edges(grid: &Grid2D)
    ensures
        lists_edges(grid),
{
    reveal(Grid2D::edges_of);
    assert forall|n: GridPos| (#[trigger] grid.edges(n)).len() <= usize::MAX by {
        assert(grid.edges_of(n).len() <= 8);
    }
}

/// Whether no passable cell of the grid costs less than `COST_ONE` to enter.
pub open spec fn costs_at_least_one(grid: &Grid2D) -> bool {
    forall|x: int, y: int| !grid.blocked(x, y) ==> #[trigger] grid.cost_at(x, y) >= COST_ONE
}

/// The octile distance between two cells that are `ax` and `ay` apart along the two axes.
pub open spec fn octile(ax: int, ay: int) -> int {
    if ax <= ay {
        1_000_000 * ay + 414_214 * ax
    } else {
        1_000_000 * ax + 414_214 * ay
    }
}

/// The distance between two coordinates of cells.
pub open spec fn apart(a: i32, b: i32) -> int {
    if a >= b {
        a - b
    } else {
        b - a
    }
}

/// The diagonal heuristic with the usual step costs.
pub open spec fn usual_diagonal() -> Diagonal {
    Diagonal { cardinal_cost: COST_ONE, diagonal_cost: COST_SQRT2 }
}

/// With the usual step costs the diagonal heuristic is the octile distance.
pub proof fn lemma_diagonal_is_octile(a: GridPos, b: GridPos)
    ensures
        usual_diagonal().estimate_of(a, b) == octile(apart(a.x, b.x), apart(a.y, b.y)),
{
    let ax = apart(a.x, b.x);
    let ay = apart(a.y, b.y);
    assert(span(a.x_of(), b.x_of()) == ax * 1_000_000);
    assert(span(a.y_of(), b.y_of()) == ay * 1_000_000);
    assert(span(a.z_of(), b.z_of()) == 0);
}

/// One step over an edge of a grid whose cells cost at least `COST_ONE`
/// brings the octile distance to any cell down by no more than the edge costs.
pub proof fn lemma_octile_step(grid: &Grid2D, a: GridPos, b: GridPos, c: Cost, goal: GridPos)
    requires
        costs_at_least_one(grid),
        grid.edges_of(a).contains((b, c)),
    ensures
        octile(apart(a.x, goal.x), apart(a.y, goal.y)) <= c + octile(apart(b.x, goal.x), apart(b.y, goal.y)),
{
    lemma_edges_are_steps(grid, a, (b, c));
    let (dx, dy) = choose|dx: int, dy: int|
        is_step(dx, dy) && (#[trigger] step_edge(grid, a, dx, dy)).contains((b, c));
    let part = step_edge(grid, a, dx, dy);
    let i = choose|i: int| 0 <= i < part.len() && part[i] == (b, c);
    assert(part.len() == 1);
    assert(b.x == a.x + dx && b.y == a.y + dy);
    assert(grid.cost_at(a.x + dx, a.y + dy) >= COST_ONE);
    if dx != 0 && dy != 0 {
        assert(c >= 1_414_214);
    } else {
        assert(c >= 1_000_000);
    }
}

/// On a grid whose cells cost at least `COST_ONE` the cost of a walk is at
/// least the octile distance between its ends.
pub proof fn lemma_octile_bounds_walk(grid: &Grid2D, path: Seq<GridPos>, costs: Seq<Cost>, j: int)
    requires
        costs_at_least_one(grid),
        is_walk(grid, path, costs),
        0 <= j < path.len(),
    ensures
        octile(apart(path[0].x, path.last().x), apart(path[0].y, path.last().y)) <= total_cost(
            costs.subrange(0, j),
        ) + octile(apart(path[j].x, path.last().x), apart(path[j].y, path.last().y)),
    decreases j,
{
    if j == 0 {
        assert(costs.subrange(0, 0) =~= Seq::<Cost>::empty());
    } else {
        let i = j - 1;
        lemma_octile_bounds_walk(grid, path, costs, i);
        let link = edge_link(grid);
        assert(link(path[i], path[i + 1], costs[i]));
        lemma_octile_step(grid, path[i], path[i + 1], costs[i], path.last());
        assert(costs.subrange(0, i + 1).drop_last() =~= costs.subrange(0, i));
    }
}

/// On a grid whose cells cost at least `COST_ONE` the diagonal heuristic
/// with the usual step costs never overestimates.
pub proof fn lemma_diagonal_never_overestimates(grid: &Grid2D, goal: GridPos)
    requires
        costs_at_least_one(grid),
    ensures
        never_overestimates(grid, &usual_diagonal(), goal),
{
    let h = usual_diagonal();
    assert forall|path: Seq<GridPos>, costs: Seq<Cost>| #[trigger]
        is_walk(grid, path, costs) && path.last() == goal implies h.estimate_of(path[0], goal) <= total_cost(
        costs,
    ) by {
        lemma_diagonal_is_octile(path[0], goal);
        lemma_octile_bounds_walk(grid, path, costs, path.len() - 1);
        assert(costs.subrange(0, path.len() - 1) =~= costs);
    }
}

/// On a grid whose cells cost at least `COST_ONE`, A* with the usual diagonal
/// heuristic finds a cheapest path: no walk from the start to the goal costs
/// less, and where it reports `NotFound` between two open cells there is none.
pub proof fn lemma_grid_astar_finds_cheapest(grid: &Grid2D, start: GridPos, goal: GridPos, config: AStarConfig)
    requires
        costs_at_least_one(grid),
    ensures
        ({
            let o = astar_outcome(grid, &usual_diagonal(), start, goal, config);
            &&& o.status == PathStatus::Found ==> {
                &&& is_route(o.path, start, o.cost, edge_link(grid))
                &&& o.path.last() == goal
                &&& no_cheaper_walk(grid, start, goal, o.cost)
            }
            &&& o.status == PathStatus::NotFound && grid.passable(start) && grid.passable(goal) ==> !reachable(
                grid,
                start,
                goal,
            )
        }),
{
    lemma_diagonal_never_overestimates(grid, goal);
    lemma_grid_lists_edges(grid);
    lemma_astar_finds_cheapest(grid, &usual_diagonal(), start, goal, config);
}

/// Whether every passable cell of the grid costs exactly `COST_ONE` to enter.
pub open spec fn unit_costs(grid: &Grid2D) -> bool {
    forall|x: int, y: int| !grid.blocked(x, y) ==> #[trigger] grid.cost_at(x, y) == COST_ONE
}

/// The cost of one step `(dx, dy)` on a grid of unit costs.
pub open spec fn unit_step_cost(dx: int, dy: int) -> int {
    if dx != 0 && dy != 0 {
        1_414_214
    } else {
        1_000_000
    }
}

/// A run of possible steps on a grid is a walk along its edges: of `w.2`
/// steps, each of them `(dx, dy)`. On a grid of unit costs the walk costs
/// the octile distance between its ends.
pub proof fn lemma_run_is_walk(grid: &Grid2D, from: GridPos, to: GridPos, dx: int, dy: int) -> (w: (
    Seq<GridPos>,
    Seq<Cost>,
    int,
))
    requires
        -1 <= dx <= 1,
        -1 <= dy <= 1,
        is_run(grid, from, to, dx, dy),
    ensures
        is_walk(grid, w.0, w.1),
        w.0[0] == from,
        w.0.last() == to,
        w.2 >= 1,
        to.x == from.x + w.2 * dx,
        to.y == from.y + w.2 * dy,
        unit_costs(grid) ==> total_cost(w.1) == w.2 * unit_step_cost(dx, dy),
    decreases jump_room(grid, from, dx, dy),
{
    let link = edge_link(grid);
    let next = GridPos { x: (from.x + dx) as i32, y: (from.y + dy) as i32 };
    let part = step_edge(grid, from, dx, dy);
    assert(part.len() == 1);
    let e = part[0];
    assert(part.contains(e));
    assert(is_step(dx, dy));
    lemma_edges_are_steps(grid, from, e);
    assert(e.0 == next);
    assert(link(from, next, e.1));
    let first: Seq<GridPos> = seq![from, next];
    let first_costs: Seq<Cost> = seq![e.1];
    assert(is_walk(grid, first, first_costs));
    assert(first_costs.drop_last() =~= Seq::<Cost>::empty());
    assert(total_cost(first_costs) == e.1) by {
        assert(total_cost(first_costs.drop_last()) == 0);
    }
    if unit_costs(grid) {
        assert(grid.cost_at(from.x + dx, from.y + dy) == COST_ONE);
        assert(e.1 == unit_step_cost(dx, dy));
    }
    if next == to {
        assert(1 * dx == dx && 1 * dy == dy && 1 * unit_step_cost(dx, dy) == unit_step_cost(dx, dy));
        (first, first_costs, 1)
    } else {
        let rest = lemma_run_is_walk(grid, next, to, dx, dy);
        lemma_walks_join(grid, first, first_costs, rest.0, rest.1);
        lemma_total_cost_add(first_costs, rest.1);
        let k = rest.2 + 1;
        assert(k * dx == rest.2 * dx + dx && k * dy == rest.2 * dy + dy && k * unit_step_cost(dx, dy) == rest.2
            * unit_step_cost(dx, dy) + unit_step_cost(dx, dy)) by (nonlinear_arith)
            requires
                k == rest.2 + 1,
        ;
        (first + rest.0.drop_first(), first_costs + rest.1, k)
    }
}

/// A run of `k` steps `(dx, dy)` spans the octile distance between its ends.
pub proof fn lemma_run_spans_octile(from: GridPos, to: GridPos, dx: int, dy: int, k: int)
    requires
        -1 <= dx <= 1,
        -1 <= dy <= 1,
        dx != 0 || dy != 0,
        k >= 1,
        to.x == from.x + k * dx,
        to.y == from.y + k * dy,
    ensures
        octile_cost(from, to) == k * unit_step_cost(dx, dy),
{
    assert(k * 1 == k && k * 0 == 0 && k * (-1) == -k) by (nonlinear_arith);
    assert(k * 1_414_214 == 414_214 * k + 1_000_000 * k) by (nonlinear_arith);
    if dx == 1 {
        assert(k * dx == k);
    } else if dx == 0 {
        assert(k * dx == 0);
    } else {
        assert(k * dx == -k);
    }
    if dy == 1 {
        assert(k * dy == k);
    } else if dy == 0 {
        assert(k * dy == 0);
    } else {
        assert(k * dy == -k);
    }
}

/// A path whose consecutive nodes are joined by runs has a walk along the
/// edges of the grid from its first node to each of its nodes. On a grid of
/// unit costs the walk costs what the runs up to that node cost.
pub proof fn lemma_jump_path_is_walkable(grid: &Grid2D, path: Seq<GridPos>, costs: Seq<Cost>, j: int) -> (w: (
    Seq<GridPos>,
    Seq<Cost>,
))
    requires
        is_linked_path(path, costs, jump_link(grid)),
        0 <= j < path.len(),
    ensures
        is_walk(grid, w.0, w.1),
        w.0[0] == path[0],
        w.0.last() == path[j],
        unit_costs(grid) ==> total_cost(w.1) == total_cost(costs.subrange(0, j)),
    decreases j,
{
    if j == 0 {
        let alone: Seq<GridPos> = seq![path[0]];
        let nothing: Seq<Cost> = Seq::empty();
        assert(is_walk(grid, alone, nothing));
        assert(costs.subrange(0, 0) =~= Seq::<Cost>::empty());
        (alone, nothing)
    } else {
        let i = j - 1;
        let before = lemma_jump_path_is_walkable(grid, path, costs, i);
        let link = jump_link(grid);
        assert(link(path[i], path[i + 1], costs[i]));
        assert(reaches(grid, path[i], path[i + 1]));
        let (dx, dy) = choose|dx: int, dy: int|
            -1 <= dx <= 1 && -1 <= dy <= 1 && #[trigger] is_run(grid, path[i], path[i + 1], dx, dy);
        let run = lemma_run_is_walk(grid, path[i], path[i + 1], dx, dy);
        lemma_run_spans_octile(path[i], path[i + 1], dx, dy, run.2);
        lemma_walks_join(grid, before.0, before.1, run.0, run.1);
        lemma_total_cost_add(before.1, run.1);
        assert(costs.subrange(0, i + 1).drop_last() =~= costs.subrange(0, i));
        (before.0 + run.0.drop_first(), before.1 + run.1)
    }
}

/// Where jump-point search finds a path, the goal can be reached along
/// edges of the grid: the runs between its jump points are walks.
pub proof fn lemma_jump_route_means_reachable(grid: &Grid2D, path: Seq<GridPos>, start: GridPos, cost: Cost)
    requires
        is_route(path, start, cost, jump_link(grid)),
    ensures
        reachable(grid, start, path.last()),
{
    let costs = choose|costs: Seq<Cost>| #[trigger]
        is_linked_path(path, costs, jump_link(grid)) && path[0] == start && (cost < COST_INFINITY
            ==> total_cost(costs) <= cost);
    let w = lemma_jump_path_is_walkable(grid, path, costs, path.len() - 1);
    assert(walks_between(grid, w.0, w.1, start, path.last()));
}

/// On a grid of unit costs, a path that jump-point search finds is never
/// cheaper than what A* with the usual diagonal heuristic reports: A* does
/// not end with `NotFound`, and where it finds a path, its cost is no more
/// than the cost of the jump-point path.
pub proof fn lemma_jump_route_is_no_cheaper(
    grid: &Grid2D,
    path: Seq<GridPos>,
    start: GridPos,
    goal: GridPos,
    cost: Cost,
    config: AStarConfig,
)
    requires
        unit_costs(grid),
        is_route(path, start, cost, jump_link(grid)),
        path.last() == goal,
        cost < COST_INFINITY,
        grid.passable(start),
        grid.passable(goal),
    ensures
        ({
            let o = astar_outcome(grid, &usual_diagonal(), start, goal, config);
            &&& o.status != PathStatus::NotFound
            &&& o.status == PathStatus::Found ==> o.cost <= cost
        }),
{
    let costs = choose|costs: Seq<Cost>| #[trigger]
        is_linked_path(path, costs, jump_link(grid)) && path[0] == start && (cost < COST_INFINITY
            ==> total_cost(costs) <= cost);
    let w = lemma_jump_path_is_walkable(grid, path, costs, path.len() - 1);
    assert(costs.subrange(0, path.len() - 1) =~= costs);
    assert(walks_between(grid, w.0, w.1, start, goal));
    assert(costs_at_least_one(grid)) by {
        assert forall|x: int, y: int| !grid.blocked(x, y) implies #[trigger] grid.cost_at(x, y) >= COST_ONE by {
            assert(grid.cost_at(x, y) == COST_ONE);
        }
    }
    lemma_grid_astar_finds_cheapest(grid, start, goal, config);
}

/// Every number has an integer square root.
pub proof fn lemma_floor_sqrt_exists(n: nat) -> (r: nat)
    ensures
        is_floor_sqrt(r, n),
        floor_sqrt(n) == r,
    decreases n,
{
    if n == 0 {
        assert(is_floor_sqrt(0, 0)) by (nonlinear_arith);
        lemma_floor_sqrt_unique(0, floor_sqrt(0), 0);
        0
    } else {
        let before = lemma_floor_sqrt_exists((n - 1) as nat);
        let r = if (before + 1) * (before + 1) <= n {
            before + 1
        } else {
            before
        };
        assert(is_floor_sqrt(r, n)) by (nonlinear_arith)
            requires
                before * before <= n - 1,
                n - 1 < (before + 1) * (before + 1),
                r == (if (before + 1) * (before + 1) <= n { before + 1 } else { before }),
        ;
        lemma_floor_sqrt_unique(r, floor_sqrt(n), n);
        r
    }
}

/// The straight-line distance between two cells is no more than their octile distance.
pub proof fn lemma_euclidean_is_at_most_octile(a: GridPos, b: GridPos)
    ensures
        Euclidean.estimate_of(a, b) <= octile(apart(a.x, b.x), apart(a.y, b.y)),
{
    let ax = apart(a.x, b.x);
    let ay = apart(a.y, b.y);
    let dx = span(a.x_of(), b.x_of());
    let dy = span(a.y_of(), b.y_of());
    assert(dx == ax * 1_000_000);
    assert(dy == ay * 1_000_000);
    assert(span(a.z_of(), b.z_of()) == 0);
    let squares = dx * dx + dy * dy + 0 * 0;
    let oct = octile(ax, ay);
    assert(squares <= oct * oct && oct >= 0) by (nonlinear_arith)
        requires
            ax >= 0,
            ay >= 0,
            squares == (ax * 1_000_000) * (ax * 1_000_000) + (ay * 1_000_000) * (ay * 1_000_000) + 0 * 0,
            oct == (if ax <= ay { 1_000_000 * ay + 414_214 * ax } else { 1_000_000 * ax + 414_214 * ay }),
    ;
    let r = lemma_floor_sqrt_exists(squares as nat);
    if r > oct {
        assert(r * r >= (oct + 1) * (oct + 1)) by (nonlinear_arith)
            requires
                r >= oct + 1,
                oct >= 0,
        ;
        assert((oct + 1) * (oct + 1) > oct * oct) by (nonlinear_arith)
            requires
                oct >= 0,
        ;
    }
    assert(ax <= 0xffff_ffff && ay <= 0xffff_ffff);
    assert(squares < 0x1_0000_0000_0000_0000_0000_0000_0000_0000) by (nonlinear_arith)
        requires
            0 <= ax <= 0xffff_ffff,
            0 <= ay <= 0xffff_ffff,
            squares == (ax * 1_000_000) * (ax * 1_000_000) + (ay * 1_000_000) * (ay * 1_000_000) + 0 * 0,
    ;
}

/// On a grid whose cells cost at least `COST_ONE` the Euclidean heuristic never overestimates.
pub proof fn lemma_euclidean_never_overestimates(grid: &Grid2D, goal: GridPos)
    requires
        costs_at_least_one(grid),
    ensures
        never_overestimates(grid, &Euclidean, goal),
{
    assert forall|path: Seq<GridPos>, costs: Seq<Cost>| #[trigger]
        is_walk(grid, path, costs) && path.last() == goal implies Euclidean.estimate_of(path[0], goal)
        <= total_cost(costs) by {
        lemma_euclidean_is_at_most_octile(path[0], goal);
        lemma_octile_bounds_walk(grid, path, costs, path.len() - 1);
        assert(costs.subrange(0, path.len() - 1) =~= costs);
    }
}

/// The Manhattan distance between two cells that are `ax` and `ay` apart along the two axes.
pub open spec fn manhattan(ax: int, ay: int) -> int {
    1_000_000 * (ax + ay)
}

/// On a grid without diagonal steps whose cells cost at least `COST_ONE`,
/// the cost of a walk is at least the Manhattan distance between its ends.
pub proof fn lemma_manhattan_bounds_walk(grid: &Grid2D, path: Seq<GridPos>, costs: Seq<Cost>, j: int)
    requires
        costs_at_least_one(grid),
        grid.diagonal_movement == DiagonalMode::Never,
        is_walk(grid, path, costs),
        0 <= j < path.len(),
    ensures
        manhattan(apart(path[0].x, path.last().x), apart(path[0].y, path.last().y)) <= total_cost(
            costs.subrange(0, j),
        ) + manhattan(apart(path[j].x, path.last().x), apart(path[j].y, path.last().y)),
    decreases j,
{
    if j == 0 {
        assert(costs.subrange(0, 0) =~= Seq::<Cost>::empty());
    } else {
        let i = j - 1;
        lemma_manhattan_bounds_walk(grid, path, costs, i);
        let link = edge_link(grid);
        assert(link(path[i], path[i + 1], costs[i]));
        let a = path[i];
        let e = (path[i + 1], costs[i]);
        lemma_edges_are_steps(grid, a, e);
        let (dx, dy) = choose|dx: int, dy: int|
            is_step(dx, dy) && (#[trigger] step_edge(grid, a, dx, dy)).contains(e);
        let part = step_edge(grid, a, dx, dy);
        let k = choose|k: int| 0 <= k < part.len() && part[k] == e;
        assert(part.len() == 1);
        assert(dx == 0 || dy == 0);
        assert(grid.cost_at(a.x + dx, a.y + dy) >= COST_ONE);
        assert(costs.subrange(0, i + 1).drop_last() =~= costs.subrange(0, i));
    }
}

/// On a grid without diagonal steps whose cells cost at least `COST_ONE`
/// the Manhattan heuristic never overestimates.
pub proof fn lemma_manhattan_never_overestimates(grid: &Grid2D, goal: GridPos)
    requires
        costs_at_least_one(grid),
        grid.diagonal_movement == DiagonalMode::Never,
    ensures
        never_overestimates(grid, &Manhattan, goal),
{
    assert forall|path: Seq<GridPos>, costs: Seq<Cost>| #[trigger]
        is_walk(grid, path, costs) && path.last() == goal implies Manhattan.estimate_of(path[0], goal)
        <= total_cost(costs) by {
        let a = path[0];
        assert(span(a.x_of(), goal.x_of()) == apart(a.x, goal.x) * 1_000_000);
        assert(span(a.y_of(), goal.y_of()) == apart(a.y, goal.y) * 1_000_000);
        assert(span(a.z_of(), goal.z_of()) == 0);
        lemma_manhattan_bounds_walk(grid, path, costs, path.len() - 1);
        assert(costs.subrange(0, path.len() - 1) =~= costs);
    }
}

/// A cost that no estimate between two cells of a grid exceeds.
pub const GRID_ESTIMATE_BOUND: Cost = 10_000_000_000_000_000;

/// Between two cells of a grid no estimate of the Manhattan, the Euclidean,
/// the usual diagonal or the zero heuristic exceeds `GRID_ESTIMATE_BOUND`. So
/// on a grid the cost that A* reports for a path found with one of them is
/// the sum of the costs of the path's steps, as long as that bound leaves
/// room for the cost.
pub proof fn lemma_grid_estimates_are_bounded(goal: GridPos)
    ensures
        estimates_at_most(&Manhattan, goal, GRID_ESTIMATE_BOUND),
        estimates_at_most(&Euclidean, goal, GRID_ESTIMATE_BOUND),
        estimates_at_most(&usual_diagonal(), goal, GRID_ESTIMATE_BOUND),
        estimates_at_most(&Zero, goal, GRID_ESTIMATE_BOUND),
{
    assert forall|n: GridPos| #[trigger] Manhattan.estimate_of(n, goal) <= GRID_ESTIMATE_BOUND by {
        assert(span(n.x_of(), goal.x_of()) == apart(n.x, goal.x) * 1_000_000);
        assert(span(n.y_of(), goal.y_of()) == apart(n.y, goal.y) * 1_000_000);
        assert(span(n.z_of(), goal.z_of()) == 0);
    }
    assert forall|n: GridPos| #[trigger] Euclidean.estimate_of(n, goal) <= GRID_ESTIMATE_BOUND by {
        lemma_euclidean_is_at_most_octile(n, goal);
    }
    assert forall|n: GridPos| #[trigger] usual_diagonal().estimate_of(n, goal) <= GRID_ESTIMATE_BOUND by {
        lemma_diagonal_is_octile(n, goal);
    }
    assert forall|n: GridPos| #[trigger] Heuristic::<GridPos>::estimate_of(&Zero, n, goal) <= GRID_ESTIMATE_BOUND by {}
}

} // verus!
