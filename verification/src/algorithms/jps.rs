//! Jump-point search: A* on a grid that expands to jump points instead of
//! immediate neighbors.

use vstd::prelude::*;
use crate::algorithms::astar::{iteration_limit, AStarConfig, TieBreaking};
use crate::algorithms::guarantees::reachable;
use crate::algorithms::on_grids::lemma_jump_route_means_reachable;
use crate::algorithms::steady::{is_consistent, is_linked_at, lemma_jps_cost_is_cost_of_runs};
use crate::algorithms::search::{
    is_cut_short, lemma_initial, search_run, turned, Entry, Search, SearchState, Turn,
};
use crate::clock::{now, whole_nanos};
use crate::cost::{cost_add, cost_sum, Cost, COST_INFINITY};
use crate::graphs::grid2d::{Grid2D, GridPos};
use crate::traits::{is_route, nothing_found, Graph, Heuristic, Keyed, Outcome, PathResult, PathStatus};

verus! {

/// The sign of `v`: -1, 0 or 1.
pub open spec fn signum(v: int) -> int {
    if v > 0 {
        1
    } else if v < 0 {
        -1
    } else {
        0
    }
}

/// Whether the cell is open.
pub open spec fn walkable(grid: &Grid2D, x: int, y: int) -> bool {
    !grid.blocked(x, y)
}

/// The cell `(x, y)` if `keep` holds, nothing otherwise.
pub open spec fn cell_if(keep: bool, x: int, y: int) -> Seq<GridPos> {
    if keep {
        seq![GridPos { x: x as i32, y: y as i32 }]
    } else {
        Seq::empty()
    }
}

/// Whether a single step `(dx, dy)` from `c` is possible.
pub open spec fn open_step(grid: &Grid2D, c: GridPos, dx: int, dy: int) -> bool {
    walkable(grid, c.x + dx, c.y + dy) && (dx != 0 && dy != 0 ==> grid.diagonal_allowed(c, dx, dy))
}

/// The neighbor in direction `(dx, dy)` as the only candidate, if the step is possible.
pub open spec fn step_if_open(grid: &Grid2D, c: GridPos, dx: int, dy: int) -> Seq<GridPos> {
    cell_if(open_step(grid, c, dx, dy), c.x + dx, c.y + dy)
}

/// The forced neighbor of `c` past the obstacle at `c + (ox, oy)`, reached by
/// the diagonal step `(dx, dy)`.
pub open spec fn forced_if(grid: &Grid2D, c: GridPos, ox: int, oy: int, dx: int, dy: int) -> Seq<GridPos> {
    cell_if(
        !walkable(grid, c.x + ox, c.y + oy) && walkable(grid, c.x + dx, c.y + dy) && grid.diagonal_allowed(
            c,
            dx,
            dy,
        ),
        c.x + dx,
        c.y + dy,
    )
}

/// With no direction of travel every possible step is a candidate.
pub open spec fn pruned_all(grid: &Grid2D, c: GridPos) -> Seq<GridPos> {
    step_if_open(grid, c, 0, 1) + step_if_open(grid, c, 1, 0) + step_if_open(grid, c, 0, -1) + step_if_open(
        grid,
        c,
        -1,
        0,
    ) + step_if_open(grid, c, 1, 1) + step_if_open(grid, c, 1, -1) + step_if_open(grid, c, -1, 1)
        + step_if_open(grid, c, -1, -1)
}

/// Travelling diagonally: the diagonal and its two components are natural,
/// and an obstacle beside the way in forces the diagonal around it.
pub open spec fn pruned_diagonal(grid: &Grid2D, c: GridPos, dx: int, dy: int) -> Seq<GridPos> {
    step_if_open(grid, c, dx, dy) + cell_if(walkable(grid, c.x + dx, c.y as int), c.x + dx, c.y as int)
        + cell_if(walkable(grid, c.x as int, c.y + dy), c.x as int, c.y + dy) + forced_if(
        grid,
        c,
        -dx,
        0,
        -dx,
        dy,
    ) + forced_if(grid, c, 0, -dy, dx, -dy)
}

/// Travelling along x: straight on is natural, and an obstacle above or
/// below forces the diagonal past it.
pub open spec fn pruned_horizontal(grid: &Grid2D, c: GridPos, dx: int) -> Seq<GridPos> {
    cell_if(walkable(grid, c.x + dx, c.y as int), c.x + dx, c.y as int) + forced_if(grid, c, 0, 1, dx, 1)
        + forced_if(grid, c, 0, -1, dx, -1)
}

/// Travelling along y: straight on is natural, and an obstacle left or
/// right forces the diagonal past it.
pub open spec fn pruned_vertical(grid: &Grid2D, c: GridPos, dy: int) -> Seq<GridPos> {
    cell_if(walkable(grid, c.x as int, c.y + dy), c.x as int, c.y + dy) + forced_if(grid, c, 1, 0, 1, dy)
        + forced_if(grid, c, -1, 0, -1, dy)
}

/// The neighbors of `c` worth looking at when it was reached from `parent`.
pub open spec fn pruned(grid: &Grid2D, c: GridPos, parent: Option<GridPos>) -> Seq<GridPos> {
    match parent {
        None => pruned_all(grid, c),
        Some(p) => {
            let dx = signum(c.x - p.x);
            let dy = signum(c.y - p.y);
            if dx != 0 && dy != 0 {
                pruned_diagonal(grid, c, dx, dy)
            } else if dx != 0 {
                pruned_horizontal(grid, c, dx)
            } else {
                pruned_vertical(grid, c, dy)
            }
        },
    }
}

/// How far a walk from `c` in direction `(dx, dy)` can go before it leaves the grid.
pub open spec fn jump_room(grid: &Grid2D, c: GridPos, dx: int, dy: int) -> nat {
    let rx: int = if dx > 0 {
        grid.width - c.x
    } else if dx < 0 {
        c.x + 1
    } else {
        0
    };
    let ry: int = if dy > 0 {
        grid.height - c.y
    } else if dy < 0 {
        c.y + 1
    } else {
        0
    };
    ((if rx > 0 { rx } else { 0 }) + (if ry > 0 { ry } else { 0 })) as nat
}

/// Whether the cell `(x, y)`, entered in direction `(dx, dy)`, has a forced neighbor.
pub open spec fn has_forced(grid: &Grid2D, x: int, y: int, dx: int, dy: int) -> bool {
    if dx != 0 && dy != 0 {
        (!walkable(grid, x - dx, y) && walkable(grid, x - dx, y + dy)) || (!walkable(grid, x, y - dy)
            && walkable(grid, x + dx, y - dy))
    } else if dx != 0 {
        (!walkable(grid, x, y + 1) && walkable(grid, x + dx, y + 1)) || (!walkable(grid, x, y - 1)
            && walkable(grid, x + dx, y - 1))
    } else {
        (!walkable(grid, x + 1, y) && walkable(grid, x + 1, y + dy)) || (!walkable(grid, x - 1, y)
            && walkable(grid, x - 1, y + dy))
    }
}

/// The jump point reached from `c` in direction `(dx, dy)`, if there is one:
/// the first cell along the way that is the goal, has a forced neighbor or,
/// on a diagonal, sees a jump point along one of the two axes.
pub open spec fn jump_point(grid: &Grid2D, c: GridPos, dx: int, dy: int, goal: GridPos) -> Option<GridPos>
    decreases (if dx != 0 && dy != 0 { 1int } else { 0int }), jump_room(grid, c, dx, dy),
{
    let nx = c.x + dx;
    let ny = c.y + dy;
    let next = GridPos { x: nx as i32, y: ny as i32 };
    if (dx == 0 && dy == 0) || !open_step(grid, c, dx, dy) {
        None
    } else if next == goal {
        Some(next)
    } else if has_forced(grid, nx, ny, dx, dy) {
        Some(next)
    } else if dx != 0 && dy != 0 && (jump_point(grid, next, dx, 0, goal) is Some || jump_point(
        grid,
        next,
        0,
        dy,
        goal,
    ) is Some) {
        Some(next)
    } else {
        jump_point(grid, next, dx, dy, goal)
    }
}

/// Whether `to` is reached from `from` by one or more steps `(dx, dy)`, each of them possible.
pub open spec fn is_run(grid: &Grid2D, from: GridPos, to: GridPos, dx: int, dy: int) -> bool
    decreases jump_room(grid, from, dx, dy),
{
    let next = GridPos { x: (from.x + dx) as i32, y: (from.y + dy) as i32 };
    &&& (dx != 0 || dy != 0)
    &&& open_step(grid, from, dx, dy)
    &&& (next == to || is_run(grid, next, to, dx, dy))
}

/// A jump point is reached by a run of possible steps.
pub proof fn lemma_jump_is_run(grid: &Grid2D, c: GridPos, dx: int, dy: int, goal: GridPos)
    requires
        -1 <= dx <= 1,
        -1 <= dy <= 1,
        jump_point(grid, c, dx, dy, goal) is Some,
    ensures
        is_run(grid, c, jump_point(grid, c, dx, dy, goal)->0, dx, dy),
    decreases jump_room(grid, c, dx, dy),
{
    let nx = c.x + dx;
    let ny = c.y + dy;
    let next = GridPos { x: nx as i32, y: ny as i32 };
    if jump_point(grid, c, dx, dy, goal) != Some(next) {
        lemma_jump_is_run(grid, next, dx, dy, goal);
    }
}

/// The octile distance between two cells: the cost of the straight and
/// diagonal steps of a shortest walk on an empty grid.
pub open spec fn octile_cost(a: GridPos, b: GridPos) -> Cost {
    let dx: int = if a.x >= b.x { a.x - b.x } else { b.x - a.x };
    let dy: int = if a.y >= b.y { a.y - b.y } else { b.y - a.y };
    let low = if dx <= dy { dx } else { dy };
    let high = if dx <= dy { dy } else { dx };
    (414_214 * low + 1_000_000 * high) as Cost
}

/// The relation between consecutive nodes of a jump-point path: a straight or
/// diagonal run of possible steps, at its octile cost.
pub open spec fn jump_link(grid: &Grid2D) -> spec_fn(GridPos, GridPos, Cost) -> bool {
    |from: GridPos, to: GridPos, c: Cost| reaches(grid, from, to) && c == octile_cost(from, to)
}

/// Whether `to` is reached from `from` by a run in one of the eight directions.
pub open spec fn reaches(grid: &Grid2D, from: GridPos, to: GridPos) -> bool {
    exists|dx: int, dy: int| -1 <= dx <= 1 && -1 <= dy <= 1 && #[trigger] is_run(grid, from, to, dx, dy)
}

/// The jump points found from `current` in the directions of the first `n` of
/// `candidates`; a candidate that is not one step away gives none.
pub open spec fn successors(grid: &Grid2D, current: GridPos, candidates: Seq<GridPos>, goal: GridPos, n: nat) -> Seq<
    GridPos,
>
    decreases n,
{
    if n == 0 {
        Seq::empty()
    } else {
        let before = successors(grid, current, candidates, goal, (n - 1) as nat);
        let dx = candidates[n - 1].x - current.x;
        let dy = candidates[n - 1].y - current.y;
        if -1 <= dx <= 1 && -1 <= dy <= 1 {
            match jump_point(grid, current, dx, dy, goal) {
                Some(p) => before.push(p),
                None => before,
            }
        } else {
            before
        }
    }
}

/// The predecessor recorded for `current`, if any.
pub open spec fn came_from(s: SearchState<GridPos>, current: GridPos) -> Option<GridPos> {
    if s.parent.contains_key(current.key_of()) {
        Some(s.parent[current.key_of()])
    } else {
        None
    }
}

/// The state after the first `n` of the jump points `found` have been relaxed.
pub open spec fn relaxed_jumps<H: Heuristic<GridPos>>(
    s: SearchState<GridPos>,
    heuristic: &H,
    goal: GridPos,
    mode: TieBreaking,
    current: GridPos,
    g: Cost,
    found: Seq<GridPos>,
    n: nat,
) -> SearchState<GridPos>
    decreases n,
{
    if n == 0 {
        s
    } else {
        let to = found[n - 1];
        let c = octile_cost(current, to);
        relaxed_jumps(s, heuristic, goal, mode, current, g, found, (n - 1) as nat).relaxed(
            to,
            current,
            cost_sum(g, c),
            c,
            heuristic.estimate_of(to, goal),
            mode,
        )
    }
}

/// What expanding a node does in jump-point search.
pub open spec fn jps_grow<H: Heuristic<GridPos>>(
    grid: &Grid2D,
    heuristic: &H,
    goal: GridPos,
    mode: TieBreaking,
) -> spec_fn(SearchState<GridPos>, Entry<GridPos>) -> SearchState<GridPos> {
    |s: SearchState<GridPos>, e: Entry<GridPos>|
        {
            let candidates = pruned(grid, e.node, came_from(s, e.node));
            let found = successors(grid, e.node, candidates, goal, candidates.len());
            relaxed_jumps(s, heuristic, goal, mode, e.node, e.g, found, found.len())
        }
}

/// The result of jump-point search when no time limit cuts it short.
pub open spec fn jps_outcome<H: Heuristic<GridPos>>(
    grid: &Grid2D,
    heuristic: &H,
    start: GridPos,
    goal: GridPos,
    config: AStarConfig,
) -> Outcome<GridPos> {
    if !grid.passable(start) || !grid.passable(goal) {
        nothing_found(0)
    } else {
        search_run(
            SearchState::initial(start, heuristic.estimate_of(start, goal)),
            goal,
            iteration_limit(config),
            jps_grow(grid, heuristic, goal, config.tie_breaking),
        )
    }
}

fn is_walkable(grid: &Grid2D, x: i64, y: i64) -> (r: bool)
    requires
        grid.well_formed(),
    ensures
        r == walkable(grid, x as int, y as int),
{
    !grid.blocked_at(x, y)
}

fn sign_of(v: i64) -> (r: i32)
    ensures
        r == signum(v as int),
{
    if v > 0 {
        1
    } else if v < 0 {
        -1
    } else {
        0
    }
}

fn push_if(out: &mut Vec<GridPos>, keep: bool, x: i64, y: i64)
    requires
        keep ==> i32::MIN <= x <= i32::MAX && i32::MIN <= y <= i32::MAX,
    ensures
        final(out)@ == old(out)@ + cell_if(keep, x as int, y as int),
{
    if keep {
        out.push(GridPos { x: x as i32, y: y as i32 });
    }
    proof {
        assert(out@ =~= old(out)@ + cell_if(keep, x as int, y as int));
    }
}

fn step_open(grid: &Grid2D, c: GridPos, dx: i32, dy: i32) -> (r: bool)
    requires
        grid.well_formed(),
        -1 <= dx <= 1,
        -1 <= dy <= 1,
    ensures
        r == open_step(grid, c, dx as int, dy as int),
{
    if !is_walkable(grid, c.x as i64 + dx as i64, c.y as i64 + dy as i64) {
        return false;
    }
    if dx != 0 && dy != 0 {
        return grid.diagonal_movement_allowed(c, dx, dy);
    }
    true
}

fn push_step(grid: &Grid2D, out: &mut Vec<GridPos>, c: GridPos, dx: i32, dy: i32)
    requires
        grid.well_formed(),
        -1 <= dx <= 1,
        -1 <= dy <= 1,
    ensures
        final(out)@ == old(out)@ + step_if_open(grid, c, dx as int, dy as int),
{
    let keep: bool = step_open(grid, c, dx, dy);
    push_if(out, keep, c.x as i64 + dx as i64, c.y as i64 + dy as i64);
}

fn push_straight(grid: &Grid2D, out: &mut Vec<GridPos>, c: GridPos, dx: i32, dy: i32)
    requires
        grid.well_formed(),
        -1 <= dx <= 1,
        -1 <= dy <= 1,
    ensures
        final(out)@ == old(out)@ + cell_if(walkable(grid, c.x + dx, c.y + dy), c.x + dx, c.y + dy),
{
    let x: i64 = c.x as i64 + dx as i64;
    let y: i64 = c.y as i64 + dy as i64;
    let keep: bool = is_walkable(grid, x, y);
    push_if(out, keep, x, y);
}

fn push_forced(grid: &Grid2D, out: &mut Vec<GridPos>, c: GridPos, ox: i32, oy: i32, dx: i32, dy: i32)
    requires
        grid.well_formed(),
        -1 <= ox <= 1,
        -1 <= oy <= 1,
        -1 <= dx <= 1,
        -1 <= dy <= 1,
    ensures
        final(out)@ == old(out)@ + forced_if(grid, c, ox as int, oy as int, dx as int, dy as int),
{
    let x: i64 = c.x as i64 + dx as i64;
    let y: i64 = c.y as i64 + dy as i64;
    let keep: bool = !is_walkable(grid, c.x as i64 + ox as i64, c.y as i64 + oy as i64) && is_walkable(grid, x, y)
        && grid.diagonal_movement_allowed(c, dx, dy);
    push_if(out, keep, x, y);
}

/// The neighbors of `current` worth looking at when it was reached from `parent`.
pub fn prune_neighbors(grid: &Grid2D, current: GridPos, parent: Option<GridPos>) -> (r: Vec<GridPos>)
    requires
        grid.well_formed(),
    ensures
        r@ == pruned(grid, current, parent),
{
    let mut out: Vec<GridPos> = Vec::new();
    proof {
        assert(out@ =~= Seq::empty());
    }
    match parent {
        None => {
            push_step(grid, &mut out, current, 0, 1);
            push_step(grid, &mut out, current, 1, 0);
            push_step(grid, &mut out, current, 0, -1);
            push_step(grid, &mut out, current, -1, 0);
            push_step(grid, &mut out, current, 1, 1);
            push_step(grid, &mut out, current, 1, -1);
            push_step(grid, &mut out, current, -1, 1);
            push_step(grid, &mut out, current, -1, -1);
            proof {
                assert(out@ =~= pruned_all(grid, current));
            }
        },
        Some(p) => {
            let dx: i32 = sign_of(current.x as i64 - p.x as i64);
            let dy: i32 = sign_of(current.y as i64 - p.y as i64);
            if dx != 0 && dy != 0 {
                push_step(grid, &mut out, current, dx, dy);
                push_straight(grid, &mut out, current, dx, 0);
                push_straight(grid, &mut out, current, 0, dy);
                push_forced(grid, &mut out, current, -dx, 0, -dx, dy);
                push_forced(grid, &mut out, current, 0, -dy, dx, -dy);
                proof {
                    assert(out@ =~= pruned_diagonal(grid, current, dx as int, dy as int));
                }
            } else if dx != 0 {
                push_straight(grid, &mut out, current, dx, 0);
                push_forced(grid, &mut out, current, 0, 1, dx, 1);
                push_forced(grid, &mut out, current, 0, -1, dx, -1);
                proof {
                    assert(out@ =~= pruned_horizontal(grid, current, dx as int));
                }
            } else {
                push_straight(grid, &mut out, current, 0, dy);
                push_forced(grid, &mut out, current, 1, 0, 1, dy);
                push_forced(grid, &mut out, current, -1, 0, -1, dy);
                proof {
                    assert(out@ =~= pruned_vertical(grid, current, dy as int));
                }
            }
        },
    }
    out
}

fn forced_at(grid: &Grid2D, x: i64, y: i64, dx: i32, dy: i32) -> (r: bool)
    requires
        grid.well_formed(),
        -1 <= dx <= 1,
        -1 <= dy <= 1,
        i32::MIN <= x <= i32::MAX,
        i32::MIN <= y <= i32::MAX,
    ensures
        r == has_forced(grid, x as int, y as int, dx as int, dy as int),
{
    let ex: i64 = dx as i64;
    let ey: i64 = dy as i64;
    if dx != 0 && dy != 0 {
        (!is_walkable(grid, x - ex, y) && is_walkable(grid, x - ex, y + ey)) || (!is_walkable(grid, x, y - ey)
            && is_walkable(grid, x + ex, y - ey))
    } else if dx != 0 {
        (!is_walkable(grid, x, y + 1) && is_walkable(grid, x + ex, y + 1)) || (!is_walkable(grid, x, y - 1)
            && is_walkable(grid, x + ex, y - 1))
    } else {
        (!is_walkable(grid, x + 1, y) && is_walkable(grid, x + 1, y + ey)) || (!is_walkable(grid, x - 1, y)
            && is_walkable(grid, x - 1, y + ey))
    }
}

/// The jump point reached from `current` in direction `(dx, dy)`, if there is one.
pub fn jump(grid: &Grid2D, current: GridPos, dx: i32, dy: i32, goal: GridPos) -> (r: Option<GridPos>)
    requires
        grid.well_formed(),
        -1 <= dx <= 1,
        -1 <= dy <= 1,
    ensures
        r == jump_point(grid, current, dx as int, dy as int, goal),
    decreases (if dx != 0 && dy != 0 { 1int } else { 0int }), jump_room(grid, current, dx as int, dy as int),
{
    if dx == 0 && dy == 0 {
        return None;
    }
    if !step_open(grid, current, dx, dy) {
        return None;
    }
    let nx: i64 = current.x as i64 + dx as i64;
    let ny: i64 = current.y as i64 + dy as i64;
    let next = GridPos { x: nx as i32, y: ny as i32 };
    if next == goal {
        return Some(next);
    }
    if forced_at(grid, nx, ny, dx, dy) {
        return Some(next);
    }
    if dx != 0 && dy != 0 {
        if jump(grid, next, dx, 0, goal).is_some() || jump(grid, next, 0, dy, goal).is_some() {
            return Some(next);
        }
    }
    jump(grid, next, dx, dy, goal)
}

/// The octile distance between two cells.
pub fn distance(a: GridPos, b: GridPos) -> (r: Cost)
    ensures
        r == octile_cost(a, b),
{
    let dx: u64 = if a.x >= b.x { (a.x as i64 - b.x as i64) as u64 } else { (b.x as i64 - a.x as i64) as u64 };
    let dy: u64 = if a.y >= b.y { (a.y as i64 - b.y as i64) as u64 } else { (b.y as i64 - a.y as i64) as u64 };
    let low: u64 = if dx <= dy { dx } else { dy };
    let high: u64 = if dx <= dy { dy } else { dx };
    414_214 * low + 1_000_000 * high
}

/// The jump points that can be reached from `current`, which was reached from `parent`.
pub fn find_successors(grid: &Grid2D, current: GridPos, parent: Option<GridPos>, goal: GridPos) -> (r: Vec<
    GridPos,
>)
    requires
        grid.well_formed(),
    ensures
        r@ == successors(
            grid,
            current,
            pruned(grid, current, parent),
            goal,
            pruned(grid, current, parent).len(),
        ),
        forall|i: int| 0 <= i < r@.len() ==> reaches(grid, current, #[trigger] r@[i]),
{
    let candidates: Vec<GridPos> = prune_neighbors(grid, current, parent);
    let mut found: Vec<GridPos> = Vec::new();
    let mut i: usize = 0;
    while i < candidates.len()
        invariant
            grid.well_formed(),
            i <= candidates.len(),
            candidates@ == pruned(grid, current, parent),
            found@ == successors(grid, current, candidates@, goal, i as nat),
            forall|j: int| 0 <= j < found@.len() ==> reaches(grid, current, #[trigger] found@[j]),
        decreases candidates.len() - i,
    {
        let c: GridPos = candidates[i];
        let wx: i64 = c.x as i64 - current.x as i64;
        let wy: i64 = c.y as i64 - current.y as i64;
        if -1 <= wx && wx <= 1 && -1 <= wy && wy <= 1 {
            let dx: i32 = wx as i32;
            let dy: i32 = wy as i32;
            match jump(grid, current, dx, dy, goal) {
                Some(p) => {
                    proof {
                        lemma_jump_is_run(grid, current, dx as int, dy as int, goal);
                        assert(is_run(grid, current, p, dx as int, dy as int));
                    }
                    found.push(p);
                },
                None => {},
            }
        }
        i += 1;
    }
    found
}

fn expand<H: Heuristic<GridPos>>(
    search: &mut Search<GridPos>,
    grid: &Grid2D,
    heuristic: &H,
    goal: &GridPos,
    mode: TieBreaking,
    current: GridPos,
    g: Cost,
    Ghost(start): Ghost<GridPos>,
)
    requires
        grid.well_formed(),
        old(search)@.inv(start, jump_link(grid)),
        old(search)@.has_room_to_grow(),
        old(search)@.best.contains_key(current.key_of()),
        old(search)@.best[current.key_of()] <= g,
    ensures
        final(search)@ == jps_grow(grid, heuristic, *goal, mode)(
            old(search)@,
            Entry { f: 0, tie: 0, seq: 0, g, node: current },
        ),
        final(search)@.inv(start, jump_link(grid)),
        final(search)@.has_room(),
        final(search)@.iterations == old(search)@.iterations,
{
    let parent: Option<GridPos> = search.parent_of(&current);
    let found: Vec<GridPos> = find_successors(grid, current, parent, *goal);
    let ghost link = jump_link(grid);
    let ghost s0 = search@;
    let mut i: usize = 0;
    proof {
        assert(s0.expanded * usize::MAX <= usize::MAX * usize::MAX) by (nonlinear_arith)
            requires
                s0.expanded <= usize::MAX,
        ;
        assert((s0.expanded - 1) * usize::MAX + usize::MAX == s0.expanded * usize::MAX)
            by (nonlinear_arith);
        assert(usize::MAX * usize::MAX <= 0xffff_ffff_ffff_ffff * 0xffff_ffff_ffff_ffff) by (nonlinear_arith)
            requires
                usize::MAX <= 0xffff_ffff_ffff_ffff,
        ;
    }
    while i < found.len()
        invariant
            i <= found.len(),
            forall|j: int| 0 <= j < found@.len() ==> reaches(grid, current, #[trigger] found@[j]),
            search@ == relaxed_jumps(s0, heuristic, *goal, mode, current, g, found@, i as nat),
            search@.inv(start, link),
            link == jump_link(grid),
            search@.best.contains_key(current.key_of()),
            search@.best[current.key_of()] <= g,
            search@.next_seq <= s0.next_seq + i,
            s0.next_seq <= 1 + (s0.expanded - 1) * usize::MAX,
            (s0.expanded - 1) * usize::MAX + usize::MAX == s0.expanded * usize::MAX,
            s0.expanded * usize::MAX <= usize::MAX * usize::MAX,
            usize::MAX * usize::MAX + 1 < u128::MAX,
            search@.iterations == s0.iterations,
            search@.expanded == s0.expanded,
        decreases found.len() - i,
    {
        let to: GridPos = found[i];
        let c: Cost = distance(current, to);
        let reached: Cost = cost_add(g, c);
        proof {
            assert(reaches(grid, current, found@[i as int]));
            assert(link(current, to, c));
        }
        search.relax(heuristic, goal, mode, to, current, reached, Ghost(c), Ghost(start), Ghost(link));
        i += 1;
    }
}

/// The search itself, with what the loop establishes of its result.
fn search<H: Heuristic<GridPos>>(
    grid: &Grid2D,
    heuristic: &H,
    start: GridPos,
    goal: GridPos,
    config: AStarConfig,
) -> (r: PathResult<GridPos>)
    requires
        grid.well_formed(),
    ensures
        r.status != PathStatus::PartialTimeout ==> r@ == jps_outcome(grid, heuristic, start, goal, config),
        r.status == PathStatus::PartialTimeout ==> config.timeout is Some,
        !grid.passable(start) || !grid.passable(goal) ==> r@ == nothing_found::<GridPos>(0),
        r.status == PathStatus::PartialTimeout ==> is_cut_short(
            SearchState::initial(start, heuristic.estimate_of(start, goal)),
            goal,
            iteration_limit(config),
            jps_grow(grid, heuristic, goal, config.tie_breaking),
            r@,
        ),
        r.status == PathStatus::NotFound ==> r.path@.len() == 0 && r.cost == 0,
        r.status != PathStatus::NotFound ==> is_route(r.path@, start, r.cost, jump_link(grid)),
        r.status == PathStatus::Found ==> r.path@.last() == goal,
{
    if !grid.is_passable(&start) || !grid.is_passable(&goal) {
        return PathResult::not_found(0);
    }
    let clock = now();
    let h0: Cost = heuristic.estimate(&start, &goal);
    let mut search: Search<GridPos> = Search::new(start, h0);
    let limit: usize = match config.max_iterations {
        Some(m) => m,
        None => usize::MAX,
    };
    let allowed: Option<u128> = match config.timeout {
        Some(t) => Some(whole_nanos(&t)),
        None => None,
    };
    let ghost link = jump_link(grid);
    let ghost grow = jps_grow(grid, heuristic, goal, config.tie_breaking);
    let ghost init = search@;
    let ghost mut k: nat = 0;
    proof {
        lemma_initial(start, h0, link);
        assert(1 + 0 * usize::MAX == 1) by (nonlinear_arith);
    }
    loop
        invariant
            init == SearchState::initial(start, heuristic.estimate_of(start, goal)),
            search@ == turned(init, goal, limit, grow, k),
            allowed is Some ==> config.timeout is Some,
            grid.passable(start),
            grid.passable(goal),
            grid.well_formed(),
            link == jump_link(grid),
            grow == jps_grow(grid, heuristic, goal, config.tie_breaking),
            limit == iteration_limit(config),
            search@.inv(start, link),
            search@.has_room(),
            search_run(search@, goal, limit, grow) == jps_outcome(grid, heuristic, start, goal, config),
        decreases limit - search@.iterations,
    {
        let ghost before = search@;
        match search.turn(&goal, limit, &clock, &allowed, Ghost(start), Ghost(link)) {
            Turn::Done(res) => {
                proof {
                    if res.status == PathStatus::PartialTimeout {
                        assert(is_cut_short(init, goal, limit, grow, res@));
                    }
                }
                return res;
            },
            Turn::Skip => {
                proof {
                    k = k + 1;
                }
            },
            Turn::Expand(e) => {
                expand(&mut search, grid, heuristic, &goal, config.tie_breaking, e.node, e.g, Ghost(start));
                proof {
                    k = k + 1;
                }
            },
        }
    }
}

/// Finds a path from `start` to `goal` whose nodes are jump points.
///
/// Unless the time limit cuts the search short, the result is `jps_outcome`.
/// Consecutive nodes of every path returned are joined by a straight or
/// diagonal run of possible steps, and the octile costs of the runs sum to no
/// more than the cost reported; so where a path is found, the goal can be
/// reached along edges of the grid. With a consistent heuristic, such as the
/// diagonal one with the usual step costs, the octile costs of the runs sum
/// to the cost reported.
pub fn jps<H: Heuristic<GridPos>>(
    grid: &Grid2D,
    heuristic: &H,
    start: GridPos,
    goal: GridPos,
    config: AStarConfig,
) -> (r: PathResult<GridPos>)
    requires
        grid.well_formed(),
    ensures
        r.status != PathStatus::PartialTimeout ==> r@ == jps_outcome(grid, heuristic, start, goal, config),
        r.status == PathStatus::PartialTimeout ==> config.timeout is Some,
        !grid.passable(start) || !grid.passable(goal) ==> r@ == nothing_found::<GridPos>(0),
        r.status == PathStatus::PartialTimeout ==> is_cut_short(
            SearchState::initial(start, heuristic.estimate_of(start, goal)),
            goal,
            iteration_limit(config),
            jps_grow(grid, heuristic, goal, config.tie_breaking),
            r@,
        ),
        r.status == PathStatus::NotFound ==> r.path@.len() == 0 && r.cost == 0,
        r.status != PathStatus::NotFound ==> is_route(r.path@, start, r.cost, jump_link(grid)),
        r.status == PathStatus::Found ==> r.path@.last() == goal && reachable(grid, start, goal),
        r.status == PathStatus::Found && is_consistent(heuristic, goal, jump_link(grid)) && r.cost
            + heuristic.estimate_of(goal, goal) < COST_INFINITY ==> is_linked_at(
            r.path@,
            start,
            r.cost,
            jump_link(grid),
        ),
{
    let r = search(grid, heuristic, start, goal, config);
    proof {
        if r.status == PathStatus::Found {
            lemma_jump_route_means_reachable(grid, r.path@, start, r.cost);
            if is_consistent(heuristic, goal, jump_link(grid)) && r.cost + heuristic.estimate_of(goal, goal)
                < COST_INFINITY {
                lemma_jps_cost_is_cost_of_runs(grid, heuristic, start, goal, config);
            }
        }
    }
    r
}

} // verus!
