//! With a consistent heuristic, one whose estimate drops along no link by
//! more than the link costs, the priorities of the entries that leave the
//! frontier never fall. So no node is reached more cheaply once it has been
//! expanded, and the cost reported for a path found is the sum of the costs of
//! the path's own links. This is shown here for jump-point search, whose
//! links are runs of steps at their octile cost.

use vstd::prelude::*;
use vstd::multiset::Multiset;
use crate::algorithms::astar::{iteration_limit, tie_rank, AStarConfig, TieBreaking};
use crate::algorithms::guarantees::{is_open, lemma_has_first};
use crate::algorithms::jps::{
    came_from, is_run, jps_grow, jps_outcome, jump_link, lemma_jump_is_run, octile_cost, pruned, reaches,
    relaxed_jumps, successors,
};
use crate::algorithms::on_grids::{apart, lemma_diagonal_is_octile, octile, usual_diagonal};
use crate::algorithms::search::{
    entry_before, first_entry, is_first, lemma_initial, search_run, Entry, SearchState,
};
use crate::cost::{cost_sum, Cost, COST_INFINITY};
use crate::graphs::grid2d::{Grid2D, GridPos};
use crate::heuristics::Zero;
use crate::traits::{is_linked_path, total_cost, Graph, Heuristic, Keyed, PathStatus};

verus! {

broadcast use vstd::multiset::group_multiset_axioms;

/// Whether the estimate of `heuristic` towards `goal` drops along no link by more than the link costs.
pub open spec fn is_consistent<N, H: Heuristic<N>>(heuristic: &H, goal: N, link: spec_fn(N, N, Cost) -> bool) -> bool {
    forall|a: N, b: N, c: Cost| #[trigger]
        link(a, b, c) ==> heuristic.estimate_of(a, goal) <= c + heuristic.estimate_of(b, goal)
}

/// Whether `path` leads from `start` along links that cost `cost` in all.
pub open spec fn is_linked_at<N>(path: Seq<N>, start: N, cost: Cost, link: spec_fn(N, N, Cost) -> bool) -> bool {
    exists|costs: Seq<Cost>| #[trigger]
        is_linked_path(path, costs, link) && path[0] == start && total_cost(costs) == cost
}

/// What holds of an entry on the frontier: it is priced by the heuristic, at
/// no less than the last entry that left.
pub open spec fn priced_above<N: Keyed, H: Heuristic<N>>(floor: Cost, heuristic: &H, goal: N, e: Entry<N>) -> bool {
    floor <= e.f && e.f == cost_sum(e.g, heuristic.estimate_of(e.node, goal))
}

/// An entry on the frontier at the best cost of its node is the node's
/// live entry, and the node has not been expanded.
pub open spec fn fresh_if_best<N: Keyed>(s: SearchState<N>, done: Set<u128>, cur: Option<N>, e: Entry<N>) -> bool {
    e.g == s.best[e.node.key_of()] ==> e == s.live[e.node.key_of()] && !done.contains(e.node.key_of()) && Some(e.node)
        != cur
}

/// The best cost of a node is that of its predecessor plus the step, and
/// the predecessor has been expanded or is being expanded.
pub open spec fn link_clean<N: Keyed>(s: SearchState<N>, done: Set<u128>, cur: Option<N>, n: N) -> bool {
    let k = n.key_of();
    let p = s.parent[k];
    s.best[k] == cost_sum(s.best[p.key_of()], s.step[k]) && (done.contains(p.key_of()) || Some(p) == cur)
}

/// A node that has been expanded was priced at no more than the last entry that left.
pub open spec fn done_ok<N: Keyed, H: Heuristic<N>>(
    s: SearchState<N>,
    floor: Cost,
    heuristic: &H,
    goal: N,
    n: N,
) -> bool {
    s.best.contains_key(n.key_of()) && cost_sum(s.best[n.key_of()], heuristic.estimate_of(n, goal)) <= floor
}

/// The invariant of a search with a consistent heuristic: `done` holds the
/// nodes expanded so far, `floor` is the priority of the last entry that
/// left the frontier, and `cur` the node being expanded, if any.
pub open spec fn steady<N: Keyed, H: Heuristic<N>>(
    s: SearchState<N>,
    done: Set<u128>,
    floor: Cost,
    heuristic: &H,
    goal: N,
    cur: Option<N>,
) -> bool {
    &&& forall|e: Entry<N>| #[trigger] s.frontier.count(e) > 0 ==> priced_above(floor, heuristic, goal, e)
    &&& cur matches Some(x) ==> s.best.contains_key(x.key_of()) && floor == cost_sum(
        s.best[x.key_of()],
        heuristic.estimate_of(x, goal),
    )
    &&& floor < COST_INFINITY ==> {
        &&& forall|e: Entry<N>| #[trigger] s.frontier.count(e) > 0 ==> fresh_if_best(s, done, cur, e)
        &&& forall|n: N| #[trigger] s.parent.contains_key(n.key_of()) ==> link_clean(s, done, cur, n)
        &&& forall|n: N| #[trigger] done.contains(n.key_of()) ==> done_ok(s, floor, heuristic, goal, n)
        &&& forall|n: N| #[trigger]
            s.best.contains_key(n.key_of()) ==> done.contains(n.key_of()) || Some(n) == cur || is_open(s, n)
        &&& !done.contains(goal.key_of())
        &&& cur matches Some(x) ==> x.key_of() != goal.key_of() && !done.contains(x.key_of())
    }
}

/// The search that has only seen its start is steady.
pub proof fn lemma_initial_steady<N: Keyed, H: Heuristic<N>>(heuristic: &H, start: N, goal: N)
    ensures
        steady(
            SearchState::initial(start, heuristic.estimate_of(start, goal)),
            Set::empty(),
            0,
            heuristic,
            goal,
            None,
        ),
{
    let h = heuristic.estimate_of(start, goal);
    let s = SearchState::initial(start, h);
    let first = Entry { f: h, tie: 0, seq: 0, g: 0, node: start };
    assert(s.frontier.count(first) > 0);
    assert forall|e: Entry<N>| #[trigger] s.frontier.count(e) > 0 implies e == first by {
        if e != first {
            assert(Multiset::<Entry<N>>::empty().insert(first).count(e) == 0);
        }
    }
    assert forall|n: N| #[trigger] s.best.contains_key(n.key_of()) implies is_open(s, n) by {
        N::key_is_injective(n, start);
    }
}

/// Relaxing a link from the node being expanded keeps the search steady.
pub proof fn lemma_relaxed_steady<N: Keyed, H: Heuristic<N>>(
    s: SearchState<N>,
    done: Set<u128>,
    floor: Cost,
    heuristic: &H,
    goal: N,
    x: N,
    to: N,
    c: Cost,
    mode: TieBreaking,
    start: N,
    link: spec_fn(N, N, Cost) -> bool,
)
    requires
        s.inv(start, link),
        steady(s, done, floor, heuristic, goal, Some(x)),
        is_consistent(heuristic, goal, link),
        s.next_seq < u128::MAX,
        link(x, to, c),
    ensures
        steady(
            s.relaxed(to, x, cost_sum(s.best[x.key_of()], c), c, heuristic.estimate_of(to, goal), mode),
            done,
            floor,
            heuristic,
            goal,
            Some(x),
        ),
{
    let gx = s.best[x.key_of()];
    let g = cost_sum(gx, c);
    let h = heuristic.estimate_of(to, goal);
    let t = s.relaxed(to, x, g, c, h, mode);
    let k = to.key_of();
    let cur = Some(x);
    s.lemma_relaxed(to, x, g, c, h, mode, start, link);
    if s.improves(to, g) {
        let e = Entry { f: cost_sum(g, h), tie: tie_rank(mode, g), seq: s.next_seq, g, node: to };
        assert(heuristic.estimate_of(x, goal) <= c + h);
        assert(floor <= e.f);
        assert forall|o: Entry<N>| #[trigger] t.frontier.count(o) > 0 implies priced_above(floor, heuristic, goal, o) by {
            if o != e {
                assert(s.frontier.count(o) > 0);
            }
        }
        if floor < COST_INFINITY {
            if done.contains(k) {
                assert(done_ok(s, floor, heuristic, goal, to));
                assert(false);
            }
            assert forall|o: Entry<N>| #[trigger] t.frontier.count(o) > 0 implies fresh_if_best(t, done, cur, o) by {
                if o != e {
                    assert(s.frontier.count(o) > 0);
                    assert(fresh_if_best(s, done, cur, o));
                    if o.node.key_of() == k {
                        N::key_is_injective(o.node, to);
                    }
                }
            }
            assert forall|n: N| #[trigger] t.parent.contains_key(n.key_of()) implies link_clean(t, done, cur, n) by {
                if n.key_of() == k {
                    N::key_is_injective(n, to);
                } else {
                    assert(s.parent.contains_key(n.key_of()));
                    assert(link_clean(s, done, cur, n));
                    let p = s.parent[n.key_of()];
                    if p.key_of() == k {
                        N::key_is_injective(p, to);
                    }
                }
            }
            assert forall|n: N| #[trigger] done.contains(n.key_of()) implies done_ok(t, floor, heuristic, goal, n) by {
                assert(done_ok(s, floor, heuristic, goal, n));
            }
            assert forall|n: N| #[trigger] t.best.contains_key(n.key_of()) implies done.contains(n.key_of()) || Some(
                n,
            ) == cur || is_open(t, n) by {
                if n.key_of() == k {
                    N::key_is_injective(n, to);
                    assert(t.frontier.count(e) > 0);
                    assert(is_open(t, n));
                } else {
                    assert(s.best.contains_key(n.key_of()));
                    if is_open(s, n) {
                        assert(is_open(t, n));
                    }
                }
            }
        }
    }
}

/// Taking the first entry off the frontier keeps the search steady, with
/// the priority of that entry as the new floor.
pub proof fn lemma_taken_steady<N: Keyed, H: Heuristic<N>>(
    s: SearchState<N>,
    done: Set<u128>,
    floor: Cost,
    heuristic: &H,
    goal: N,
    e: Entry<N>,
    start: N,
    link: spec_fn(N, N, Cost) -> bool,
)
    requires
        s.inv(start, link),
        steady(s, done, floor, heuristic, goal, None),
        is_first(s.frontier, e),
        e.node.key_of() != goal.key_of(),
    ensures
        ({
            let t = s.without(e).counted();
            if t.best[e.node.key_of()] < e.g {
                steady(t, done, e.f, heuristic, goal, None)
            } else {
                steady(t.opened(), done, e.f, heuristic, goal, Some(e.node)) && t.best[e.node.key_of()] == e.g
            }
        }),
{
    let t = s.without(e).counted();
    let u = t.opened();
    let x = e.node;
    assert(priced_above(floor, heuristic, goal, e));
    assert(s.frontier.count(e) <= 1);
    assert forall|o: Entry<N>| #[trigger] t.frontier.count(o) > 0 implies s.frontier.count(o) > 0 && o != e by {}
    assert forall|o: Entry<N>| #[trigger] t.frontier.count(o) > 0 implies priced_above(e.f, heuristic, goal, o) by {
        assert(entry_before(e, o));
        assert(priced_above(floor, heuristic, goal, o));
    }
    if t.best[x.key_of()] < e.g {
        if e.f < COST_INFINITY {
            assert forall|o: Entry<N>| #[trigger] t.frontier.count(o) > 0 implies fresh_if_best(t, done, None, o) by {
                assert(fresh_if_best(s, done, None, o));
            }
            assert forall|n: N| #[trigger] t.parent.contains_key(n.key_of()) implies link_clean(t, done, None, n) by {
                assert(link_clean(s, done, None, n));
            }
            assert forall|n: N| #[trigger] done.contains(n.key_of()) implies done_ok(t, e.f, heuristic, goal, n) by {
                assert(done_ok(s, floor, heuristic, goal, n));
            }
            assert forall|n: N| #[trigger] t.best.contains_key(n.key_of()) implies done.contains(n.key_of())
                || is_open(t, n) by {
                if !done.contains(n.key_of()) {
                    assert(is_open(s, n));
                    assert(s.live[n.key_of()] != e);
                }
            }
        }
    } else {
        assert(t.best[x.key_of()] == e.g);
        let cur = Some(x);
        if e.f < COST_INFINITY {
            assert(fresh_if_best(s, done, None, e));
            assert forall|o: Entry<N>| #[trigger] u.frontier.count(o) > 0 implies fresh_if_best(u, done, cur, o) by {
                assert(fresh_if_best(s, done, None, o));
                if o.node.key_of() == x.key_of() {
                    N::key_is_injective(o.node, x);
                }
            }
            assert forall|n: N| #[trigger] u.parent.contains_key(n.key_of()) implies link_clean(u, done, cur, n) by {
                assert(link_clean(s, done, None, n));
            }
            assert forall|n: N| #[trigger] done.contains(n.key_of()) implies done_ok(u, e.f, heuristic, goal, n) by {
                assert(done_ok(s, floor, heuristic, goal, n));
            }
            assert forall|n: N| #[trigger] u.best.contains_key(n.key_of()) implies done.contains(n.key_of()) || Some(
                n,
            ) == cur || is_open(u, n) by {
                if !done.contains(n.key_of()) && n != x {
                    assert(is_open(s, n));
                    if s.live[n.key_of()] == e {
                        N::key_is_injective(n, x);
                    }
                    assert(is_open(u, n));
                }
            }
        }
    }
}

/// Once every link of the node being expanded is relaxed, the node counts as expanded.
pub proof fn lemma_expanded_steady<N: Keyed, H: Heuristic<N>>(
    s: SearchState<N>,
    done: Set<u128>,
    floor: Cost,
    heuristic: &H,
    goal: N,
    x: N,
)
    requires
        steady(s, done, floor, heuristic, goal, Some(x)),
    ensures
        steady(s, done.insert(x.key_of()), floor, heuristic, goal, None),
{
    let wider = done.insert(x.key_of());
    if floor < COST_INFINITY {
        assert forall|e: Entry<N>| #[trigger] s.frontier.count(e) > 0 implies fresh_if_best(s, wider, None, e) by {
            assert(fresh_if_best(s, done, Some(x), e));
            if e.node.key_of() == x.key_of() {
                N::key_is_injective(e.node, x);
            }
        }
        assert forall|n: N| #[trigger] s.parent.contains_key(n.key_of()) implies link_clean(s, wider, None, n) by {
            assert(link_clean(s, done, Some(x), n));
        }
        assert forall|n: N| #[trigger] wider.contains(n.key_of()) implies done_ok(s, floor, heuristic, goal, n) by {
            if n.key_of() == x.key_of() {
                N::key_is_injective(n, x);
            } else {
                assert(done.contains(n.key_of()));
                assert(done_ok(s, floor, heuristic, goal, n));
            }
        }
        assert forall|n: N| #[trigger] s.best.contains_key(n.key_of()) implies wider.contains(n.key_of()) || is_open(
            s,
            n,
        ) by {
            if n == x {
            } else if !done.contains(n.key_of()) {
                assert(is_open(s, n));
            }
        }
    }
}

/// In a steady search the steps of the chain of predecessors of a node
/// cost its best cost exactly, as long as that is not `COST_INFINITY`.
pub proof fn lemma_steady_chain<N: Keyed, H: Heuristic<N>>(
    s: SearchState<N>,
    done: Set<u128>,
    floor: Cost,
    heuristic: &H,
    goal: N,
    start: N,
    link: spec_fn(N, N, Cost) -> bool,
    n: N,
)
    requires
        s.inv(start, link),
        steady(s, done, floor, heuristic, goal, None),
        floor < COST_INFINITY,
        s.best.contains_key(n.key_of()),
        s.best[n.key_of()] < COST_INFINITY,
    ensures
        total_cost(s.chain_costs(n)) == s.best[n.key_of()],
    decreases s.best[n.key_of()], s.hops[n.key_of()],
{
    let k = n.key_of();
    if s.parent.contains_key(k) {
        let p = s.parent[k];
        assert(s.linked(n, link));
        assert(link_clean(s, done, None, n));
        lemma_steady_chain(s, done, floor, heuristic, goal, start, link, p);
        assert(s.chain_costs(n) == s.chain_costs(p).push(s.step[k]));
        assert(s.chain_costs(n).drop_last() =~= s.chain_costs(p));
    } else {
        assert(k == start.key_of());
        assert(s.chain_costs(n) =~= Seq::<Cost>::empty());
    }
}

/// When an entry of the goal is the first on the frontier of a steady
/// search, and its priority is not `COST_INFINITY`, it holds the goal's
/// best cost, and the steps of the goal's chain cost exactly that.
pub proof fn lemma_steady_goal<N: Keyed, H: Heuristic<N>>(
    s: SearchState<N>,
    done: Set<u128>,
    floor: Cost,
    heuristic: &H,
    goal: N,
    start: N,
    link: spec_fn(N, N, Cost) -> bool,
    e: Entry<N>,
)
    requires
        s.inv(start, link),
        steady(s, done, floor, heuristic, goal, None),
        is_first(s.frontier, e),
        e.node == goal,
        e.f < COST_INFINITY,
    ensures
        total_cost(s.chain_costs(goal)) == e.g,
{
    let k = goal.key_of();
    assert(priced_above(floor, heuristic, goal, e));
    assert(s.best.contains_key(k));
    assert(is_open(s, goal));
    let a = s.live[k];
    assert(priced_above(floor, heuristic, goal, a));
    assert(entry_before(e, a));
    assert(e.g == s.best[k]);
    lemma_steady_chain(s, done, floor, heuristic, goal, start, link, goal);
}

/// Every jump point found from `current` is reached from it by a run, and there are no more than candidates.
pub proof fn lemma_successors_reach(grid: &Grid2D, current: GridPos, candidates: Seq<GridPos>, goal: GridPos, n: nat)
    requires
        n <= candidates.len(),
    ensures
        successors(grid, current, candidates, goal, n).len() <= n,
        forall|j: int|
            0 <= j < successors(grid, current, candidates, goal, n).len() ==> reaches(
                grid,
                current,
                #[trigger] successors(grid, current, candidates, goal, n)[j],
            ),
    decreases n,
{
    if n > 0 {
        lemma_successors_reach(grid, current, candidates, goal, (n - 1) as nat);
        let before = successors(grid, current, candidates, goal, (n - 1) as nat);
        let now = successors(grid, current, candidates, goal, n);
        let dx = candidates[n - 1].x - current.x;
        let dy = candidates[n - 1].y - current.y;
        assert forall|j: int| 0 <= j < now.len() implies reaches(grid, current, #[trigger] now[j]) by {
            if j < before.len() {
                assert(now[j] == before[j]);
            } else {
                lemma_jump_is_run(grid, current, dx, dy, goal);
                assert(is_run(grid, current, now[j], dx, dy));
            }
        }
    }
}

/// No cell has more than eight candidates.
pub proof fn lemma_pruned_is_short(grid: &Grid2D, c: GridPos, parent: Option<GridPos>)
    ensures
        pruned(grid, c, parent).len() <= 8,
{
}

/// Relaxing the first `n` jump points found from the node being expanded
/// keeps the invariant of the search, and keeps it steady.
pub proof fn lemma_relaxed_jumps_steady<H: Heuristic<GridPos>>(
    s: SearchState<GridPos>,
    done: Set<u128>,
    floor: Cost,
    grid: &Grid2D,
    heuristic: &H,
    goal: GridPos,
    mode: TieBreaking,
    x: GridPos,
    found: Seq<GridPos>,
    n: nat,
    start: GridPos,
)
    requires
        s.inv(start, jump_link(grid)),
        steady(s, done, floor, heuristic, goal, Some(x)),
        is_consistent(heuristic, goal, jump_link(grid)),
        s.has_room_to_grow(),
        n <= found.len() <= usize::MAX,
        forall|j: int| 0 <= j < found.len() ==> reaches(grid, x, #[trigger] found[j]),
    ensures
        ({
            let t = relaxed_jumps(s, heuristic, goal, mode, x, s.best[x.key_of()], found, n);
            &&& t.inv(start, jump_link(grid))
            &&& steady(t, done, floor, heuristic, goal, Some(x))
            &&& t.best.contains_key(x.key_of())
            &&& t.best[x.key_of()] == s.best[x.key_of()]
            &&& t.next_seq <= s.next_seq + n
            &&& t.iterations == s.iterations
            &&& t.expanded == s.expanded
        }),
    decreases n,
{
    if n > 0 {
        let link = jump_link(grid);
        let m = (n - 1) as nat;
        lemma_relaxed_jumps_steady(s, done, floor, grid, heuristic, goal, mode, x, found, m, start);
        let before = relaxed_jumps(s, heuristic, goal, mode, x, s.best[x.key_of()], found, m);
        assert(s.expanded * usize::MAX <= usize::MAX * usize::MAX) by (nonlinear_arith)
            requires
                s.expanded <= usize::MAX,
        ;
        assert((s.expanded - 1) * usize::MAX + usize::MAX == s.expanded * usize::MAX) by (nonlinear_arith);
        assert(usize::MAX * usize::MAX <= 0xffff_ffff_ffff_ffff * 0xffff_ffff_ffff_ffff) by (nonlinear_arith)
            requires
                usize::MAX <= 0xffff_ffff_ffff_ffff,
        ;
        let to = found[n - 1];
        let c = octile_cost(x, to);
        assert(reaches(grid, x, found[n - 1]));
        assert(link(x, to, c));
        let g = cost_sum(before.best[x.key_of()], c);
        before.lemma_relaxed(to, x, g, c, heuristic.estimate_of(to, goal), mode, start, link);
        lemma_relaxed_steady(before, done, floor, heuristic, goal, x, to, c, mode, start, link);
    }
}

/// With a consistent heuristic the run of jump-point search from a steady
/// state ends, where it finds a path at a priority below `COST_INFINITY`,
/// with the sum of the octile costs of the path's runs as its cost.
pub proof fn lemma_jps_run<H: Heuristic<GridPos>>(
    s: SearchState<GridPos>,
    done: Set<u128>,
    floor: Cost,
    grid: &Grid2D,
    heuristic: &H,
    start: GridPos,
    goal: GridPos,
    limit: usize,
    mode: TieBreaking,
)
    requires
        s.inv(start, jump_link(grid)),
        steady(s, done, floor, heuristic, goal, None),
        is_consistent(heuristic, goal, jump_link(grid)),
        s.has_room(),
    ensures
        ({
            let o = search_run(s, goal, limit, jps_grow(grid, heuristic, goal, mode));
            o.status == PathStatus::Found && o.cost + heuristic.estimate_of(goal, goal) < COST_INFINITY
                ==> is_linked_at(o.path, start, o.cost, jump_link(grid))
        }),
    decreases limit - s.iterations,
{
    let link = jump_link(grid);
    let grow = jps_grow(grid, heuristic, goal, mode);
    if s.frontier.len() > 0 {
        lemma_has_first(s.frontier);
        let e = first_entry(s.frontier);
        assert(is_first(s.frontier, e));
        let t = s.without(e);
        s.lemma_without(start, link, e);
        if s.iterations < limit {
            t.lemma_counted(start, link);
            let u = t.counted();
            assert(priced_above(floor, heuristic, goal, e));
            if e.node.key_of() == goal.key_of() {
                GridPos::key_is_injective(e.node, goal);
                if e.g + heuristic.estimate_of(goal, goal) < COST_INFINITY {
                    lemma_steady_goal(s, done, floor, heuristic, goal, start, link, e);
                    lemma_chain_same(s, u, goal);
                    u.lemma_chain(start, link, goal);
                    assert(is_linked_path(u.chain(goal), u.chain_costs(goal), link));
                }
            } else {
                lemma_taken_steady(s, done, floor, heuristic, goal, e, start, link);
                if u.best[e.node.key_of()] < e.g {
                    lemma_jps_run(u, done, e.f, grid, heuristic, start, goal, limit, mode);
                } else {
                    let v0 = u.opened();
                    let candidates = pruned(grid, e.node, came_from(v0, e.node));
                    let found = successors(grid, e.node, candidates, goal, candidates.len());
                    lemma_pruned_is_short(grid, e.node, came_from(v0, e.node));
                    lemma_successors_reach(grid, e.node, candidates, goal, candidates.len());
                    lemma_relaxed_jumps_steady(
                        v0,
                        done,
                        e.f,
                        grid,
                        heuristic,
                        goal,
                        mode,
                        e.node,
                        found,
                        found.len(),
                        start,
                    );
                    let v = relaxed_jumps(v0, heuristic, goal, mode, e.node, e.g, found, found.len());
                    assert(v == grow(v0, e));
                    lemma_expanded_steady(v, done, e.f, heuristic, goal, e.node);
                    assert((v0.expanded - 1) * usize::MAX + usize::MAX == v0.expanded * usize::MAX)
                        by (nonlinear_arith);
                    lemma_jps_run(
                        v,
                        done.insert(e.node.key_of()),
                        e.f,
                        grid,
                        heuristic,
                        start,
                        goal,
                        limit,
                        mode,
                    );
                }
            }
        }
    }
}

/// The chains of two states that agree on best costs and predecessors are the same.
proof fn lemma_chain_same<N: Keyed>(s: SearchState<N>, u: SearchState<N>, n: N)
    requires
        u.best == s.best,
        u.parent == s.parent,
        u.hops == s.hops,
        u.step == s.step,
    ensures
        u.chain(n) == s.chain(n),
        u.chain_costs(n) == s.chain_costs(n),
    decreases s.best[n.key_of()], s.hops[n.key_of()],
{
    let k = n.key_of();
    if s.parent.contains_key(k) && s.rank_below(s.parent[k], n) {
        lemma_chain_same(s, u, s.parent[k]);
    }
}

/// With a consistent heuristic the cost that jump-point search reports
/// for a path it found is the sum of the octile costs of the runs between
/// the path's nodes, unless the cost and the goal's own estimate together
/// reach `COST_INFINITY`.
pub proof fn lemma_jps_cost_is_cost_of_runs<H: Heuristic<GridPos>>(
    grid: &Grid2D,
    heuristic: &H,
    start: GridPos,
    goal: GridPos,
    config: AStarConfig,
)
    requires
        is_consistent(heuristic, goal, jump_link(grid)),
        jps_outcome(grid, heuristic, start, goal, config).status == PathStatus::Found,
        jps_outcome(grid, heuristic, start, goal, config).cost + heuristic.estimate_of(goal, goal) < COST_INFINITY,
    ensures
        is_linked_at(
            jps_outcome(grid, heuristic, start, goal, config).path,
            start,
            jps_outcome(grid, heuristic, start, goal, config).cost,
            jump_link(grid),
        ),
{
    if grid.passable(start) && grid.passable(goal) {
        let h = heuristic.estimate_of(start, goal);
        lemma_initial(start, h, jump_link(grid));
        lemma_initial_steady(heuristic, start, goal);
        assert(1 + 0 * usize::MAX == 1) by (nonlinear_arith);
        lemma_jps_run(
            SearchState::initial(start, h),
            Set::empty(),
            0,
            grid,
            heuristic,
            start,
            goal,
            iteration_limit(config),
            config.tie_breaking,
        );
    }
}

/// The octile distance obeys the triangle inequality.
pub proof fn lemma_octile_triangle(ax: int, ay: int, bx: int, by: int)
    ensures
        octile(abs_of(ax + bx), abs_of(ay + by)) <= octile(abs_of(ax), abs_of(ay)) + octile(abs_of(bx), abs_of(by)),
{
}

/// The size of a difference.
pub open spec fn abs_of(v: int) -> int {
    if v >= 0 {
        v
    } else {
        -v
    }
}

/// The diagonal heuristic with the usual step costs, and the zero
/// heuristic, are consistent along the runs of jump-point search on every grid.
pub proof fn lemma_octile_is_consistent(grid: &Grid2D, goal: GridPos)
    ensures
        is_consistent(&usual_diagonal(), goal, jump_link(grid)),
        is_consistent(&Zero, goal, jump_link(grid)),
{
    let link = jump_link(grid);
    assert forall|a: GridPos, b: GridPos, c: Cost| #[trigger] link(a, b, c) implies usual_diagonal().estimate_of(
        a,
        goal,
    ) <= c + usual_diagonal().estimate_of(b, goal) by {
        lemma_diagonal_is_octile(a, goal);
        lemma_diagonal_is_octile(b, goal);
        lemma_octile_triangle(a.x - b.x, a.y - b.y, b.x - goal.x, b.y - goal.y);
        assert(abs_of(a.x - b.x + (b.x - goal.x)) == apart(a.x, goal.x));
        assert(abs_of(a.y - b.y + (b.y - goal.y)) == apart(a.y, goal.y));
        assert(abs_of(b.x - goal.x) == apart(b.x, goal.x));
        assert(abs_of(b.y - goal.y) == apart(b.y, goal.y));
        assert(c == octile(abs_of(a.x - b.x), abs_of(a.y - b.y)));
    }
    assert forall|a: GridPos, b: GridPos, c: Cost| #[trigger] link(a, b, c) implies Heuristic::<
        GridPos,
    >::estimate_of(&Zero, a, goal) <= c + Heuristic::<GridPos>::estimate_of(&Zero, b, goal) by {}
}

} // verus!
