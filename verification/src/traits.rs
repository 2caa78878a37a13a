//! The capabilities a search needs from a graph and from a heuristic, and the
//! shape of every search result.

use vstd::prelude::*;
use crate::cost::{Cost, COST_INFINITY};

verus! {

/// A node that can be told apart by an integer key.
///
/// Searches index their bookkeeping by `key`, so two nodes are the same node
/// exactly when their keys agree.
pub trait Keyed: Copy {
    spec fn key_of(self) -> u128;

    fn key(&self) -> (k: u128)
        ensures
            k == self.key_of(),
    ;

    proof fn key_is_injective(a: Self, b: Self)
        requires
            a.key_of() == b.key_of(),
        ensures
            a == b,
    ;
}

/// A searchable graph. Implementors define topology; algorithms handle search strategy.
pub trait Graph {
    type Node: Keyed;

    /// The representation invariant of the graph.
    spec fn well_formed(&self) -> bool;

    spec fn passable(&self, node: Self::Node) -> bool;

    /// The outgoing edges of `node`, each with its target and its cost, in visiting order.
    spec fn edges(&self, node: Self::Node) -> Seq<(Self::Node, Cost)>;

    /// Whether `to` can be reached from `from` in a straight line.
    spec fn visible(&self, from: Self::Node, to: Self::Node) -> bool;

    /// Check if a node is passable (fast rejection before expansion).
    fn is_passable(&self, node: &Self::Node) -> (r: bool)
        requires
            self.well_formed(),
        ensures
            r == self.passable(*node),
    ;

    /// The neighbors of `node` with their traversal costs.
    fn neighbors(&self, node: &Self::Node) -> (r: Vec<(Self::Node, Cost)>)
        requires
            self.well_formed(),
        ensures
            r@ == self.edges(*node),
    ;

    /// Check if direct traversal is valid (line of sight).
    fn can_traverse(&self, from: &Self::Node, to: &Self::Node) -> (r: bool)
        requires
            self.well_formed(),
        ensures
            r == self.visible(*from, *to),
    ;
}

/// Heuristic function for informed search algorithms.
/// Separate from `Graph` because heuristic choice is algorithm policy, not topology.
pub trait Heuristic<N> {
    spec fn estimate_of(&self, from: N, to: N) -> Cost;

    fn estimate(&self, from: &N, to: &N) -> (r: Cost)
        ensures
            r == self.estimate_of(*from, *to),
    ;

    /// Whether the heuristic is declared to never overestimate.
    spec fn admissible(&self) -> bool;

    /// Must return true if the heuristic never overestimates.
    fn is_admissible(&self) -> (r: bool)
        ensures
            r == self.admissible(),
    ;
}

#[derive(Debug, Clone, Copy, PartialEq, Eq, Structural)]
pub enum PathStatus {
    Found,
    NotFound,
    /// Hit the time limit, returning best partial.
    PartialTimeout,
    /// Hit the iteration limit.
    PartialMaxIter,
}

/// Result of a pathfinding query.
#[derive(Debug, Clone)]
pub struct PathResult<N> {
    pub path: Vec<N>,
    pub cost: Cost,
    pub nodes_expanded: usize,
    pub status: PathStatus,
}

/// What a `PathResult` holds, as plain values.
pub ghost struct Outcome<N> {
    pub path: Seq<N>,
    pub cost: Cost,
    pub nodes_expanded: usize,
    pub status: PathStatus,
}

impl<N> View for PathResult<N> {
    type V = Outcome<N>;

    open spec fn view(&self) -> Outcome<N> {
        Outcome {
            path: self.path@,
            cost: self.cost,
            nodes_expanded: self.nodes_expanded,
            status: self.status,
        }
    }
}

/// The outcome of a search that found nothing.
pub open spec fn nothing_found<N>(nodes_expanded: usize) -> Outcome<N> {
    Outcome { path: Seq::empty(), cost: 0, nodes_expanded, status: PathStatus::NotFound }
}

impl<N: Copy> PathResult<N> {
    /// An empty result with status `NotFound`.
    pub fn not_found(nodes_expanded: usize) -> (r: Self)
        ensures
            r@ == nothing_found::<N>(nodes_expanded),
    {
        PathResult { path: Vec::new(), cost: 0, nodes_expanded, status: PathStatus::NotFound }
    }

    /// A copy of this result.
    pub fn duplicate(&self) -> (r: Self)
        ensures
            r@ == self@,
    {
        let mut path: Vec<N> = Vec::new();
        let mut i: usize = 0;
        while i < self.path.len()
            invariant
                i <= self.path.len(),
                path@ == self.path@.subrange(0, i as int),
            decreases self.path.len() - i,
        {
            path.push(self.path[i]);
            proof {
                assert(path@ =~= self.path@.subrange(0, i + 1));
            }
            i += 1;
        }
        proof {
            assert(path@ =~= self.path@);
        }
        PathResult {
            path,
            cost: self.cost,
            nodes_expanded: self.nodes_expanded,
            status: self.status,
        }
    }
}

/// The sum of a sequence of step costs.
pub open spec fn total_cost(costs: Seq<Cost>) -> nat
    decreases costs.len(),
{
    if costs.len() == 0 {
        0
    } else {
        total_cost(costs.drop_last()) + costs.last() as nat
    }
}

/// Whether each step of `path` satisfies `link` at the cost listed for it.
pub open spec fn is_linked_path<N>(path: Seq<N>, costs: Seq<Cost>, link: spec_fn(N, N, Cost) -> bool) -> bool {
    &&& path.len() == costs.len() + 1
    &&& forall|i: int| 0 <= i < costs.len() ==> #[trigger] link(path[i], path[i + 1], costs[i])
}

/// The relation "`graph` has an edge from `from` to `to` at cost `c`".
pub open spec fn edge_link<G: Graph>(graph: &G) -> spec_fn(G::Node, G::Node, Cost) -> bool {
    |from: G::Node, to: G::Node, c: Cost| graph.edges(from).contains((to, c))
}

/// Whether `path` walks along edges of `graph`, the `i`-th step at cost `costs[i]`.
pub open spec fn is_walk<G: Graph>(graph: &G, path: Seq<G::Node>, costs: Seq<Cost>) -> bool {
    is_linked_path(path, costs, edge_link(graph))
}

/// Whether `path` leads from `start` along steps that satisfy `link` and that
/// together cost no more than `cost`, unless `cost` is `COST_INFINITY`.
pub open spec fn is_route<N>(path: Seq<N>, start: N, cost: Cost, link: spec_fn(N, N, Cost) -> bool) -> bool {
    exists|costs: Seq<Cost>| #[trigger]
        is_linked_path(path, costs, link) && path[0] == start && (cost < COST_INFINITY ==> total_cost(costs)
            <= cost)
}

} // verus!
