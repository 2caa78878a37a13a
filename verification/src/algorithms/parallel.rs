//! Many independent queries at once.

use rayon::iter::{IntoParallelRefIterator, ParallelIterator};
use vstd::prelude::*;
use crate::algorithms::astar::{answers, astar, AStarConfig};
use crate::traits::{Graph, Heuristic, PathResult};

verus! {

/// Answers every query with `astar`, the queries spread over rayon's
/// worker threads by `par_iter`, `map` and `collect`.
///
/// Trusted: rayon's indexed `collect` hands the results back in the order of
/// the queries, one for each, and every result is what `astar` returned for
/// its query, so that what `astar` ensures holds of it.
#[verifier::external_body]
pub fn find_paths_parallel<G, H>(graph: &G, heuristic: &H, queries: &[(G::Node, G::Node)], config: AStarConfig) -> (r:
    Vec<PathResult<G::Node>>) where G: Graph + Sync, G::Node: Send + Sync, H: Heuristic<G::Node> + Sync
    requires
        graph.well_formed(),
    ensures
        r@.len() == queries@.len(),
        forall|i: int|
            0 <= i < r@.len() ==> answers(graph, heuristic, queries@[i].0, queries@[i].1, config, #[trigger] r@[i]),
{
    queries.par_iter().map(|(start, goal)| astar(graph, heuristic, *start, *goal, config)).collect()
}

} // verus!
