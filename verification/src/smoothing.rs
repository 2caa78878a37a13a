//! Path smoothing by line-of-sight shortening.

use vstd::prelude::*;
use crate::traits::Graph;

verus! {

pub enum SmoothingMethod {
    /// The path is returned as it is.
    Unchanged,
    /// String pulling: every node is followed by the furthest node it sees.
    RemoveRedundant,
}

/// The index that follows `from` on the smoothed path, looking no further
/// than `j`: the largest index up to `j` and beyond `from + 1` whose node is
/// seen from `path[from]`, or `from + 1` where there is none.
pub open spec fn furthest_visible<G: Graph>(graph: &G, path: Seq<G::Node>, from: int, j: int) -> int
    decreases j - from,
{
    if j < from + 2 {
        from + 1
    } else if graph.visible(path[from], path[j]) {
        j
    } else {
        furthest_visible(graph, path, from, j - 1)
    }
}

/// The nodes that follow `path[from]` on the smoothed path.
pub open spec fn smoothed_after<G: Graph>(graph: &G, path: Seq<G::Node>, from: int) -> Seq<G::Node>
    decreases path.len() - from,
{
    if from < 0 || from >= path.len() - 1 {
        Seq::empty()
    } else {
        let next = furthest_visible(graph, path, from, path.len() - 1);
        if from < next < path.len() {
            seq![path[next]] + smoothed_after(graph, path, next)
        } else {
            Seq::empty()
        }
    }
}

/// The smoothed path: a path of fewer than three nodes is left alone.
pub open spec fn smoothed<G: Graph>(graph: &G, path: Seq<G::Node>, method: SmoothingMethod) -> Seq<G::Node> {
    if path.len() < 3 {
        path
    } else {
        match method {
            SmoothingMethod::Unchanged => path,
            SmoothingMethod::RemoveRedundant => seq![path[0]] + smoothed_after(graph, path, 0),
        }
    }
}

/// The index that follows `from` lies beyond it and inside the path.
pub proof fn lemma_furthest_in_range<G: Graph>(graph: &G, path: Seq<G::Node>, from: int, j: int)
    requires
        0 <= from,
        from + 1 <= j < path.len(),
    ensures
        from < furthest_visible(graph, path, from, j) <= j,
    decreases j - from,
{
    if j >= from + 2 && !graph.visible(path[from], path[j]) {
        lemma_furthest_in_range(graph, path, from, j - 1);
    }
}

fn copy_nodes<N: Copy>(path: &[N]) -> (r: Vec<N>)
    ensures
        r@ == path@,
{
    let mut out: Vec<N> = Vec::new();
    let mut i: usize = 0;
    while i < path.len()
        invariant
            i <= path@.len(),
            out@ == path@.subrange(0, i as int),
        decreases path@.len() - i,
    {
        out.push(path[i]);
        proof {
            assert(out@ =~= path@.subrange(0, i + 1));
        }
        i += 1;
    }
    proof {
        assert(out@ =~= path@);
    }
    out
}

/// Shortens `path` greedily: from each node kept, the scan runs from the
/// path's end backward to the furthest node in line of sight, which is kept next.
pub fn smooth_path<G: Graph>(graph: &G, path: &[G::Node], method: SmoothingMethod) -> (r: Vec<G::Node>)
    requires
        graph.well_formed(),
    ensures
        r@ == smoothed(graph, path@, method),
{
    let n: usize = path.len();
    if n < 3 {
        return copy_nodes(path);
    }
    match method {
        SmoothingMethod::Unchanged => copy_nodes(path),
        SmoothingMethod::RemoveRedundant => {
            let mut smooth: Vec<G::Node> = Vec::new();
            smooth.push(path[0]);
            let mut current_idx: usize = 0;
            proof {
                assert(smooth@ =~= seq![path@[0]]);
            }
            while current_idx < n - 1
                invariant
                    graph.well_formed(),
                    n == path@.len(),
                    n >= 3,
                    current_idx < n,
                    smoothed(graph, path@, method) == smooth@ + smoothed_after(
                        graph,
                        path@,
                        current_idx as int,
                    ),
                    method is RemoveRedundant,
                decreases n - current_idx,
            {
                let mut next_idx: usize = current_idx + 1;
                let mut i: usize = n - 1;
                let mut found: bool = false;
                while !found && i >= current_idx + 2
                    invariant
                        graph.well_formed(),
                        n == path@.len(),
                        current_idx < n - 1,
                        current_idx + 1 <= i < n,
                        found ==> next_idx == furthest_visible(graph, path@, current_idx as int, n - 1),
                        !found ==> next_idx == current_idx + 1 && furthest_visible(
                            graph,
                            path@,
                            current_idx as int,
                            n - 1,
                        ) == furthest_visible(graph, path@, current_idx as int, i as int),
                    decreases i + (if found { 0int } else { 1int }),
                {
                    if graph.can_traverse(&path[current_idx], &path[i]) {
                        next_idx = i;
                        found = true;
                    } else {
                        i -= 1;
                    }
                }
                proof {
                    lemma_furthest_in_range(graph, path@, current_idx as int, n - 1);
                    assert(next_idx == furthest_visible(graph, path@, current_idx as int, n - 1));
                    assert(smooth@.push(path@[next_idx as int]) + smoothed_after(graph, path@, next_idx as int)
                        =~= smooth@ + smoothed_after(graph, path@, current_idx as int));
                }
                smooth.push(path[next_idx]);
                current_idx = next_idx;
            }
            proof {
                assert(smooth@ + smoothed_after(graph, path@, current_idx as int) =~= smooth@);
            }
            smooth
        },
    }
}

} // verus!
