//! Keeps a path towards a goal that may move, and searches again when needed.

use std::time::{Duration, Instant};
use vstd::prelude::*;
use crate::algorithms::astar::{astar, astar_outcome, AStarConfig};
use crate::clock::{elapsed, nanos_in, now, whole_nanos};
use crate::traits::{Graph, Heuristic, Keyed, PathStatus};

verus! {

pub struct PathReplanner<N> {
    current_path: Vec<N>,
    current_goal: Option<N>,
    /// When the path was last replaced, in nanoseconds since `epoch`.
    last_replanned_at: Option<u128>,
    /// The shortest time between two validity checks, in nanoseconds.
    replan_interval: u128,
    epoch: Instant,
}

/// The index of the first node of `path` whose key is `key`, or the length of `path`.
pub open spec fn first_index_of<N: Keyed>(path: Seq<N>, key: u128) -> int
    decreases path.len(),
{
    if path.len() == 0 {
        0
    } else if path[0].key_of() == key {
        0
    } else {
        1 + first_index_of(path.drop_first(), key)
    }
}

impl<N: Keyed> PathReplanner<N> {
    /// The path currently kept.
    pub closed spec fn path(&self) -> Seq<N> {
        self.current_path@
    }

    /// The goal the kept path leads to.
    pub closed spec fn goal(&self) -> Option<N> {
        self.current_goal
    }

    /// When the kept path was found, in nanoseconds on the replanner's clock.
    pub closed spec fn replanned_at(&self) -> Option<u128> {
        self.last_replanned_at
    }

    /// The replanning interval in nanoseconds.
    pub closed spec fn interval(&self) -> u128 {
        self.replan_interval
    }

    /// Whether a new search is needed whatever the clock says: no goal yet, a
    /// goal that moved, or no path.
    pub open spec fn needs_replan(&self, goal_pos: N) -> bool {
        match self.goal() {
            Some(old_goal) => old_goal.key_of() != goal_pos.key_of() || self.path().len() == 0,
            None => true,
        }
    }

    /// Whether the replanning interval has passed at time `at`.
    pub open spec fn time_due(&self, at: u128) -> bool {
        match self.replanned_at() {
            Some(last) => (if at >= last { at - last } else { 0 }) >= self.interval(),
            None => true,
        }
    }

    /// Whether the step after `current_pos` on the kept path is no longer passable.
    pub open spec fn next_step_blocked<G: Graph<Node = N>>(&self, graph: &G, current_pos: N) -> bool {
        let idx = first_index_of(self.path(), current_pos.key_of());
        idx + 1 < self.path().len() && !graph.passable(self.path()[idx + 1])
    }

    /// Whether `update_at` searches again.
    pub open spec fn replans<G: Graph<Node = N>>(&self, graph: &G, current_pos: N, goal_pos: N, at: u128) -> bool {
        self.needs_replan(goal_pos) || (self.time_due(at) && self.next_step_blocked(graph, current_pos))
    }

    pub fn new(replan_interval: Duration) -> (r: Self)
        ensures
            r.path().len() == 0,
            r.goal() is None,
            r.replanned_at() is None,
            r.interval() == nanos_in(replan_interval),
    {
        PathReplanner {
            current_path: Vec::new(),
            current_goal: None,
            last_replanned_at: None,
            replan_interval: whole_nanos(&replan_interval),
            epoch: now(),
        }
    }

    pub fn get_path(&self) -> (r: &[N])
        ensures
            r@ == self.path(),
    {
        self.current_path.as_slice()
    }

    fn should_check_validity<G: Graph<Node = N>>(&self, graph: &G, current_pos: &N) -> (r: bool)
        requires
            graph.well_formed(),
        ensures
            r == self.next_step_blocked(graph, *current_pos),
    {
        let key: u128 = current_pos.key();
        let n: usize = self.current_path.len();
        let mut i: usize = 0;
        proof {
            assert(self.current_path@.subrange(0, n as int) =~= self.current_path@);
        }
        while i < n && self.current_path[i].key() != key
            invariant
                i <= n,
                n == self.current_path@.len(),
                key == current_pos.key_of(),
                first_index_of(self.current_path@, key) == i + first_index_of(
                    self.current_path@.subrange(i as int, n as int),
                    key,
                ),
            decreases n - i,
        {
            proof {
                let rest = self.current_path@.subrange(i as int, n as int);
                assert(rest.drop_first() =~= self.current_path@.subrange(i + 1, n as int));
            }
            i += 1;
        }
        proof {
            let rest = self.current_path@.subrange(i as int, n as int);
            if i < n {
                assert(rest[0] == self.current_path@[i as int]);
            }
            assert(first_index_of(rest, key) == 0);
        }
        if i < n && i + 1 < n {
            !graph.is_passable(&self.current_path[i + 1])
        } else {
            false
        }
    }

    /// Searches again if the goal moved, or if the interval has passed by the
    /// time `at` and the next step is blocked; keeps the new path if one is found.
    ///
    /// Returns the new path if replanning occurred, or `None` if the old path is kept.
    pub fn update_at<G: Graph<Node = N>, H: Heuristic<N>>(
        &mut self,
        graph: &G,
        heuristic: &H,
        current_pos: N,
        goal_pos: N,
        config: AStarConfig,
        at: u128,
    ) -> (r: Option<Vec<N>>)
        requires
            graph.well_formed(),
        ensures
            final(self).interval() == old(self).interval(),
            match r {
                Some(path) => {
                    &&& old(self).replans(graph, current_pos, goal_pos, at)
                    &&& path@ == final(self).path()
                    &&& final(self).goal() == Some(goal_pos)
                    &&& final(self).replanned_at() == Some(at)
                    &&& path@.len() > 0 && path@[0] == current_pos && path@.last() == goal_pos
                    &&& astar_outcome(graph, heuristic, current_pos, goal_pos, config).status == PathStatus::Found
                    &&& path@ == astar_outcome(graph, heuristic, current_pos, goal_pos, config).path
                },
                None => {
                    &&& final(self).path() == old(self).path()
                    &&& final(self).goal() == old(self).goal()
                    &&& final(self).replanned_at() == old(self).replanned_at()
                    &&& config.timeout is None && old(self).replans(graph, current_pos, goal_pos, at)
                        ==> astar_outcome(graph, heuristic, current_pos, goal_pos, config).status
                        != PathStatus::Found
                },
            },
    {
        let needs_replan: bool = match self.current_goal {
            Some(old_goal) => old_goal.key() != goal_pos.key() || self.current_path.len() == 0,
            None => true,
        };
        let time_due: bool = match self.last_replanned_at {
            Some(last) => (if at >= last { at - last } else { 0 }) >= self.replan_interval,
            None => true,
        };
        if needs_replan || (time_due && self.should_check_validity(graph, &current_pos)) {
            let result = astar(graph, heuristic, current_pos, goal_pos, config);
            if result.status == PathStatus::Found {
                let kept = result.duplicate();
                self.current_path = kept.path;
                self.current_goal = Some(goal_pos);
                self.last_replanned_at = Some(at);
                return Some(result.path);
            }
        }
        None
    }

    /// Reads the clock and calls `update_at` with the reading.
    pub fn update<G: Graph<Node = N>, H: Heuristic<N>>(
        &mut self,
        graph: &G,
        heuristic: &H,
        current_pos: N,
        goal_pos: N,
        config: AStarConfig,
    ) -> (r: Option<Vec<N>>)
        requires
            graph.well_formed(),
        ensures
            final(self).interval() == old(self).interval(),
            match r {
                Some(path) => {
                    &&& path@ == final(self).path()
                    &&& final(self).goal() == Some(goal_pos)
                    &&& path@.len() > 0 && path@[0] == current_pos && path@.last() == goal_pos
                    &&& astar_outcome(graph, heuristic, current_pos, goal_pos, config).status == PathStatus::Found
                    &&& path@ == astar_outcome(graph, heuristic, current_pos, goal_pos, config).path
                },
                None => {
                    &&& final(self).path() == old(self).path()
                    &&& final(self).goal() == old(self).goal()
                    &&& final(self).replanned_at() == old(self).replanned_at()
                    &&& config.timeout is None && old(self).needs_replan(goal_pos) ==> astar_outcome(
                        graph,
                        heuristic,
                        current_pos,
                        goal_pos,
                        config,
                    ).status != PathStatus::Found
                },
            },
    {
        let at: u128 = whole_nanos(&elapsed(&self.epoch));
        self.update_at(graph, heuristic, current_pos, goal_pos, config, at)
    }
}

} // verus!
