use pathforge::algorithms::astar::{astar, AStarConfig};
use pathforge::algorithms::jps::{distance, find_successors, jps, jump, prune_neighbors};
use pathforge::algorithms::parallel::find_paths_parallel;
use pathforge::algorithms::replanning::PathReplanner;
use pathforge::algorithms::theta::theta_star;
use pathforge::graphs::grid2d::{DiagonalMode, Grid2D, GridPos};
use pathforge::heuristics::{Diagonal, Euclidean};
use pathforge::traits::{Graph, PathStatus};
use std::time::Duration;

fn p(x: i32, y: i32) -> GridPos {
    GridPos { x, y }
}

#[test]
fn octile_distance() {
    assert_eq!(distance(p(0, 0), p(3, 0)), 3_000_000);
    assert_eq!(distance(p(0, 0), p(3, 3)), 3 * 1_414_214);
    assert_eq!(distance(p(5, 1), p(1, 2)), 414_214 + 4_000_000);
    assert_eq!(distance(p(2, 2), p(2, 2)), 0);
}

#[test]
fn pruning_keeps_natural_and_forced_neighbours() {
    let mut grid = Grid2D::new(5, 5, DiagonalMode::Always);
    assert_eq!(prune_neighbors(&grid, p(2, 2), Some(p(1, 2))), vec![p(3, 2)]);
    assert_eq!(prune_neighbors(&grid, p(2, 2), Some(p(1, 1))), vec![p(3, 3), p(3, 2), p(2, 3)]);
    assert_eq!(prune_neighbors(&grid, p(2, 2), Some(p(2, 4))), vec![p(2, 1)]);
    assert_eq!(prune_neighbors(&grid, p(2, 2), None).len(), 8);
    assert_eq!(prune_neighbors(&grid, p(0, 0), None), vec![p(0, 1), p(1, 0), p(1, 1)]);
    grid.set_blocked(2, 3, true);
    // moving east past an obstacle to the south forces the south-east diagonal
    assert_eq!(prune_neighbors(&grid, p(2, 2), Some(p(1, 2))), vec![p(3, 2), p(3, 3)]);
    grid.diagonal_movement = DiagonalMode::OnlyIfBothOpen;
    assert_eq!(prune_neighbors(&grid, p(2, 2), Some(p(1, 2))), vec![p(3, 2)]);
}

#[test]
fn jumps_stop_at_goal_forced_neighbours_and_walls() {
    let mut grid = Grid2D::new(8, 8, DiagonalMode::Always);
    assert_eq!(jump(&grid, p(0, 0), 1, 0, p(5, 0)), Some(p(5, 0)));
    assert_eq!(jump(&grid, p(0, 0), 1, 0, p(7, 7)), None);
    assert_eq!(jump(&grid, p(0, 0), 1, 1, p(7, 7)), Some(p(7, 7)));
    assert_eq!(jump(&grid, p(0, 0), 0, 0, p(7, 7)), None);
    assert_eq!(jump(&grid, p(0, 0), -1, 0, p(7, 7)), None);
    grid.set_blocked(3, 1, true);
    // walking east along y=0, the cell (3,0) has the obstacle below and (4,1) open
    assert_eq!(jump(&grid, p(0, 0), 1, 0, p(7, 7)), Some(p(3, 0)));
    // a diagonal stops where one of its axes sees a jump point
    assert_eq!(jump(&grid, p(0, 2), 1, -1, p(7, 7)), Some(p(2, 0)));
    let found = find_successors(&grid, p(0, 0), None, p(7, 7));
    assert!(found.contains(&p(3, 0)));
}

#[test]
fn jump_points_are_joined_by_open_runs() {
    let mut grid = Grid2D::new(24, 24, DiagonalMode::Always);
    for i in 0..150usize {
        grid.set_blocked((i * 13 + 7) % 24, (i * 19 + 3) % 24, true);
    }
    grid.set_blocked(0, 0, false);
    grid.set_blocked(23, 23, false);
    let res = jps(&grid, &Diagonal::default(), p(0, 0), p(23, 23), AStarConfig::default());
    let plain = astar(&grid, &Diagonal::default(), p(0, 0), p(23, 23), AStarConfig::default());
    assert_eq!(res.status, plain.status);
    assert_eq!(res.status, PathStatus::Found);
    assert_eq!(res.cost, plain.cost);
    let mut total = 0;
    for pair in res.path.windows(2) {
        let dx = (pair[1].x - pair[0].x).signum();
        let dy = (pair[1].y - pair[0].y).signum();
        let steps = (pair[1].x - pair[0].x).abs().max((pair[1].y - pair[0].y).abs());
        let mut at = pair[0];
        for _ in 0..steps {
            let next = p(at.x + dx, at.y + dy);
            assert!(grid.neighbors(&at).iter().any(|(n, _)| *n == next));
            at = next;
        }
        assert_eq!(at, pair[1]);
        total += distance(pair[0], pair[1]);
    }
    assert_eq!(total, res.cost);
    let sealed = jps(&grid, &Diagonal::default(), p(0, 0), p(24, 0), AStarConfig::default());
    assert_eq!(sealed.status, PathStatus::NotFound);
}

#[test]
fn theta_star_path_is_line_of_sight_connected() {
    let mut grid = Grid2D::new(20, 20, DiagonalMode::Always);
    grid.set_region_blocked((5, 0, 1, 10), true);
    let res = theta_star(&grid, &Euclidean, p(2, 2), p(8, 2), AStarConfig::default());
    assert_eq!(res.status, PathStatus::Found);
    for pair in res.path.windows(2) {
        assert!(grid.can_traverse(&pair[0], &pair[1]));
    }
    let walked = astar(&grid, &Euclidean, p(2, 2), p(8, 2), AStarConfig::default());
    assert!(res.cost <= walked.cost);
    assert!(res.path.len() < walked.path.len());
}

#[test]
fn parallel_queries_come_back_in_order() {
    let mut grid = Grid2D::new(20, 20, DiagonalMode::Always);
    grid.set_region_blocked((10, 0, 1, 15), true);
    let heuristic = Diagonal::default();
    let config = AStarConfig::default();
    let mut queries = Vec::new();
    for i in 0..40 {
        queries.push((p(i % 10, i % 7), p(19 - (i % 5), 19 - (i % 3))));
    }
    queries.push((p(0, 0), p(10, 0)));
    let all = find_paths_parallel(&grid, &heuristic, &queries, config);
    assert_eq!(all.len(), queries.len());
    for (i, (start, goal)) in queries.iter().enumerate() {
        let one = astar(&grid, &heuristic, *start, *goal, config);
        assert_eq!(all[i].status, one.status);
        assert_eq!(all[i].path, one.path);
        assert_eq!(all[i].cost, one.cost);
    }
    assert_eq!(all[40].status, PathStatus::NotFound);
    let empty: Vec<(GridPos, GridPos)> = Vec::new();
    assert!(find_paths_parallel(&grid, &heuristic, &empty, config).is_empty());
}

#[test]
fn replanner_keeps_and_replaces_paths() {
    let mut grid = Grid2D::new(10, 10, DiagonalMode::Never);
    let heuristic = Diagonal::default();
    let config = AStarConfig::default();
    let mut planner: PathReplanner<GridPos> = PathReplanner::new(Duration::from_secs(1));
    assert!(planner.get_path().is_empty());
    // no goal yet: plans
    let first = planner.update_at(&grid, &heuristic, p(0, 0), p(5, 0), config, 5_000_000_000).unwrap();
    assert_eq!(first.len(), 6);
    assert_eq!(planner.get_path(), &first[..]);
    // same goal, nothing blocked: keeps
    assert!(planner.update_at(&grid, &heuristic, p(1, 0), p(5, 0), config, 5_200_000_000).is_none());
    assert!(planner.update_at(&grid, &heuristic, p(1, 0), p(5, 0), config, 50_000_000_000).is_none());
    // next step blocked, but too early
    grid.set_blocked(2, 0, true);
    assert!(planner.update_at(&grid, &heuristic, p(1, 0), p(5, 0), config, 5_500_000_000).is_none());
    // one interval after the last replacement
    let second = planner.update_at(&grid, &heuristic, p(1, 0), p(5, 0), config, 6_000_000_000).unwrap();
    assert_eq!(second[0], p(1, 0));
    assert!(!second.contains(&p(2, 0)));
    // a position that is not on the path asks for no check
    assert!(planner.update_at(&grid, &heuristic, p(9, 9), p(5, 0), config, 60_000_000_000).is_none());
    // goal moved: plans at once
    let third = planner.update_at(&grid, &heuristic, p(1, 0), p(0, 5), config, 60_000_000_001).unwrap();
    assert_eq!(*third.last().unwrap(), p(0, 5));
    // a goal that cannot be reached leaves the old path
    grid.set_region_blocked((0, 8, 10, 1), true);
    assert!(planner.update_at(&grid, &heuristic, p(1, 0), p(0, 9), config, 60_000_000_002).is_none());
    assert_eq!(planner.get_path(), &third[..]);
    let mut live: PathReplanner<GridPos> = PathReplanner::new(Duration::from_secs(1));
    assert!(live.update(&grid, &heuristic, p(0, 0), p(3, 3), config).is_some());
    assert!(live.update(&grid, &heuristic, p(0, 0), p(3, 3), config).is_none());
}

#[test]
fn jump_points_need_diagonal_steps() {
    // Without diagonal steps no neighbour is ever forced, so a jump only ends at the goal.
    let grid = Grid2D::new(4, 4, DiagonalMode::Never);
    let straight = jps(&grid, &Diagonal::default(), p(0, 0), p(3, 0), AStarConfig::default());
    assert_eq!(straight.status, PathStatus::Found);
    assert_eq!(straight.path, vec![p(0, 0), p(3, 0)]);
    assert_eq!(straight.cost, 3_000_000);
    let turn = jps(&grid, &Diagonal::default(), p(0, 0), p(3, 3), AStarConfig::default());
    assert_eq!(turn.status, PathStatus::NotFound);
    let walked = astar(&grid, &Diagonal::default(), p(0, 0), p(3, 3), AStarConfig::default());
    assert_eq!(walked.status, PathStatus::Found);
    assert_eq!(walked.cost, 6_000_000);
}

#[test]
fn cheapest_path_on_weighted_cells() {
    let mut grid = Grid2D::new(5, 3, DiagonalMode::Never);
    // the straight way along y=1 is expensive
    for x in 1..4 {
        grid.set_cost(x, 1, 5_000_000);
    }
    let res = astar(&grid, &Diagonal::default(), p(0, 1), p(4, 1), AStarConfig::default());
    assert_eq!(res.status, PathStatus::Found);
    assert_eq!(res.cost, 6_000_000);
    assert!(res.path.iter().all(|n| n.y != 1 || n.x == 0 || n.x == 4));
    let mut sum = 0;
    for pair in res.path.windows(2) {
        sum += grid.get_cost(pair[1].x, pair[1].y);
    }
    assert_eq!(sum, res.cost);
}
