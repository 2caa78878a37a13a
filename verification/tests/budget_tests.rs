use pathforge::algorithms::astar::{astar, AStarConfig, TieBreaking};
use pathforge::budget::{BudgetedPathfinder, ComputeStatus};
use pathforge::graphs::grid2d::{DiagonalMode, Grid2D, GridPos};
use pathforge::heuristics::Diagonal;
use pathforge::traits::PathStatus;
use std::time::Duration;

fn maze() -> Grid2D {
    let mut grid = Grid2D::new(40, 40, DiagonalMode::Always);
    let mut x = 4;
    while x < 36 {
        grid.set_region_blocked((x, 0, 2, 30), true);
        x += 8;
    }
    let mut x = 8;
    while x < 36 {
        grid.set_region_blocked((x, 10, 2, 30), true);
        x += 8;
    }
    grid
}

#[test]
fn stepping_matches_blocking_search() {
    let grid = maze();
    let start = GridPos { x: 1, y: 1 };
    let goal = GridPos { x: 38, y: 38 };
    let heuristic = Diagonal::default();
    let config = AStarConfig::default();
    let blocking = astar(&grid, &heuristic, start, goal, config);
    assert_eq!(blocking.status, PathStatus::Found);

    let mut pathfinder: BudgetedPathfinder<Grid2D> = BudgetedPathfinder::new(config);
    assert!(matches!(pathfinder.status, ComputeStatus::NotStarted));
    assert!(pathfinder.take_result().is_none());
    assert!(pathfinder.step(&grid, &heuristic, Duration::ZERO));
    pathfinder.start(start, goal, &heuristic);
    let mut steps = 0;
    let mut suspended = 0;
    while !pathfinder.step(&grid, &heuristic, Duration::ZERO) {
        steps += 1;
        suspended += 1;
        let partial = pathfinder.partial_result().unwrap();
        assert_eq!(partial.status, PathStatus::PartialTimeout);
        assert_eq!(partial.path[0], start);
        assert!(pathfinder.take_result().is_none());
        assert!(steps < 100_000);
    }
    assert!(suspended > 0);
    let stepped = pathfinder.take_result().unwrap();
    assert_eq!(stepped.status, blocking.status);
    assert_eq!(stepped.path, blocking.path);
    assert_eq!(stepped.cost, blocking.cost);
    assert_eq!(stepped.nodes_expanded, blocking.nodes_expanded);
    assert!(pathfinder.step(&grid, &heuristic, Duration::ZERO));
}

#[test]
fn stepping_reports_not_found_and_limits() {
    let mut grid = Grid2D::new(6, 6, DiagonalMode::Never);
    grid.set_region_blocked((3, 0, 1, 6), true);
    let heuristic = Diagonal::default();
    let mut pathfinder: BudgetedPathfinder<Grid2D> = BudgetedPathfinder::new(AStarConfig::default());
    pathfinder.start(GridPos { x: 0, y: 0 }, GridPos { x: 5, y: 5 }, &heuristic);
    while !pathfinder.step(&grid, &heuristic, Duration::from_secs(5)) {}
    let res = pathfinder.take_result().unwrap();
    assert_eq!(res.status, PathStatus::NotFound);
    assert!(res.path.is_empty());
    assert!(pathfinder.partial_result().is_none());

    let open = Grid2D::new(30, 30, DiagonalMode::Never);
    let config = AStarConfig { max_iterations: Some(5), timeout: None, tie_breaking: TieBreaking::NoPreference };
    let blocking = astar(&open, &heuristic, GridPos { x: 0, y: 0 }, GridPos { x: 29, y: 29 }, config);
    assert_eq!(blocking.status, PathStatus::PartialMaxIter);
    let mut limited: BudgetedPathfinder<Grid2D> = BudgetedPathfinder::new(config);
    limited.start(GridPos { x: 0, y: 0 }, GridPos { x: 29, y: 29 }, &heuristic);
    while !limited.step(&open, &heuristic, Duration::from_secs(5)) {}
    let res = limited.take_result().unwrap();
    assert_eq!(res.status, PathStatus::PartialMaxIter);
    assert_eq!(res.path, blocking.path);
    assert_eq!(res.cost, blocking.cost);
}

#[test]
fn a_short_search_ends_in_its_first_step() {
    let grid = Grid2D::new(3, 1, DiagonalMode::Never);
    let heuristic = pathforge::heuristics::Manhattan;
    let start = GridPos { x: 0, y: 0 };
    let goal = GridPos { x: 2, y: 0 };
    let mut pathfinder: BudgetedPathfinder<Grid2D> = BudgetedPathfinder::new(AStarConfig::default());
    pathfinder.start(start, goal, &heuristic);
    assert!(pathfinder.step(&grid, &heuristic, Duration::from_secs(1)));
    let res = pathfinder.take_result().unwrap();
    assert_eq!(res.status, PathStatus::Found);
    assert_eq!(res.path, vec![start, GridPos { x: 1, y: 0 }, goal]);
    assert_eq!(res.cost, 2_000_000);
    // fewer than ten entries are taken, so the clock is never read
    let mut hurried: BudgetedPathfinder<Grid2D> = BudgetedPathfinder::new(AStarConfig::default());
    hurried.start(start, goal, &heuristic);
    assert!(hurried.step(&grid, &heuristic, Duration::ZERO));
    assert_eq!(hurried.take_result().unwrap().path, res.path);
}

#[test]
fn a_spent_budget_suspends_at_every_tenth_entry() {
    let grid = Grid2D::new(30, 30, DiagonalMode::Never);
    let heuristic = pathforge::heuristics::Zero;
    let start = GridPos { x: 0, y: 0 };
    let goal = GridPos { x: 29, y: 29 };
    let blocking = astar(&grid, &heuristic, start, goal, AStarConfig::default());
    let mut pathfinder: BudgetedPathfinder<Grid2D> = BudgetedPathfinder::new(AStarConfig::default());
    pathfinder.start(start, goal, &heuristic);
    let mut suspensions: usize = 0;
    let mut last_len: usize = 0;
    while !pathfinder.step(&grid, &heuristic, Duration::ZERO) {
        suspensions += 1;
        let partial = pathfinder.partial_result().unwrap();
        assert_eq!(partial.status, PathStatus::PartialTimeout);
        assert_eq!(partial.path[0], start);
        // the cost of a partial result is that of its path on this grid
        assert_eq!(partial.cost, (partial.path.len() as u64 - 1) * 1_000_000);
        // nine entries are dealt with between two suspensions
        assert_eq!(partial.nodes_expanded, 9 * suspensions);
        assert!(partial.path.len() + 1 >= last_len);
        last_len = partial.path.len();
        assert!(suspensions < 100_000);
    }
    assert!(suspensions > 0);
    let res = pathfinder.take_result().unwrap();
    assert_eq!(res.path, blocking.path);
    assert_eq!(res.cost, blocking.cost);
    assert_eq!(res.nodes_expanded, blocking.nodes_expanded);
}
