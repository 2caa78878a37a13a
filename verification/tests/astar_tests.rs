use pathforge::algorithms::astar::{astar, AStarConfig};
use pathforge::graphs::grid2d::{DiagonalMode, Grid2D, GridPos};
use pathforge::heuristics::Diagonal;
use pathforge::traits::PathStatus;

#[test]
fn open_grid_diagonal_run() {
    let grid = Grid2D::new(20, 20, DiagonalMode::Always);
    let res = astar(
        &grid,
        &Diagonal::default(),
        GridPos { x: 0, y: 0 },
        GridPos { x: 19, y: 19 },
        AStarConfig::default(),
    );
    assert_eq!(res.status, PathStatus::Found);
    assert_eq!(res.path.len(), 20);
    assert_eq!(res.cost, 19 * 1_414_214);
    let as_real = res.cost as f64 / 1_000_000.0;
    assert!((as_real - 26.8700).abs() < 1e-4);
}

#[test]
fn sealed_wall_gives_not_found() {
    let mut grid = Grid2D::new(5, 5, DiagonalMode::Always);
    for x in 0..5 {
        grid.set_blocked(x, 1, true);
    }
    let res = astar(
        &grid,
        &Diagonal::default(),
        GridPos { x: 0, y: 0 },
        GridPos { x: 4, y: 0 },
        AStarConfig::default(),
    );
    assert_eq!(res.status, PathStatus::Found);
    assert_eq!(res.cost, 4_000_000);
    let res = astar(
        &grid,
        &Diagonal::default(),
        GridPos { x: 0, y: 0 },
        GridPos { x: 4, y: 4 },
        AStarConfig::default(),
    );
    assert_eq!(res.status, PathStatus::NotFound);
    assert!(res.path.is_empty());
}
