use pathforge::algorithms::astar::{astar, AStarConfig, TieBreaking};
use pathforge::cost::{cost_add, cost_scale, isqrt, COST_INFINITY, COST_ONE, COST_SQRT2};
use pathforge::graphs::grid2d::{CellType, DiagonalMode, Grid2D, GridPos};
use pathforge::graphs::grid3d::{Grid3D, GridPos3D};
use pathforge::heuristics::{Diagonal, Euclidean, Manhattan, Zero};
use pathforge::traits::{Graph, Heuristic, Keyed, PathStatus};

fn p(x: i32, y: i32) -> GridPos {
    GridPos { x, y }
}

#[test]
fn cost_arithmetic() {
    assert_eq!(cost_add(1, 2), 3);
    assert_eq!(cost_add(COST_INFINITY, 5), COST_INFINITY);
    assert_eq!(cost_add(COST_INFINITY - 1, 1), COST_INFINITY);
    assert_eq!(cost_add(COST_INFINITY - 2, 1), COST_INFINITY - 1);
    assert_eq!(cost_scale(COST_ONE, COST_SQRT2), 1_414_214);
    assert_eq!(cost_scale(3, 500_000), 1);
    assert_eq!(cost_scale(COST_INFINITY, COST_SQRT2), COST_INFINITY);
    assert_eq!(isqrt(0), 0);
    assert_eq!(isqrt(1), 1);
    assert_eq!(isqrt(24), 4);
    assert_eq!(isqrt(25), 5);
    assert_eq!(isqrt(u128::MAX), u64::MAX);
    assert_eq!(isqrt(125_000_000_000_000), 11_180_339);
}

#[test]
fn heuristic_values() {
    let a = p(0, 0);
    let b = p(3, 4);
    assert_eq!(Manhattan.estimate(&a, &b), 7_000_000);
    assert_eq!(Euclidean.estimate(&a, &b), 5_000_000);
    assert_eq!(Diagonal::default().estimate(&a, &b), 1_000_000 + 3 * 1_414_214);
    assert_eq!(Zero.estimate(&a, &b), 0);
    let flat = Diagonal { cardinal_cost: COST_ONE, diagonal_cost: COST_ONE };
    assert_eq!(flat.estimate(&a, &b), 4_000_000);
    let far = p(i32::MAX, i32::MAX);
    let near = p(i32::MIN, i32::MIN);
    assert_eq!(Manhattan.estimate(&far, &near), 2 * 4_294_967_295 * 1_000_000);
    assert!(Heuristic::<GridPos>::is_admissible(&Manhattan));
    assert!(Heuristic::<GridPos>::is_admissible(&Euclidean));
    assert!(Heuristic::<GridPos>::is_admissible(&Zero));
    let u = GridPos3D { x: 1, y: 2, z: 3 };
    let v = GridPos3D { x: 3, y: 5, z: 9 };
    assert_eq!(Manhattan.estimate(&u, &v), 11_000_000);
    assert_eq!(Euclidean.estimate(&u, &v), 7_000_000);
}

#[test]
fn node_keys_tell_nodes_apart() {
    assert_ne!(p(0, 1).key(), p(1, 0).key());
    assert_ne!(p(-1, 0).key(), p(0, -1).key());
    assert_eq!(p(i32::MIN, i32::MIN).key(), 0);
    assert_eq!(p(7, -7).key(), p(7, -7).key());
    assert_ne!(GridPos3D { x: 0, y: 0, z: 1 }.key(), GridPos3D { x: 0, y: 1, z: 0 }.key());
}

#[test]
fn grid_cells_and_bounds() {
    let mut grid = Grid2D::new(4, 3, DiagonalMode::Always);
    assert_eq!(grid.cells.len(), 12);
    assert!(!grid.is_blocked(3, 2));
    assert!(grid.is_blocked(4, 0));
    assert!(grid.is_blocked(0, 3));
    assert!(grid.is_blocked(-1, 0));
    assert_eq!(grid.get_cost(0, 0), COST_ONE);
    assert_eq!(grid.get_cost(-1, 0), COST_INFINITY);
    grid.set_blocked(1, 1, true);
    assert!(grid.is_blocked(1, 1));
    assert_eq!(grid.get_cost(1, 1), COST_INFINITY);
    assert_eq!(grid.cells[5], CellType::Blocked);
    grid.set_blocked(9, 9, true);
    grid.set_cost(2, 1, 2_500_000);
    assert_eq!(grid.get_cost(2, 1), 2_500_000);
    grid.set_blocked(2, 1, false);
    assert_eq!(grid.get_cost(2, 1), COST_ONE);
    grid.set_region_blocked((2, 1, 10, 10), true);
    assert!(grid.is_blocked(2, 1) && grid.is_blocked(3, 2) && !grid.is_blocked(1, 2) && !grid.is_blocked(2, 0));
    grid.clear();
    assert!(grid.cells.iter().all(|c| *c == CellType::Passable(COST_ONE)));
}

#[test]
fn grid_neighbours_follow_the_diagonal_policy() {
    let mut grid = Grid2D::new(3, 3, DiagonalMode::Always);
    grid.set_blocked(1, 0, true);
    grid.set_cost(1, 2, 3_000_000);
    let at = |g: &Grid2D| g.neighbors(&p(0, 1)).iter().map(|(n, _)| *n).collect::<Vec<_>>();
    assert_eq!(at(&grid), vec![p(0, 2), p(1, 1), p(0, 0), p(1, 2)]);
    let costs: Vec<u64> = grid.neighbors(&p(0, 1)).iter().map(|(_, c)| *c).collect();
    assert_eq!(costs, vec![COST_ONE, COST_ONE, COST_ONE, 4_242_642]);
    grid.diagonal_movement = DiagonalMode::Never;
    assert_eq!(at(&grid), vec![p(0, 2), p(1, 1), p(0, 0)]);
    // from (0,0) towards (1,1): (1,0) is blocked, (0,1) is open
    let corner = |g: &Grid2D| g.neighbors(&p(0, 0)).iter().any(|(n, _)| *n == p(1, 1));
    grid.diagonal_movement = DiagonalMode::IfNoObstacle;
    assert!(corner(&grid));
    assert!(grid.diagonal_movement_allowed(p(0, 0), 1, 1));
    grid.diagonal_movement = DiagonalMode::OnlyIfBothOpen;
    assert!(!corner(&grid));
    assert!(!grid.diagonal_movement_allowed(p(0, 0), 1, 1));
    grid.diagonal_movement = DiagonalMode::Always;
    assert!(corner(&grid));
    assert!(grid.is_passable(&p(2, 2)) && !grid.is_passable(&p(1, 0)) && !grid.is_passable(&p(3, 3)));
}

#[test]
fn line_of_sight_is_bresenham() {
    let mut grid = Grid2D::new(8, 8, DiagonalMode::Always);
    assert!(grid.can_traverse(&p(0, 0), &p(7, 3)));
    assert!(grid.can_traverse(&p(7, 3), &p(0, 0)));
    assert!(grid.can_traverse(&p(2, 2), &p(2, 2)));
    grid.set_blocked(3, 1, true);
    // the walk from (0,0) to (6,2) visits (3,1)
    assert!(!grid.can_traverse(&p(0, 0), &p(6, 2)));
    assert!(grid.can_traverse(&p(0, 0), &p(6, 0)));
    assert!(!grid.can_traverse(&p(0, 0), &p(3, 1)));
    assert!(!grid.can_traverse(&p(3, 1), &p(0, 0)));
    assert!(!grid.can_traverse(&p(0, 0), &p(8, 0)));
}

#[test]
fn detour_around_a_column() {
    let mut grid = Grid2D::new(5, 5, DiagonalMode::Always);
    for y in 0..4 {
        grid.set_blocked(2, y, true);
    }
    let res = astar(&grid, &Diagonal::default(), p(0, 0), p(4, 0), AStarConfig::default());
    assert_eq!(res.status, PathStatus::Found);
    assert!(res.path.contains(&p(2, 4)));
    assert_eq!(res.path[0], p(0, 0));
    assert_eq!(*res.path.last().unwrap(), p(4, 0));
    let mut sum = 0;
    for pair in res.path.windows(2) {
        let (_, c) = *grid.neighbors(&pair[0]).iter().find(|(n, _)| *n == pair[1]).unwrap();
        sum += c;
    }
    assert_eq!(sum, res.cost);
    assert_eq!(res.cost, 4 * 1_414_214 + 4 * 1_000_000);
}

#[test]
fn search_is_deterministic_and_respects_limits() {
    let mut grid = Grid2D::new(30, 30, DiagonalMode::IfNoObstacle);
    for i in 0..200usize {
        grid.set_blocked((i * 17 + 3) % 30, (i * 29 + 11) % 30, true);
    }
    grid.set_blocked(0, 0, false);
    grid.set_blocked(29, 29, false);
    for mode in [
        TieBreaking::NoPreference,
        TieBreaking::PreferHigherG,
        TieBreaking::PreferLowerG,
        TieBreaking::CrossProduct,
    ] {
        let config = AStarConfig { max_iterations: None, timeout: None, tie_breaking: mode };
        let a = astar(&grid, &Diagonal::default(), p(0, 0), p(29, 29), config);
        let b = astar(&grid, &Diagonal::default(), p(0, 0), p(29, 29), config);
        assert_eq!(a.status, b.status);
        assert_eq!(a.path, b.path);
        assert_eq!(a.cost, b.cost);
        assert_eq!(a.nodes_expanded, b.nodes_expanded);
        let dijkstra = astar(&grid, &Zero, p(0, 0), p(29, 29), config);
        assert_eq!(a.cost, dijkstra.cost);
    }
    let open = Grid2D::new(30, 30, DiagonalMode::Never);
    let limited = AStarConfig { max_iterations: Some(3), timeout: None, tie_breaking: TieBreaking::PreferHigherG };
    let res = astar(&open, &Manhattan, p(0, 0), p(29, 29), limited);
    assert_eq!(res.status, PathStatus::PartialMaxIter);
    assert_eq!(res.nodes_expanded, 3);
    assert_eq!(res.path[0], p(0, 0));
    assert_eq!(res.cost, (res.path.len() as u64 - 1) * COST_ONE);
    let none = AStarConfig { max_iterations: Some(0), timeout: None, tie_breaking: TieBreaking::PreferHigherG };
    let res = astar(&open, &Manhattan, p(0, 0), p(29, 29), none);
    assert_eq!(res.status, PathStatus::PartialMaxIter);
    assert_eq!(res.path, vec![p(0, 0)]);
    let timed = AStarConfig {
        max_iterations: None,
        timeout: Some(std::time::Duration::ZERO),
        tie_breaking: TieBreaking::PreferHigherG,
    };
    let res = astar(&open, &Manhattan, p(0, 0), p(29, 29), timed);
    assert!(res.status == PathStatus::PartialTimeout || res.status == PathStatus::Found);
    let same = astar(&open, &Manhattan, p(4, 4), p(4, 4), AStarConfig::default());
    assert_eq!(same.status, PathStatus::Found);
    assert_eq!(same.path, vec![p(4, 4)]);
    assert_eq!(same.cost, 0);
    let outside = astar(&open, &Manhattan, p(-1, 0), p(4, 4), AStarConfig::default());
    assert_eq!(outside.status, PathStatus::NotFound);
    let blocked_goal = astar(&grid, &Manhattan, p(0, 0), p(3, 11), AStarConfig::default());
    assert_eq!(blocked_goal.status, PathStatus::NotFound);
}

#[test]
fn voxel_grid() {
    let mut grid = Grid3D::new(3, 3, 3);
    assert_eq!(grid.voxels.len(), 27);
    assert!(!grid.is_blocked(2, 2, 2));
    assert!(grid.is_blocked(3, 0, 0) && grid.is_blocked(0, -1, 0) && grid.is_blocked(0, 0, 3));
    assert_eq!(grid.get_cost(1, 1, 1), COST_ONE);
    assert_eq!(grid.get_cost(1, 1, 5), COST_INFINITY);
    grid.set_blocked(1, 1, 1, true);
    grid.set_blocked(9, 9, 9, true);
    assert!(grid.is_blocked(1, 1, 1));
    assert_eq!(grid.get_cost(1, 1, 1), COST_INFINITY);
    let centre = GridPos3D { x: 1, y: 1, z: 0 };
    let out: Vec<GridPos3D> = grid.neighbors(&centre).iter().map(|(n, _)| *n).collect();
    assert_eq!(
        out,
        vec![
            GridPos3D { x: 1, y: 2, z: 0 },
            GridPos3D { x: 1, y: 0, z: 0 },
            GridPos3D { x: 2, y: 1, z: 0 },
            GridPos3D { x: 0, y: 1, z: 0 },
        ]
    );
    let res = astar(
        &grid,
        &Manhattan,
        GridPos3D { x: 1, y: 1, z: 0 },
        GridPos3D { x: 1, y: 1, z: 2 },
        AStarConfig::default(),
    );
    assert_eq!(res.status, PathStatus::Found);
    assert_eq!(res.cost, 4 * COST_ONE);
    grid.set_blocked(1, 1, 1, false);
    assert!(grid.is_passable(&GridPos3D { x: 1, y: 1, z: 1 }));
    assert_eq!(Grid3D::new(0, 5, 5).voxels.len(), 0);
}

#[test]
fn reserved_tie_breaking_behaves_as_none() {
    let mut grid = Grid2D::new(16, 16, DiagonalMode::Always);
    for i in 0..60usize {
        grid.set_blocked((i * 11 + 2) % 16, (i * 7 + 5) % 16, true);
    }
    grid.set_blocked(0, 0, false);
    grid.set_blocked(15, 15, false);
    let with = |mode| {
        let config = AStarConfig { max_iterations: None, timeout: None, tie_breaking: mode };
        astar(&grid, &Diagonal::default(), p(0, 0), p(15, 15), config)
    };
    let reserved = with(TieBreaking::CrossProduct);
    let none = with(TieBreaking::NoPreference);
    assert_eq!(reserved.path, none.path);
    assert_eq!(reserved.cost, none.cost);
    assert_eq!(reserved.nodes_expanded, none.nodes_expanded);
    // every mode finds a cheapest path
    assert_eq!(with(TieBreaking::PreferHigherG).cost, none.cost);
    assert_eq!(with(TieBreaking::PreferLowerG).cost, none.cost);
}
