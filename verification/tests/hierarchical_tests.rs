use pathforge::algorithms::astar::{astar, AStarConfig};
use pathforge::graphs::grid2d::{DiagonalMode, Grid2D, GridPos};
use pathforge::graphs::hierarchical::HierarchicalGrid;
use pathforge::heuristics::Euclidean;
use pathforge::traits::{Graph, PathStatus};

fn walled() -> Grid2D {
    let mut grid = Grid2D::new(40, 40, DiagonalMode::Always);
    grid.set_region_blocked((10, 0, 1, 30), true);
    grid.set_region_blocked((25, 10, 1, 30), true);
    grid
}

fn assert_walkable(grid: &Grid2D, path: &[GridPos]) {
    for pair in path.windows(2) {
        let next = grid.neighbors(&pair[0]);
        assert!(next.iter().any(|(n, _)| *n == pair[1]), "{:?} -> {:?}", pair[0], pair[1]);
    }
}

#[test]
fn refined_paths_are_walkable() {
    let hp = HierarchicalGrid::new(walled(), 10);
    assert!(!hp.nodes.is_empty());
    assert_eq!(hp.nodes.len(), hp.edges.len());
    let start = GridPos { x: 2, y: 3 };
    let goal = GridPos { x: 37, y: 36 };
    let res = hp.find_path(start, goal);
    assert_eq!(res.status, PathStatus::Found);
    assert_eq!(res.path[0], start);
    assert_eq!(*res.path.last().unwrap(), goal);
    assert_walkable(&hp.base_grid, &res.path);
}

#[test]
fn same_cluster_query_is_plain_astar() {
    let hp = HierarchicalGrid::new(walled(), 10);
    let start = GridPos { x: 1, y: 1 };
    let goal = GridPos { x: 8, y: 7 };
    let res = hp.find_path(start, goal);
    let plain = astar(&hp.base_grid, &Euclidean, start, goal, AStarConfig::default());
    assert_eq!(res.status, PathStatus::Found);
    assert_eq!(res.path, plain.path);
    assert_eq!(res.cost, plain.cost);
}

#[test]
fn blocked_endpoints_give_not_found() {
    let hp = HierarchicalGrid::new(walled(), 10);
    let res = hp.find_path(GridPos { x: 10, y: 5 }, GridPos { x: 30, y: 30 });
    assert_eq!(res.status, PathStatus::NotFound);
    assert!(res.path.is_empty());
    let res = hp.find_path(GridPos { x: 0, y: 0 }, GridPos { x: 40, y: 0 });
    assert_eq!(res.status, PathStatus::NotFound);
    let res = hp.find_path(GridPos { x: -1, y: 0 }, GridPos { x: 30, y: 30 });
    assert_eq!(res.status, PathStatus::NotFound);
}

#[test]
fn sealed_region_gives_not_found() {
    let mut grid = Grid2D::new(30, 30, DiagonalMode::Never);
    grid.set_region_blocked((15, 0, 1, 30), true);
    let hp = HierarchicalGrid::new(grid, 10);
    let res = hp.find_path(GridPos { x: 2, y: 2 }, GridPos { x: 28, y: 28 });
    assert_eq!(res.status, PathStatus::NotFound);
    assert!(res.path.is_empty());
}

#[test]
fn many_clusters_are_processed_in_parallel() {
    let mut grid = Grid2D::new(64, 64, DiagonalMode::Always);
    for i in 0..200usize {
        grid.set_blocked((i * 37 + 11) % 64, (i * 53 + 5) % 64, true);
    }
    grid.set_blocked(0, 0, false);
    grid.set_blocked(63, 63, false);
    let hp = HierarchicalGrid::new(grid, 8);
    let with_nodes = hp.cluster_nodes.iter().filter(|c| !c.is_empty()).count();
    assert!(with_nodes > 50);
    for (id, out) in hp.edges.iter().enumerate() {
        for edge in out {
            assert_eq!(edge.path[0], hp.nodes[id]);
            assert_eq!(*edge.path.last().unwrap(), hp.nodes[edge.target.0]);
            assert_walkable(&hp.base_grid, &edge.path);
        }
    }
    let res = hp.find_path(GridPos { x: 0, y: 0 }, GridPos { x: 63, y: 63 });
    assert_eq!(res.status, PathStatus::Found);
    assert_walkable(&hp.base_grid, &res.path);
}

#[test]
fn abstract_nodes_come_in_pairs_across_borders() {
    let hp = HierarchicalGrid::new(walled(), 10);
    assert_eq!(hp.nodes.len() % 2, 0);
    for i in 0..hp.nodes.len() / 2 {
        let a = hp.nodes[2 * i];
        let b = hp.nodes[2 * i + 1];
        assert!((b.x == a.x + 1 && b.y == a.y) || (b.x == a.x && b.y == a.y + 1));
        // the two lie in different clusters
        assert!(a.x / 10 != b.x / 10 || a.y / 10 != b.y / 10);
        let there = &hp.edges[2 * i][0];
        assert_eq!(there.target.0, 2 * i + 1);
        assert_eq!(there.cost, 1_000_000);
        assert_eq!(there.path, vec![a, b]);
        let back = &hp.edges[2 * i + 1][0];
        assert_eq!(back.target.0, 2 * i);
        assert_eq!(back.path, vec![b, a]);
    }
    // an open 20x20 grid cut in four has one entrance on each of the four inner borders
    let open = HierarchicalGrid::new(Grid2D::new(20, 20, DiagonalMode::Always), 10);
    assert_eq!(open.nodes.len(), 8);
    assert_eq!(open.nodes[0], GridPos { x: 9, y: 4 });
    assert_eq!(open.nodes[1], GridPos { x: 10, y: 4 });
    assert!(open.nodes.contains(&GridPos { x: 4, y: 9 }));
    assert!(open.nodes.contains(&GridPos { x: 14, y: 10 }));
    // a grid that is one cluster has no entrance, and is searched directly
    let single = HierarchicalGrid::new(Grid2D::new(6, 6, DiagonalMode::Always), 10);
    assert!(single.nodes.is_empty());
    let res = single.find_path(GridPos { x: 0, y: 0 }, GridPos { x: 5, y: 5 });
    assert_eq!(res.status, PathStatus::Found);
    assert_eq!(res.cost, 5 * 1_414_214);
}

#[test]
fn a_corridor_of_two_clusters_is_crossed_cell_by_cell() {
    let hp = HierarchicalGrid::new(Grid2D::new(4, 1, DiagonalMode::Never), 2);
    let start = GridPos { x: 0, y: 0 };
    let goal = GridPos { x: 3, y: 0 };
    let res = hp.find_path(start, goal);
    assert_eq!(res.status, PathStatus::Found);
    assert_eq!(
        res.path,
        vec![GridPos { x: 0, y: 0 }, GridPos { x: 1, y: 0 }, GridPos { x: 2, y: 0 }, GridPos { x: 3, y: 0 }]
    );
    assert_eq!(res.cost, 3_000_000);
}

#[test]
fn crossing_a_border_costs_one_whatever_the_cell_costs() {
    let mut grid = Grid2D::new(4, 1, DiagonalMode::Never);
    grid.set_cost(2, 0, 3_000_000);
    let start = GridPos { x: 0, y: 0 };
    let goal = GridPos { x: 3, y: 0 };
    let plain = astar(&grid, &Euclidean, start, goal, AStarConfig::default());
    assert_eq!(plain.cost, 5_000_000);
    let hp = HierarchicalGrid::new(grid, 2);
    let res = hp.find_path(start, goal);
    assert_eq!(res.status, PathStatus::Found);
    assert_eq!(res.path, plain.path);
    assert_eq!(res.cost, 3_000_000);
}

fn cost_of_steps(grid: &Grid2D, path: &[GridPos]) -> u64 {
    let mut sum = 0;
    for pair in path.windows(2) {
        let next = grid.neighbors(&pair[0]);
        sum += next.iter().find(|(n, _)| *n == pair[1]).unwrap().1;
    }
    sum
}

#[test]
fn on_unit_costs_the_cost_reported_is_that_of_the_steps() {
    let hp = HierarchicalGrid::new(walled(), 10);
    let ends = [
        (GridPos { x: 2, y: 3 }, GridPos { x: 37, y: 36 }),
        (GridPos { x: 0, y: 39 }, GridPos { x: 39, y: 0 }),
        (GridPos { x: 15, y: 2 }, GridPos { x: 3, y: 28 }),
        (GridPos { x: 9, y: 9 }, GridPos { x: 11, y: 11 }),
        (GridPos { x: 30, y: 30 }, GridPos { x: 12, y: 17 }),
    ];
    for (start, goal) in ends {
        let res = hp.find_path(start, goal);
        assert_eq!(res.status, PathStatus::Found);
        assert_walkable(&hp.base_grid, &res.path);
        assert_eq!(cost_of_steps(&hp.base_grid, &res.path), res.cost, "{:?} -> {:?}", start, goal);
    }
}
