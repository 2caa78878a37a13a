use pathforge::algorithms::flowfield::{Direction, FlowField};
use pathforge::cost::COST_INFINITY;
use pathforge::graphs::grid2d::{DiagonalMode, Grid2D, GridPos};

#[test]
fn simple_cardinal_field_points_to_goal() {
    let mut grid = Grid2D::new(3, 1, DiagonalMode::Never);
    grid.set_blocked(1, 0, true);
    let ff = FlowField::compute(&grid, GridPos { x: 2, y: 0 });
    assert_eq!(ff.get_direction(GridPos { x: 0, y: 0 }), Direction::Stay);
    assert_eq!(ff.get_cost_to_goal(GridPos { x: 0, y: 0 }), COST_INFINITY);
    assert_eq!(ff.get_direction(GridPos { x: 2, y: 0 }), Direction::Stay);
    assert_eq!(ff.get_cost_to_goal(GridPos { x: 2, y: 0 }), 0);
}

#[test]
fn diagonal_field_prefers_shortcut() {
    let grid = Grid2D::new(3, 3, DiagonalMode::Always);
    let ff = FlowField::compute(&grid, GridPos { x: 2, y: 2 });
    assert_eq!(ff.get_direction(GridPos { x: 0, y: 0 }), Direction::SE);
}

#[test]
fn flow_field_costs_are_exact() {
    let grid = Grid2D::new(3, 3, DiagonalMode::Always);
    let ff = FlowField::compute(&grid, GridPos { x: 2, y: 2 });
    assert_eq!(ff.get_cost_to_goal(GridPos { x: 0, y: 0 }), 2 * 1_414_214);
    assert_eq!(ff.get_cost_to_goal(GridPos { x: 2, y: 0 }), 2_000_000);
    assert_eq!(ff.get_cost_to_goal(GridPos { x: 1, y: 2 }), 1_000_000);
    assert_eq!(ff.get_cost_to_goal(GridPos { x: 5, y: 5 }), COST_INFINITY);
    assert_eq!(ff.get_direction(GridPos { x: -1, y: 0 }), Direction::Stay);
}

#[test]
fn flow_descends_everywhere() {
    let mut grid = Grid2D::new(12, 9, DiagonalMode::IfNoObstacle);
    for i in 0..30usize {
        grid.set_blocked((i * 7 + 3) % 12, (i * 5 + 1) % 9, true);
    }
    grid.set_blocked(10, 7, false);
    let ff = FlowField::compute(&grid, GridPos { x: 10, y: 7 });
    for y in 0..9i32 {
        for x in 0..12i32 {
            let here = GridPos { x, y };
            let (dx, dy) = match ff.get_direction(here) {
                Direction::Stay => continue,
                Direction::N => (0, -1),
                Direction::NE => (1, -1),
                Direction::E => (1, 0),
                Direction::SE => (1, 1),
                Direction::S => (0, 1),
                Direction::SW => (-1, 1),
                Direction::W => (-1, 0),
                Direction::NW => (-1, -1),
            };
            let there = GridPos { x: x + dx, y: y + dy };
            assert!(ff.get_cost_to_goal(there) < ff.get_cost_to_goal(here));
        }
    }
}

#[test]
fn blocked_goal_reaches_nothing() {
    let mut grid = Grid2D::new(4, 4, DiagonalMode::Always);
    grid.set_blocked(1, 1, true);
    let ff = FlowField::compute(&grid, GridPos { x: 1, y: 1 });
    assert!(ff.integration.iter().all(|c| *c == COST_INFINITY));
    assert!(ff.flow.iter().all(|d| *d == Direction::Stay));
    let ff = FlowField::compute(&grid, GridPos { x: 9, y: 0 });
    assert!(ff.integration.iter().all(|c| *c == COST_INFINITY));
}

#[test]
fn bilinear_sample_blends_four_cells() {
    let grid = Grid2D::new(3, 3, DiagonalMode::Always);
    let ff = FlowField::compute(&grid, GridPos { x: 2, y: 2 });
    // cells (0,0)=SE, (1,0)=SE, (0,1)=SE, (1,1)=SE
    assert_eq!(ff.sample_bilinear(500_000, 500_000), (1_000_000, 1_000_000));
    // around (1,1): (1,1)=SE, (2,1)=S, (1,2)=E, (2,2)=Stay; at the cell corner only (1,1) counts
    assert_eq!(ff.sample_bilinear(1_000_000, 1_000_000), (1_000_000, 1_000_000));
    // halfway: x = (0.25*1 + 0.25*0 + 0.25*1 + 0) = 0.5, y = (0.25 + 0.25 + 0 + 0) = 0.5
    assert_eq!(ff.sample_bilinear(1_500_000, 1_500_000), (500_000, 500_000));
    assert_eq!(ff.sample_bilinear(-1, 0), (0, 0));
    assert_eq!(ff.sample_bilinear(2_000_000, 0), (0, 0));
    assert_eq!(Direction::NW.to_vec2(), (-1_000_000, -1_000_000));
    assert_eq!(Direction::default(), Direction::Stay);
}
