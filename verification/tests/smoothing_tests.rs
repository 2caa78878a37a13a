use pathforge::graphs::grid2d::{DiagonalMode, Grid2D, GridPos};
use pathforge::graphs::grid3d::{Grid3D, GridPos3D};
use pathforge::smoothing::{smooth_path, SmoothingMethod};

#[test]
fn smoothes_clear_line() {
    let grid = Grid2D::new(8, 8, DiagonalMode::Always);
    let raw = vec![
        GridPos { x: 0, y: 0 },
        GridPos { x: 1, y: 0 },
        GridPos { x: 2, y: 1 },
        GridPos { x: 3, y: 2 },
        GridPos { x: 4, y: 3 },
    ];

    let smoothed = smooth_path(&grid, &raw, SmoothingMethod::RemoveRedundant);
    assert_eq!(smoothed, vec![GridPos { x: 0, y: 0 }, GridPos { x: 4, y: 3 }]);
}

#[test]
fn preserves_obstacle_bends() {
    let mut grid = Grid2D::new(5, 5, DiagonalMode::Always);
    // Wall along y=1 forces path to dip down to y=2
    for x in 0..5 {
        grid.set_blocked(x, 1, true);
    }
    let raw = vec![
        GridPos { x: 0, y: 0 },
        GridPos { x: 0, y: 2 },
        GridPos { x: 1, y: 2 },
        GridPos { x: 2, y: 2 },
        GridPos { x: 3, y: 2 },
        GridPos { x: 4, y: 2 },
    ];

    let smoothed = smooth_path(&grid, &raw, SmoothingMethod::RemoveRedundant);
    assert!(
        smoothed.len() > 2,
        "Obstacle should prevent full straightening; got {:?}",
        smoothed
    );
    assert_eq!(
        smoothed,
        vec![GridPos { x: 0, y: 0 }, GridPos { x: 0, y: 2 }, GridPos { x: 4, y: 2 }]
    );
}

#[test]
fn short_and_unchanged_paths_are_copied() {
    let grid = Grid2D::new(8, 8, DiagonalMode::Always);
    let two = vec![GridPos { x: 0, y: 0 }, GridPos { x: 5, y: 5 }];
    assert_eq!(smooth_path(&grid, &two, SmoothingMethod::RemoveRedundant), two);
    let none: Vec<GridPos> = Vec::new();
    assert_eq!(smooth_path(&grid, &none, SmoothingMethod::RemoveRedundant), none);
    let raw = vec![GridPos { x: 0, y: 0 }, GridPos { x: 1, y: 0 }, GridPos { x: 2, y: 0 }];
    assert_eq!(smooth_path(&grid, &raw, SmoothingMethod::Unchanged), raw);
    assert_eq!(
        smooth_path(&grid, &raw, SmoothingMethod::RemoveRedundant),
        vec![GridPos { x: 0, y: 0 }, GridPos { x: 2, y: 0 }]
    );
}

#[test]
fn graph_without_obstacles_sees_everything() {
    let grid = Grid3D::new(4, 4, 4);
    let raw = vec![
        GridPos3D { x: 0, y: 0, z: 0 },
        GridPos3D { x: 1, y: 0, z: 0 },
        GridPos3D { x: 1, y: 1, z: 0 },
        GridPos3D { x: 1, y: 1, z: 1 },
    ];
    let smoothed = smooth_path(&grid, &raw, SmoothingMethod::RemoveRedundant);
    assert_eq!(smoothed, vec![raw[0], raw[3]]);
}
