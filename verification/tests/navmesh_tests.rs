use pathforge::algorithms::astar::{astar, AStarConfig};
use pathforge::algorithms::funnel::{string_pull, Portal};
use pathforge::graphs::navmesh::NavMesh;
use pathforge::heuristics::Zero;
use pathforge::traits::{Graph, PathStatus};

const ONE: i64 = 1_000_000;

/// A square from (0,0) to (2,2) in the XZ plane, cut along its diagonal.
fn square() -> NavMesh {
    let vertices = vec![
        0, 0, 0, // v0
        2 * ONE, 0, 0, // v1
        2 * ONE, 0, 2 * ONE, // v2
        0, 0, 2 * ONE, // v3
    ];
    let polygons = vec![0, 1, 2, 0, 2, 3];
    let neighbors = vec![-1, -1, 1, 0, -1, -1];
    NavMesh::new(vertices, polygons, neighbors)
}

#[test]
fn funnel_through_a_square_is_a_straight_line() {
    let mesh = square();
    let start_pos = [ONE, 0, ONE / 2];
    let end_pos = [ONE, 0, 3 * ONE / 2];
    let start_poly = mesh.get_poly_at_pos(start_pos).unwrap();
    let goal_poly = mesh.get_poly_at_pos(end_pos).unwrap();
    assert_eq!((start_poly, goal_poly), (0, 1));

    let found = astar(&mesh, &Zero, start_poly, goal_poly, AStarConfig::default());
    assert_eq!(found.status, PathStatus::Found);
    assert_eq!(found.path, vec![0, 1]);

    let portals = mesh.get_portals(&found.path, start_pos, end_pos);
    assert_eq!(portals.len(), 3);
    assert_eq!(portals[1].left, [0, 0, 0]);
    assert_eq!(portals[1].right, [2 * ONE, 0, 2 * ONE]);
    let pulled = string_pull(&portals);
    assert_eq!(pulled, vec![start_pos, end_pos]);
}

#[test]
fn funnel_turns_around_a_corner() {
    // An L-shaped corridor: east along z in [0,1], then north along x in [3,4].
    let portals = vec![
        Portal { left: [0, 0, ONE / 2], right: [0, 0, ONE / 2] },
        Portal { left: [3 * ONE, 0, ONE], right: [3 * ONE, 0, 0] },
        Portal { left: [3 * ONE, 0, ONE], right: [4 * ONE, 0, ONE] },
        Portal { left: [7 * ONE / 2, 0, 4 * ONE], right: [7 * ONE / 2, 0, 4 * ONE] },
    ];
    let pulled = string_pull(&portals);
    assert_eq!(pulled, vec![[0, 0, ONE / 2], [3 * ONE, 0, ONE], [7 * ONE / 2, 0, 4 * ONE]]);
}

#[test]
fn funnel_edge_cases() {
    assert!(string_pull(&[]).is_empty());
    let lone = Portal { left: [5, 0, 5], right: [5, 0, 5] };
    assert_eq!(string_pull(&[lone]), vec![[5, 0, 5]]);
    let other = Portal { left: [9, 0, 9], right: [9, 0, 9] };
    assert_eq!(string_pull(&[lone, other]), vec![[5, 0, 5], [9, 0, 9]]);
    assert_eq!(string_pull(&[lone, lone]), vec![[5, 0, 5]]);
}

#[test]
fn navmesh_queries() {
    let mesh = square();
    assert_eq!(mesh.get_vertex(2), (2 * ONE, 0, 2 * ONE));
    assert_eq!(mesh.centroid(0), (1_333_333, 0, 666_666));
    assert_eq!(mesh.centroid(1), (666_666, 0, 1_333_333));
    // a point on the shared edge belongs to the first triangle that holds it
    assert_eq!(mesh.get_poly_at_pos([ONE, 0, ONE]), Some(0));
    assert_eq!(mesh.get_poly_at_pos([3 * ONE, 0, ONE]), None);
    assert_eq!(mesh.get_poly_at_pos([-1, 0, 0]), None);
    assert!(mesh.is_passable(&1));
    assert!(!mesh.is_passable(&2));
    let out = mesh.neighbors(&0);
    assert_eq!(out.len(), 1);
    assert_eq!(out[0].0, 1);
    // the centroids are 666_667 apart along x and along z
    assert_eq!(out[0].1, 942_809);
    assert!(mesh.neighbors(&7).is_empty());
    // polygons that share no edge give no portal
    let portals = mesh.get_portals(&[0, 0, 1], [0, 0, 0], [ONE, 0, ONE]);
    assert_eq!(portals.len(), 3);
    assert_eq!(mesh.get_portals(&[], [0, 0, 0], [ONE, 0, ONE]).len(), 2);
}

#[test]
fn malformed_mesh_does_not_panic() {
    let mesh = NavMesh::new(vec![0, 0, 0, ONE, 0, 0], vec![0, 1, 9, 4], vec![3, -1]);
    assert!(mesh.neighbors(&0).is_empty());
    assert_eq!(mesh.get_poly_at_pos([0, 0, 0]), None);
    assert_eq!(mesh.get_portals(&[0, 1, 5], [0, 0, 0], [1, 0, 1]).len(), 2);
    let res = astar(&mesh, &Zero, 0, 1, AStarConfig::default());
    assert_eq!(res.status, PathStatus::NotFound);
    assert!(res.path.is_empty());
}

fn length(points: &[[i64; 3]]) -> f64 {
    points
        .windows(2)
        .map(|w| {
            let dx = (w[1][0] - w[0][0]) as f64;
            let dz = (w[1][2] - w[0][2]) as f64;
            (dx * dx + dz * dz).sqrt()
        })
        .sum()
}

#[test]
fn pulled_path_is_no_longer_than_the_path_through_portal_middles() {
    let portals = vec![
        Portal { left: [0, 0, ONE / 2], right: [0, 0, ONE / 2] },
        Portal { left: [3 * ONE, 0, ONE], right: [3 * ONE, 0, 0] },
        Portal { left: [3 * ONE, 0, ONE], right: [4 * ONE, 0, ONE] },
        Portal { left: [3 * ONE, 0, 3 * ONE], right: [4 * ONE, 0, 3 * ONE] },
        Portal { left: [7 * ONE / 2, 0, 4 * ONE], right: [7 * ONE / 2, 0, 4 * ONE] },
    ];
    let pulled = string_pull(&portals);
    let middles: Vec<[i64; 3]> =
        portals.iter().map(|p| [(p.left[0] + p.right[0]) / 2, 0, (p.left[2] + p.right[2]) / 2]).collect();
    assert!(length(&pulled) <= length(&middles) + 1e-6);
    assert_eq!(pulled[0], portals[0].left);
    assert_eq!(*pulled.last().unwrap(), portals[4].left);
}
