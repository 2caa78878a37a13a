//! A navigation mesh of triangles in a "struct of arrays" layout.

use vstd::prelude::*;
use crate::algorithms::funnel::{area_sign, tri_area_2d, Portal, Vec3};
use crate::cost::{coord_span, isqrt, lemma_floor_sqrt_unique, span, Cost, COST_INFINITY};
use crate::heuristics::{euclidean_distance, floor_sqrt};
use crate::traits::{Graph, Keyed};

verus! {

pub struct NavMesh {
    /// All vertices in the mesh, flattened: `[x0, y0, z0, x1, y1, z1, ...]`.
    pub vertices: Vec<i64>,
    /// Indices of the vertices of each triangle, stride 3.
    pub polygons: Vec<u32>,
    /// The polygon across each edge of each triangle, stride 3; -1 marks a boundary edge.
    /// Edge `k` of a triangle runs from its vertex `k` to its vertex `(k + 1) % 3`.
    pub neighbors: Vec<i32>,
}

impl Keyed for u32 {
    open spec fn key_of(self) -> u128 {
        self as u128
    }

    fn key(&self) -> (k: u128) {
        *self as u128
    }

    proof fn key_is_injective(a: Self, b: Self) {
    }
}

/// A third of `v`, rounded towards zero.
pub open spec fn third(v: int) -> int {
    if v >= 0 {
        v / 3
    } else {
        -((-v) / 3)
    }
}

/// Whether `p` lies in the triangle `a`, `b`, `c` in the XZ plane; points on an edge do.
pub open spec fn in_triangle(p: Vec3, a: Vec3, b: Vec3, c: Vec3) -> bool {
    let d1 = tri_area_2d(b, a, p);
    let d2 = tri_area_2d(c, b, p);
    let d3 = tri_area_2d(a, c, p);
    !((d1 < 0 || d2 < 0 || d3 < 0) && (d1 > 0 || d2 > 0 || d3 > 0))
}

impl NavMesh {
    pub fn new(vertices: Vec<i64>, polygons: Vec<u32>, neighbors: Vec<i32>) -> (r: Self)
        ensures
            r.vertices == vertices,
            r.polygons == polygons,
            r.neighbors == neighbors,
    {
        NavMesh { vertices, polygons, neighbors }
    }

    /// Whether the vertex buffer holds the vertex `index`.
    pub open spec fn has_vertex(&self, index: u32) -> bool {
        index * 3 + 2 < self.vertices@.len()
    }

    /// The coordinates of the vertex `index`.
    pub open spec fn vertex(&self, index: u32) -> Vec3 {
        [self.vertices@[index * 3], self.vertices@[index * 3 + 1], self.vertices@[index * 3 + 2]]
    }

    /// Whether the polygon buffer holds the triangle `poly` and all its vertices exist.
    pub open spec fn has_polygon(&self, poly: u32) -> bool {
        &&& poly * 3 + 2 < self.polygons@.len()
        &&& self.has_vertex(self.polygons@[poly * 3])
        &&& self.has_vertex(self.polygons@[poly * 3 + 1])
        &&& self.has_vertex(self.polygons@[poly * 3 + 2])
    }

    /// The `k`-th corner of the triangle `poly`.
    pub open spec fn corner(&self, poly: u32, k: int) -> Vec3 {
        self.vertex(self.polygons@[poly * 3 + k])
    }

    /// The centroid of the triangle `poly`, each coordinate rounded towards zero.
    pub open spec fn centroid_of(&self, poly: u32) -> (i64, i64, i64) {
        let a = self.corner(poly, 0);
        let b = self.corner(poly, 1);
        let c = self.corner(poly, 2);
        (
            third(a[0] + b[0] + c[0]) as i64,
            third(a[1] + b[1] + c[1]) as i64,
            third(a[2] + b[2] + c[2]) as i64,
        )
    }

    /// The straight-line distance between the centroids of two triangles.
    pub open spec fn centroid_distance(&self, from: u32, to: u32) -> Cost {
        let a = self.centroid_of(from);
        let b = self.centroid_of(to);
        euclidean_distance(span(a.0, b.0), span(a.1, b.1), span(a.2, b.2))
    }

    /// Returns the `(x, y, z)` of a vertex by its index.
    pub fn get_vertex(&self, index: u32) -> (r: (i64, i64, i64))
        requires
            self.has_vertex(index),
        ensures
            r.0 == self.vertex(index)[0],
            r.1 == self.vertex(index)[1],
            r.2 == self.vertex(index)[2],
    {
        let len: usize = self.vertices.len();
        let i: usize = (index as usize) * 3;
        (self.vertices[i], self.vertices[i + 1], self.vertices[i + 2])
    }

    fn get_vertex_arr(&self, index: u32) -> (r: Vec3)
        requires
            self.has_vertex(index),
        ensures
            r@ == self.vertex(index)@,
    {
        let (x, y, z) = self.get_vertex(index);
        let r: Vec3 = [x, y, z];
        proof {
            assert(r@ =~= self.vertex(index)@);
        }
        r
    }

    fn checked_polygon(&self, poly: u32) -> (r: bool)
        ensures
            r == self.has_polygon(poly),
    {
        let base: u64 = (poly as u64) * 3;
        if base + 2 >= self.polygons.len() as u64 {
            return false;
        }
        let i: usize = base as usize;
        let n: u64 = self.vertices.len() as u64;
        (self.polygons[i] as u64) * 3 + 2 < n && (self.polygons[i + 1] as u64) * 3 + 2 < n && (
        self.polygons[i + 2] as u64) * 3 + 2 < n
    }

    /// Calculates the centroid of a polygon.
    pub fn centroid(&self, poly_index: u32) -> (r: (i64, i64, i64))
        requires
            self.has_polygon(poly_index),
        ensures
            r == self.centroid_of(poly_index),
    {
        let len: usize = self.polygons.len();
        let i: usize = (poly_index as usize) * 3;
        let v1 = self.get_vertex(self.polygons[i]);
        let v2 = self.get_vertex(self.polygons[i + 1]);
        let v3 = self.get_vertex(self.polygons[i + 2]);
        (
            ((v1.0 as i128 + v2.0 as i128 + v3.0 as i128) / 3) as i64,
            ((v1.1 as i128 + v2.1 as i128 + v3.1 as i128) / 3) as i64,
            ((v1.2 as i128 + v2.2 as i128 + v3.2 as i128) / 3) as i64,
        )
    }

    fn dist(a: (i64, i64, i64), b: (i64, i64, i64)) -> (r: Cost)
        ensures
            r == euclidean_distance(span(a.0, b.0), span(a.1, b.1), span(a.2, b.2)),
    {
        let dx: u128 = coord_span(a.0, b.0) as u128;
        let dy: u128 = coord_span(a.1, b.1) as u128;
        let dz: u128 = coord_span(a.2, b.2) as u128;
        proof {
            assert(dx * dx <= 0xffff_ffff_ffff_ffff * 0xffff_ffff_ffff_ffff && dy * dy <= 0xffff_ffff_ffff_ffff
                * 0xffff_ffff_ffff_ffff && dz * dz <= 0xffff_ffff_ffff_ffff * 0xffff_ffff_ffff_ffff)
                by (nonlinear_arith)
                requires
                    dx <= 0xffff_ffff_ffff_ffff,
                    dy <= 0xffff_ffff_ffff_ffff,
                    dz <= 0xffff_ffff_ffff_ffff,
            ;
        }
        match (dx * dx).checked_add(dy * dy) {
            None => COST_INFINITY,
            Some(xy) => match xy.checked_add(dz * dz) {
                None => COST_INFINITY,
                Some(squares) => {
                    let root: u64 = isqrt(squares);
                    proof {
                        lemma_floor_sqrt_unique(root as nat, floor_sqrt(squares as nat), squares as nat);
                    }
                    root
                },
            },
        }
    }

    /// Whether edge `k` of the triangle `here` is shared with the polygon `there`.
    pub open spec fn shares_edge(&self, here: u32, there: u32, k: int) -> bool {
        &&& self.has_polygon(here)
        &&& here * 3 + k < self.neighbors@.len()
        &&& self.neighbors@[here * 3 + k] == there
    }

    /// The portal from the triangle `here` into the polygon `there`, through the
    /// first edge of `here` that the two share: seen from inside `here`, whose
    /// corners run counter-clockwise, the edge's end is on the left and its
    /// start on the right.
    pub open spec fn shared_edge(&self, here: u32, there: u32) -> Option<Portal> {
        if self.shares_edge(here, there, 0) {
            Some(Portal { left: self.corner(here, 1), right: self.corner(here, 0) })
        } else if self.shares_edge(here, there, 1) {
            Some(Portal { left: self.corner(here, 2), right: self.corner(here, 1) })
        } else if self.shares_edge(here, there, 2) {
            Some(Portal { left: self.corner(here, 0), right: self.corner(here, 2) })
        } else {
            None
        }
    }

    /// The portals between the first `n + 1` polygons of `path`, in order;
    /// two consecutive polygons that share no edge give none.
    pub open spec fn portals_between(&self, path: Seq<u32>, n: nat) -> Seq<Portal>
        decreases n,
    {
        if n == 0 {
            Seq::empty()
        } else {
            let before = self.portals_between(path, (n - 1) as nat);
            match self.shared_edge(path[n - 1], path[n as int]) {
                Some(portal) => before.push(portal),
                None => before,
            }
        }
    }

    /// The portal list of a corridor: the start, the shared edges, the end.
    pub open spec fn portals_of(&self, path: Seq<u32>, start_pos: Vec3, end_pos: Vec3) -> Seq<Portal> {
        let between = if path.len() == 0 {
            Seq::empty()
        } else {
            self.portals_between(path, (path.len() - 1) as nat)
        };
        seq![Portal { left: start_pos, right: start_pos }] + between + seq![
            Portal { left: end_pos, right: end_pos },
        ]
    }

    fn find_shared_edge(&self, here: u32, there: u32) -> (r: Option<Portal>)
        ensures
            match (r, self.shared_edge(here, there)) {
                (Some(a), Some(b)) => a.left@ == b.left@ && a.right@ == b.right@,
                (None, None) => true,
                _ => false,
            },
    {
        if !self.checked_polygon(here) {
            return None;
        }
        let len: usize = self.polygons.len();
        let start_idx: usize = (here as usize) * 3;
        let mut i: usize = 0;
        while i < 3
            invariant
                i <= 3,
                self.has_polygon(here),
                start_idx == here * 3,
                start_idx + 2 < len,
                forall|k: int| 0 <= k < i ==> !self.shares_edge(here, there, k),
            decreases 3 - i,
        {
            if start_idx + i < self.neighbors.len() && self.neighbors[start_idx + i] as i64 == there as i64 {
                let v1 = self.get_vertex_arr(self.polygons[start_idx + i]);
                let v2 = self.get_vertex_arr(self.polygons[start_idx + (i + 1) % 3]);
                return Some(Portal { left: v2, right: v1 });
            }
            i += 1;
        }
        None
    }

    /// Converts a path of polygon indices into a list of portals for the funnel algorithm.
    pub fn get_portals(&self, path: &[u32], start_pos: Vec3, end_pos: Vec3) -> (r: Vec<Portal>)
        ensures
            r@.len() == self.portals_of(path@, start_pos, end_pos).len(),
            forall|k: int|
                0 <= k < r@.len() ==> (#[trigger] r@[k]).left@ == self.portals_of(path@, start_pos, end_pos)[k].left@
                    && r@[k].right@ == self.portals_of(path@, start_pos, end_pos)[k].right@,
    {
        let mut portals: Vec<Portal> = Vec::new();
        portals.push(Portal { left: start_pos, right: start_pos });
        let ghost mut model: Seq<Portal> = Seq::empty();
        let n: usize = path.len();
        let mut i: usize = 0;
        while i + 1 < n
            invariant
                n == path@.len(),
                i < path@.len() || path@.len() == 0,
                path@.len() == 0 ==> i == 0,
                path@.len() > 0 ==> model == self.portals_between(path@, i as nat),
                path@.len() == 0 ==> model == Seq::<Portal>::empty(),
                portals@.len() == model.len() + 1,
                portals@[0].left@ == start_pos@,
                portals@[0].right@ == start_pos@,
                forall|k: int|
                    0 <= k < model.len() ==> (#[trigger] portals@[k + 1]).left@ == model[k].left@ && portals@[k
                        + 1].right@ == model[k].right@,
            decreases path@.len() - i,
        {
            let curr: u32 = path[i];
            let next: u32 = path[i + 1];
            match self.find_shared_edge(curr, next) {
                Some(portal) => {
                    portals.push(portal);
                    proof {
                        model = model.push(self.shared_edge(curr, next)->0);
                    }
                },
                None => {},
            }
            i += 1;
        }
        portals.push(Portal { left: end_pos, right: end_pos });
        proof {
            let all = self.portals_of(path@, start_pos, end_pos);
            assert(all.len() == model.len() + 2);
            assert forall|k: int| 0 <= k < portals@.len() implies (#[trigger] portals@[k]).left@
                == all[k].left@ && portals@[k].right@ == all[k].right@ by {
                if 0 < k < portals@.len() - 1 {
                    assert(portals@[(k - 1) + 1] == portals@[k]);
                    assert(all[k] == model[k - 1]);
                }
            }
        }
        portals
    }

    fn is_point_in_triangle(p: &Vec3, a: &Vec3, b: &Vec3, c: &Vec3) -> (r: bool)
        ensures
            r == in_triangle(*p, *a, *b, *c),
    {
        let d1: i8 = area_sign(b, a, p);
        let d2: i8 = area_sign(c, b, p);
        let d3: i8 = area_sign(a, c, p);
        let has_neg: bool = d1 < 0 || d2 < 0 || d3 < 0;
        let has_pos: bool = d1 > 0 || d2 > 0 || d3 > 0;
        !(has_neg && has_pos)
    }

    /// Whether the triangle `poly` exists and contains `pos`.
    pub open spec fn holds(&self, poly: u32, pos: Vec3) -> bool {
        self.has_polygon(poly) && in_triangle(
            pos,
            self.corner(poly, 0),
            self.corner(poly, 1),
            self.corner(poly, 2),
        )
    }

    /// Finds the first polygon that contains the given position (XZ plane).
    pub fn get_poly_at_pos(&self, pos: Vec3) -> (r: Option<u32>)
        ensures
            match r {
                Some(poly) => self.holds(poly, pos) && forall|q: u32| q < poly ==> !self.holds(q, pos),
                None => forall|q: u32| !self.holds(q, pos),
            },
    {
        let len: usize = self.polygons.len();
        let num_polys: usize = len / 3;
        let mut i: usize = 0;
        while i < num_polys && i <= 0xffff_ffff
            invariant
                num_polys == len / 3,
                len == self.polygons@.len(),
                i <= num_polys,
                i <= 0x1_0000_0000,
                forall|q: u32| q < i ==> !self.holds(q, pos),
            decreases num_polys - i,
        {
            let poly: u32 = i as u32;
            if self.checked_polygon(poly) {
                let base: usize = i * 3;
                let v1 = self.get_vertex_arr(self.polygons[base]);
                let v2 = self.get_vertex_arr(self.polygons[base + 1]);
                let v3 = self.get_vertex_arr(self.polygons[base + 2]);
                proof {
                    lemma_area_by_view(v1, self.corner(poly, 0), v2, self.corner(poly, 1), v3, self.corner(poly, 2), pos);
                }
                if Self::is_point_in_triangle(&pos, &v1, &v2, &v3) {
                    return Some(poly);
                }
            }
            i += 1;
        }
        None
    }

    /// The edge from `node` across its side `k`, if that side has a valid neighbour.
    pub open spec fn side_edge(&self, node: u32, k: int) -> Seq<(u32, Cost)> {
        let slot = node * 3 + k;
        if self.has_polygon(node) && slot < self.neighbors@.len() && self.neighbors@[slot] >= 0 && self.has_polygon(
            self.neighbors@[slot] as u32,
        ) {
            seq![(self.neighbors@[slot] as u32, self.centroid_distance(node, self.neighbors@[slot] as u32))]
        } else {
            Seq::empty()
        }
    }
}

/// The areas that decide containment depend on the coordinates only.
proof fn lemma_area_by_view(a1: Vec3, a2: Vec3, b1: Vec3, b2: Vec3, c1: Vec3, c2: Vec3, p: Vec3)
    requires
        a1@ == a2@,
        b1@ == b2@,
        c1@ == c2@,
    ensures
        in_triangle(p, a1, b1, c1) == in_triangle(p, a2, b2, c2),
{
    assert(a1[0] == a2@[0] && a1[2] == a2@[2]);
    assert(b1[0] == b2@[0] && b1[2] == b2@[2]);
    assert(c1[0] == c2@[0] && c1[2] == c2@[2]);
}

impl Graph for NavMesh {
    type Node = u32;

    open spec fn well_formed(&self) -> bool {
        true
    }

    open spec fn passable(&self, node: u32) -> bool {
        node * 3 < self.polygons@.len()
    }

    open spec fn edges(&self, node: u32) -> Seq<(u32, Cost)> {
        self.side_edge(node, 0) + self.side_edge(node, 1) + self.side_edge(node, 2)
    }

    open spec fn visible(&self, from: u32, to: u32) -> bool {
        true
    }

    fn is_passable(&self, node: &u32) -> (r: bool) {
        (*node as u64) * 3 < self.polygons.len() as u64
    }

    fn neighbors(&self, node: &u32) -> (r: Vec<(u32, Cost)>) {
        let mut out: Vec<(u32, Cost)> = Vec::new();
        if !self.checked_polygon(*node) {
            proof {
                assert(out@ =~= self.edges(*node));
            }
            return out;
        }
        let len: usize = self.polygons.len();
        let start_index: usize = (*node as usize) * 3;
        let center_current = self.centroid(*node);
        let ghost mut model: Seq<(u32, Cost)> = Seq::empty();
        let mut i: usize = 0;
        proof {
            assert(out@ =~= model);
        }
        while i < 3
            invariant
                i <= 3,
                self.has_polygon(*node),
                start_index == *node * 3,
                start_index + 2 < len,
                center_current == self.centroid_of(*node),
                out@ == model,
                i == 0 ==> model == Seq::<(u32, Cost)>::empty(),
                i == 1 ==> model == self.side_edge(*node, 0),
                i == 2 ==> model == self.side_edge(*node, 0) + self.side_edge(*node, 1),
                i == 3 ==> model == self.side_edge(*node, 0) + self.side_edge(*node, 1) + self.side_edge(
                    *node,
                    2,
                ),
            decreases 3 - i,
        {
            let ghost before = model;
            if start_index + i < self.neighbors.len() {
                let neighbor_idx: i32 = self.neighbors[start_index + i];
                if neighbor_idx >= 0 && self.checked_polygon(neighbor_idx as u32) {
                    let neighbor: u32 = neighbor_idx as u32;
                    let center_next = self.centroid(neighbor);
                    let cost: Cost = Self::dist(center_current, center_next);
                    out.push((neighbor, cost));
                }
            }
            proof {
                model = before + self.side_edge(*node, i as int);
                assert(out@ =~= model);
                if i == 0 {
                    assert(model =~= self.side_edge(*node, 0));
                }
            }
            i += 1;
        }
        out
    }

    fn can_traverse(&self, from: &u32, to: &u32) -> (r: bool) {
        true
    }
}

} // verus!
