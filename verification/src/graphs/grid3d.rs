//! A box of voxels with six-connectivity: face neighbors only.

use vstd::prelude::*;
use crate::cost::{Cost, COST_INFINITY, COST_ONE};
use crate::heuristics::Position;
use crate::traits::{Graph, Keyed};

verus! {

#[derive(Clone, Copy, Debug, PartialEq, Eq, Hash, Structural)]
pub struct GridPos3D {
    pub x: i32,
    pub y: i32,
    pub z: i32,
}

#[derive(Clone, Copy, Debug, PartialEq, Eq, Structural)]
pub enum VoxelType {
    /// With movement cost multiplier.
    Passable(Cost),
    Blocked,
}

pub struct Grid3D {
    pub width: usize,
    pub height: usize,
    pub depth: usize,
    pub voxels: Vec<VoxelType>,
}

impl Keyed for GridPos3D {
    open spec fn key_of(self) -> u128 {
        (((self.x + 0x8000_0000) * 0x1_0000_0000 + (self.y + 0x8000_0000)) * 0x1_0000_0000 + (self.z
            + 0x8000_0000)) as u128
    }

    fn key(&self) -> (k: u128) {
        let hi: u128 = (self.x as i64 + 0x8000_0000) as u128;
        let mid: u128 = (self.y as i64 + 0x8000_0000) as u128;
        let lo: u128 = (self.z as i64 + 0x8000_0000) as u128;
        (hi * 0x1_0000_0000 + mid) * 0x1_0000_0000 + lo
    }

    proof fn key_is_injective(a: Self, b: Self) {
    }
}

impl Position for GridPos3D {
    open spec fn x_of(&self) -> i64 {
        (self.x * 1_000_000) as i64
    }

    open spec fn y_of(&self) -> i64 {
        (self.y * 1_000_000) as i64
    }

    open spec fn z_of(&self) -> i64 {
        (self.z * 1_000_000) as i64
    }

    fn x(&self) -> (r: i64) {
        self.x as i64 * 1_000_000
    }

    fn y(&self) -> (r: i64) {
        self.y as i64 * 1_000_000
    }

    fn z(&self) -> (r: i64) {
        self.z as i64 * 1_000_000
    }
}

/// `(z * height + y) * width + x` stays inside a `width * height * depth` buffer.
pub proof fn lemma_voxel_index(width: int, height: int, depth: int, x: int, y: int, z: int)
    requires
        0 <= x < width,
        0 <= y < height,
        0 <= z < depth,
    ensures
        0 <= z * width * height + y * width + x < width * height * depth,
        0 <= z * width * height,
        0 <= y * width,
        0 <= z * width <= z * width * height,
{
    assert(z * width * height + y * width + x < width * height * depth && 0 <= z * width * height && 0 <= y
        * width && 0 <= z * width <= z * width * height) by (nonlinear_arith)
        requires
            0 <= x < width,
            0 <= y < height,
            0 <= z < depth,
    ;
}

impl Grid3D {
    /// The storage holds exactly one voxel per coordinate triple.
    pub open spec fn well_formed(&self) -> bool {
        self.voxels@.len() == self.width * self.height * self.depth
    }

    /// Whether a coordinate triple names a voxel of the grid.
    pub open spec fn in_bounds(&self, x: int, y: int, z: int) -> bool {
        0 <= x < self.width && 0 <= y < self.height && 0 <= z < self.depth && x <= i32::MAX && y <= i32::MAX && z
            <= i32::MAX
    }

    /// The voxel at an in-range coordinate triple.
    pub open spec fn voxel(&self, x: int, y: int, z: int) -> VoxelType {
        self.voxels@[z * self.width * self.height + y * self.width + x]
    }

    /// Out-of-bounds coordinates are blocked; a voxel is blocked when it is marked so.
    pub open spec fn blocked(&self, x: int, y: int, z: int) -> bool {
        !self.in_bounds(x, y, z) || self.voxel(x, y, z) == VoxelType::Blocked
    }

    /// The cost multiplier of a voxel, `COST_INFINITY` where blocked.
    pub open spec fn cost_at(&self, x: int, y: int, z: int) -> Cost {
        if !self.in_bounds(x, y, z) {
            COST_INFINITY
        } else {
            match self.voxel(x, y, z) {
                VoxelType::Passable(c) => c,
                VoxelType::Blocked => COST_INFINITY,
            }
        }
    }

    /// The edge from `node` along the step `(dx, dy, dz)`, if there is one.
    pub open spec fn face_edge(&self, node: GridPos3D, dx: int, dy: int, dz: int) -> Seq<(GridPos3D, Cost)> {
        let nx = node.x + dx;
        let ny = node.y + dy;
        let nz = node.z + dz;
        if self.blocked(nx, ny, nz) {
            Seq::empty()
        } else {
            seq![(GridPos3D { x: nx as i32, y: ny as i32, z: nz as i32 }, self.cost_at(nx, ny, nz))]
        }
    }

    /// A grid of the given size with every voxel passable at cost `COST_ONE`.
    pub fn new(width: usize, height: usize, depth: usize) -> (g: Self)
        requires
            width * height * depth <= usize::MAX,
        ensures
            g.well_formed(),
            g.width == width,
            g.height == height,
            g.depth == depth,
            forall|i: int| 0 <= i < g.voxels@.len() ==> g.voxels@[i] == VoxelType::Passable(COST_ONE),
    {
        proof {
            if depth > 0 {
                assert(width * height <= width * height * depth) by (nonlinear_arith)
                    requires
                        depth >= 1,
                        width * height >= 0,
                ;
            }
            assert(width * height >= 0) by (nonlinear_arith)
                requires
                    width >= 0,
                    height >= 0,
            ;
        }
        if depth == 0 {
            proof {
                assert(width * height * 0 == 0) by (nonlinear_arith);
            }
            return Grid3D { width, height, depth, voxels: Vec::new() };
        }
        let total: usize = width * height * depth;
        let mut voxels: Vec<VoxelType> = Vec::new();
        let mut i: usize = 0;
        while i < total
            invariant
                i <= total,
                voxels@.len() == i,
                forall|j: int| 0 <= j < i ==> voxels@[j] == VoxelType::Passable(COST_ONE),
            decreases total - i,
        {
            voxels.push(VoxelType::Passable(COST_ONE));
            i += 1;
        }
        Grid3D { width, height, depth, voxels }
    }

    fn index(&self, x: usize, y: usize, z: usize) -> (i: usize)
        requires
            self.well_formed(),
            x < self.width,
            y < self.height,
            z < self.depth,
        ensures
            i == z * self.width * self.height + y * self.width + x,
            i < self.voxels@.len(),
    {
        proof {
            lemma_voxel_index(
                self.width as int,
                self.height as int,
                self.depth as int,
                x as int,
                y as int,
                z as int,
            );
        }
        let len: usize = self.voxels.len();
        z * self.width * self.height + y * self.width + x
    }

    /// Marks the voxel blocked, or passable at cost `COST_ONE`. Out-of-range coordinates are ignored.
    pub fn set_blocked(&mut self, x: usize, y: usize, z: usize, blocked: bool)
        requires
            old(self).well_formed(),
        ensures
            final(self).well_formed(),
            final(self).width == old(self).width,
            final(self).height == old(self).height,
            final(self).depth == old(self).depth,
            x < old(self).width && y < old(self).height && z < old(self).depth ==> final(self).voxels@ == old(
                self,
            ).voxels@.update(
                z * old(self).width * old(self).height + y * old(self).width + x,
                if blocked {
                    VoxelType::Blocked
                } else {
                    VoxelType::Passable(COST_ONE)
                },
            ),
            !(x < old(self).width && y < old(self).height && z < old(self).depth) ==> final(self).voxels@ == old(
                self,
            ).voxels@,
    {
        if x < self.width && y < self.height && z < self.depth {
            let idx: usize = self.index(x, y, z);
            let value = if blocked {
                VoxelType::Blocked
            } else {
                VoxelType::Passable(COST_ONE)
            };
            self.voxels.set(idx, value);
        }
    }

    fn lookup(&self, x: i64, y: i64, z: i64) -> (r: Option<VoxelType>)
        requires
            self.well_formed(),
        ensures
            r is None <==> !self.in_bounds(x as int, y as int, z as int),
            r is Some ==> r->0 == self.voxel(x as int, y as int, z as int),
    {
        if x < 0 || y < 0 || z < 0 || x > 0x7fff_ffff || y > 0x7fff_ffff || z > 0x7fff_ffff {
            return None;
        }
        let ux: usize = x as usize;
        let uy: usize = y as usize;
        let uz: usize = z as usize;
        if ux >= self.width || uy >= self.height || uz >= self.depth {
            return None;
        }
        let idx: usize = self.index(ux, uy, uz);
        Some(self.voxels[idx])
    }

    /// Out-of-bounds coordinates are treated as blocked.
    pub fn is_blocked(&self, x: i32, y: i32, z: i32) -> (r: bool)
        requires
            self.well_formed(),
        ensures
            r == self.blocked(x as int, y as int, z as int),
    {
        match self.lookup(x as i64, y as i64, z as i64) {
            Some(VoxelType::Passable(_)) => false,
            _ => true,
        }
    }

    /// The cost multiplier of a voxel; `COST_INFINITY` for blocked and out-of-bounds voxels.
    pub fn get_cost(&self, x: i32, y: i32, z: i32) -> (r: Cost)
        requires
            self.well_formed(),
        ensures
            r == self.cost_at(x as int, y as int, z as int),
    {
        match self.lookup(x as i64, y as i64, z as i64) {
            Some(VoxelType::Passable(c)) => c,
            _ => COST_INFINITY,
        }
    }

    fn push_face(&self, out: &mut Vec<(GridPos3D, Cost)>, node: GridPos3D, dx: i32, dy: i32, dz: i32)
        requires
            self.well_formed(),
            -1 <= dx <= 1,
            -1 <= dy <= 1,
            -1 <= dz <= 1,
        ensures
            final(out)@ == old(out)@ + self.face_edge(node, dx as int, dy as int, dz as int),
    {
        let nx: i64 = node.x as i64 + dx as i64;
        let ny: i64 = node.y as i64 + dy as i64;
        let nz: i64 = node.z as i64 + dz as i64;
        match self.lookup(nx, ny, nz) {
            Some(VoxelType::Passable(c)) => {
                out.push((GridPos3D { x: nx as i32, y: ny as i32, z: nz as i32 }, c));
            },
            _ => {},
        }
        proof {
            assert(out@ =~= old(out)@ + self.face_edge(node, dx as int, dy as int, dz as int));
        }
    }
}

impl Graph for Grid3D {
    type Node = GridPos3D;

    open spec fn well_formed(&self) -> bool {
        self.voxels@.len() == self.width * self.height * self.depth
    }

    open spec fn passable(&self, node: GridPos3D) -> bool {
        !self.blocked(node.x as int, node.y as int, node.z as int)
    }

    open spec fn edges(&self, node: GridPos3D) -> Seq<(GridPos3D, Cost)> {
        self.face_edge(node, 0, 0, 1) + self.face_edge(node, 0, 0, -1) + self.face_edge(node, 0, 1, 0)
            + self.face_edge(node, 0, -1, 0) + self.face_edge(node, 1, 0, 0) + self.face_edge(node, -1, 0, 0)
    }

    open spec fn visible(&self, from: GridPos3D, to: GridPos3D) -> bool {
        true
    }

    fn is_passable(&self, node: &GridPos3D) -> (r: bool) {
        !self.is_blocked(node.x, node.y, node.z)
    }

    fn neighbors(&self, node: &GridPos3D) -> (r: Vec<(GridPos3D, Cost)>) {
        let mut out: Vec<(GridPos3D, Cost)> = Vec::new();
        proof {
            assert(out@ =~= Seq::empty());
        }
        self.push_face(&mut out, *node, 0, 0, 1);
        self.push_face(&mut out, *node, 0, 0, -1);
        self.push_face(&mut out, *node, 0, 1, 0);
        self.push_face(&mut out, *node, 0, -1, 0);
        self.push_face(&mut out, *node, 1, 0, 0);
        self.push_face(&mut out, *node, -1, 0, 0);
        proof {
            assert(out@ =~= self.edges(*node));
        }
        out
    }

    fn can_traverse(&self, from: &GridPos3D, to: &GridPos3D) -> (r: bool) {
        true
    }
}

} // verus!
