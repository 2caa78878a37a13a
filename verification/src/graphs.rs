//! Concrete graphs: grids, voxel grids and navigation meshes.

pub mod grid2d;
pub mod grid3d;
pub mod hierarchical;
pub mod navmesh;
pub mod refinement;
