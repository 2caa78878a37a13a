//! Pathfinding over grids, voxel grids and navigation meshes, with every
//! quantity held in fixed-point arithmetic so that each result can be stated
//! and proved exactly.

pub mod algorithms;
pub mod budget;
pub mod cache;
pub mod clock;
pub mod cost;
pub mod graphs;
pub mod heuristics;
pub mod smoothing;
pub mod traits;
