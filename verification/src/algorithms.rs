//! Search algorithms and path post-processing.

pub mod astar;
pub mod exploration;
pub mod flowfield;
pub mod frontier;
pub mod funnel;
pub mod guarantees;
pub mod jps;
pub mod lineage;
pub mod on_grids;
pub mod parallel;
pub mod replanning;
pub mod search;
pub mod steady;
pub mod theta;
