//! Maze generation over a rectangular lattice of cells, and stepped path
//! search over the passability graph that the cells define.

pub mod grids;
pub mod search;
pub mod generators;
