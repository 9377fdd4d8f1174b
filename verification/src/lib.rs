//! Shortest sea routes on a spherical grid graph: the graph model, the cell
//! index over land polygons, and a family of shortest-path engines with a
//! contraction-hierarchy preprocessor.

pub mod model;
pub mod algorithms;
pub mod config;
pub mod persistence;
