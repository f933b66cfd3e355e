//! Connectivity and clustering over the complete distance graph of a set of
//! points in three-dimensional integer space, together with the smaller
//! computations of the other puzzles: a dial, battery banks, a grid of rolls,
//! id ranges and column arithmetic.

pub mod cluster;
pub mod dial;
pub mod doubled;
pub mod error;
pub mod graph;
pub mod grid;
pub mod joltage;
pub mod manifold;
pub mod merger;
pub mod ranges;
pub mod worksheet;
