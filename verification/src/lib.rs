//! Local iterative coreness estimation for undirected graphs.
//!
//! The crate builds an adjacency-list graph, normalizes it (sorted,
//! duplicate-free neighbor lists), and then estimates every vertex's core
//! number by repeatedly applying a local h-index update rule until a fixed
//! point is reached, either by full sweeps over all vertices or by a
//! worklist that follows the chain of decreases.

pub mod graph;
pub mod hindex;
pub mod laws;
pub mod state;
