//! Degrees of separation: hop distances between all ordered pairs of nodes of a
//! graph given as adjacency lists, and the statistics drawn from them.
pub mod graph;
pub mod bfs;
pub mod stats;
pub mod separation;
pub mod loader;
