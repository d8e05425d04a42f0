//! Graphs as adjacency tables.
pub mod edges;
pub mod memory;
pub mod mirror;
pub mod pairs;
pub mod walk;
