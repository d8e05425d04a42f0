//! Vector search in a layered graph.
pub mod cache;
pub mod insert;
pub mod links;
pub mod mapping;
pub mod node;
pub mod ops;
pub mod query;
pub mod search;
pub mod settle;
pub mod table;
pub mod verify;
