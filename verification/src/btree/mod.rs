//! B-tree tables: keys in lexicographic order, with ordered scans.
pub mod balance;
pub mod cursor;
pub mod leaves;
pub mod live;
pub mod memory;
pub mod node;
pub mod paged;
pub mod scan;
pub mod sound;
pub mod stats;
pub mod streaming;
pub mod tree;
pub mod update;
pub mod writer;
