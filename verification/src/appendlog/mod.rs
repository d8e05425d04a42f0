//! An append-only log of versioned values.
pub mod config;
pub mod cursor;
pub mod log;
pub mod ops;
pub mod segment;
