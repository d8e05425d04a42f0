//! Bloom filters: approximate membership.
pub mod agree;
pub mod bits;
pub mod memory;
pub mod paged;
pub mod tombstone;
