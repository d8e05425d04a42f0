//! Blob stores.
pub mod file;
pub mod memory;
pub mod paged;
pub mod pages;
