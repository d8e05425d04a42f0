//! Full-text search.
pub mod index;
pub mod posting;
pub mod search;
pub mod tokenizer;
