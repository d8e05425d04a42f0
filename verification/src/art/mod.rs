//! Adaptive radix trees.
pub mod children;
pub mod memory;
pub mod node;
pub mod walk;
