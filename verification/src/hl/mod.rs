//! High-level interfaces.
pub mod slice;
