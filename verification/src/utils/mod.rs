//! Small utilities.
pub mod panicking;
pub mod pin;
pub mod rbtree;
