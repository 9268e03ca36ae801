//! The core algorithm that manages interval borrows and ensures mutual
//! exclusion.
pub mod model;
pub mod frame;
pub mod laws;
pub mod index;
pub mod live;
pub mod order;
pub mod rbtree;
