//! Readers-writer locks optimized for locking intervals.
//!
//! The library keeps, for every lock, the borrowed prefix of the requested
//! interval and, while the lock waits for a conflicting borrow to go away,
//! the position it waits at. Every operation is verified against the model
//! in [`rwcore::model`].
pub mod hl;
pub mod rwcore;
pub mod utils;
