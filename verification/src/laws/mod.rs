//! What holds of the cache as a whole, over any course of operations.

pub mod contents;
pub mod eviction;
pub mod listing;
pub mod locking;
pub mod steps;
pub mod turns;
pub mod usage;
