//! Core of a block-execution coordinator: a hash-addressed store of per-block
//! storage snapshots, a single-entry cache for the compiled runtime program,
//! and the decision logic that turns an execution request into a committed
//! state transition.

pub mod coordinator;
pub mod delta;
pub mod keys;
pub mod laws;
pub mod snapshot;
pub mod store;
