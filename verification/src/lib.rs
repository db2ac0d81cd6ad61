//! A function-level intermediate representation: an arena-based control-flow
//! graph of basic blocks, a builder that terminates each block exactly once,
//! and the passes that check and clean a unit when it is finalized.

pub mod builder;
pub mod data;
pub mod dependencies;
pub mod format;
pub mod frame;
pub mod graph;
pub mod laws;
pub mod liveness;
pub mod traversal;
pub mod unused;
pub mod util;
