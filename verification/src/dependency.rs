//! Backward search for the transitions that can bring the target about, and
//! the projection of a model onto them.

pub mod graph;
pub mod trimmer;
