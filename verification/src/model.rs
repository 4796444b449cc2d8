//! The input model, state vectors, and the lookup structures built on them.

pub mod vector;
pub mod vas_trie;
pub mod vas_model;
pub mod explicit_model;
