//! Reachability analysis for chemical reaction networks given as vector
//! addition systems: dependency graphs, bounded model checking encodings,
//! variable bounding, and explicit state-space construction from traces.

pub mod model;
pub mod dependency;
pub mod bmc;
pub mod builder;
pub mod trace;
pub mod cycle_commute;
pub mod validator;
pub mod parser;
pub mod demos;
