//! Bounded model checking over bit-vectors: formulas, the encoding of a
//! model, unrolling over time, and the search for variable bounds.

pub mod formula;
pub mod unroller;
pub mod encoding;
pub mod vas_bmc;
pub mod bounds;
