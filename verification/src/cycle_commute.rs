//! Growth of a seeded state space by transitions that commute with a trace
//! and by cycles of transitions.

pub mod commute;
