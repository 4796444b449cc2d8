//! Construction of explicit state spaces from traces.

pub mod ragtimer;
pub mod rl_traces;
