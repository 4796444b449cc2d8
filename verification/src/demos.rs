//! Two demonstrations that run several analyses in a row.

pub mod bmc_demo;
pub mod cycle_commute_demo;
