//! Checks of a model before the analyses run.

pub mod vas_validator;
