//! Reading a model from the lines of a model file.

pub mod words;
pub mod vas_file_reader;
