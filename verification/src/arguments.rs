//! Command-line argument handling.

pub mod parser;
