//! A literal-substring search engine for line streams: a matcher that locates
//! the first occurrence of a query in a line, a bounded FIFO of leading
//! context lines, and a scanner that assembles matches with their surrounding
//! context and gap markers.

pub mod arguments;
pub mod context;
pub mod errors;
pub mod filter;
pub mod laws;
pub mod matcher;
pub mod output;
pub mod scanner;
