//! Rules that match on the syntax tree of a source file.

pub mod parser_cache;

pub use parser_cache::{ParserCache, ParserError};
