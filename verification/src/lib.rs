//! A recursive-descent JSON parser producing an in-memory value tree.
//!
//! The single entry point, [`parser::parse_document`], turns a complete UTF-8
//! document (given as bytes) into a [`value::Value`], or reports a typed
//! [`error::ParseError`] carrying the byte offset at which parsing failed.

pub mod error;
pub mod grammar;
pub mod laws;
pub mod parser;
pub mod render;
pub mod value;

pub use error::{ErrorKind, ParseError};
pub use parser::parse_document;
pub use value::{JsonNumber, Value};
