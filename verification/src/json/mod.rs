//! Json parsing and processing utilities.
pub mod error;
pub mod evaluate;
pub mod formatter;
pub mod grammar;
pub mod laws;
pub mod parser;
pub mod path;
pub mod query;
pub mod render;
pub mod roundtrip;
pub mod token;
