//! A JSON text parser paired with a small path-query language that extracts
//! or reshapes a subtree of the parsed document.
pub mod cli;
pub mod error;
pub mod json;
pub mod lexer;
pub mod text;
pub mod utils;
