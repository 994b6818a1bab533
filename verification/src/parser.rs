//! The pipeline from bytes to the section map.

pub mod token;
pub mod lexer;
pub mod ast;
pub mod grammar;
pub mod parser;
pub mod encoding;
pub mod converter;
