//! The front end: lexer, parser and the syntax tree they produce.
pub mod analysis;
pub mod ast;
pub mod extract;
pub mod lexer;
pub mod traits;
pub mod parser;
