//! Scanner and recursive-descent parser that turn an arithmetic expression
//! string into a syntax tree.

pub mod ast;
pub mod common;
pub mod laws;
pub mod scanner;
