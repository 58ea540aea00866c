//! A parser and resolver for a small language that declares sets of error
//! variants and composes them by reference.
pub mod ast;
pub mod error;
pub mod lexer;
pub mod parser;
pub mod resolve;
pub mod theorems;
