//! Lexical front end for an expression language: a scanner that turns source
//! text into located tokens, a caret-annotated diagnostic printer, and an owned
//! expression tree with canonical text rendering.
pub mod text;
pub mod span;
pub mod token;
pub mod error;
pub mod commands;
pub mod lexer;
pub mod pretty;
pub mod utils;
pub mod expr;
