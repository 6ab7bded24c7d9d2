//! A front end for a small Lisp-like language: a scanner that turns source
//! text into tokens, and a recursive-descent parser that turns tokens into an
//! abstract syntax tree.

pub mod numeral;
pub mod parser;
pub mod scanner;
