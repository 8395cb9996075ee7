//! A small Scheme-style interpreter with a verified core.
//!
//! The heart of the library is a stack-based, trampolined evaluator with
//! first-class closures and continuations, proved to follow the small-step
//! machine semantics written out in `sem`. Around it stand the value model,
//! the chained environment store, the lexer, the parser and the printer.

pub mod builtins;
pub mod decimal;
pub mod driver;
pub mod env;
pub mod error;
pub mod eval;
pub mod laws;
pub mod lexer;
pub mod num;
pub mod parser;
pub mod sem;
pub mod value;
