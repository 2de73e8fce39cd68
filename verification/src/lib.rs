//! An integer expression calculator: a tokenizer, a recursive-descent parser
//! and a tree-walking evaluator, each with a machine-checked contract.
//!
//! [`calculate`] runs the three stages on one line of text.

pub mod wrap;
pub mod tokenize;
pub mod parser;
pub mod grammar;
pub mod precedence;
pub mod eval;
pub mod calc;

pub use calc::{calculate, CalcError};
