//! The tiny Lisp: syntax, values, effect records, parser and evaluator.

pub mod ast;
pub mod value;
pub mod effect;
pub mod parse;
pub mod eval;
pub mod roundtrip;
