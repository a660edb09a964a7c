//! A transactional symbolic mutation engine: a tiny Lisp, a semantic graph of
//! function signatures and bodies, structural patches and a replayable ledger.

pub mod text;
pub mod lisp;
pub mod graph;
pub mod ledger;
pub mod runtime;
pub mod harness;
