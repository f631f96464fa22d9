//! High-level intermediate representation of a compiler for a JavaScript-like
//! language: the value model, the instruction and control-flow-graph model, a
//! block rewriter, and the pass that inlines memoization callbacks.
pub mod value;
pub mod ids;
pub mod identifier;
pub mod instruction;
pub mod function;
pub mod environment;
pub mod diagnostic;
pub mod initialize;
pub mod merge;
pub mod rewriter;
pub mod inline_use_memo;
