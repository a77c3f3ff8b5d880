//! A small scripting language: a reader that turns source text into a tree of spanned nodes,
//! and an evaluator that runs that tree against one flat set of variable bindings.
//!
//! `parser` reads; `eval` runs a node and states what it does through the semantics `eval::sem`;
//! `laws` proves properties of that semantics.
pub mod ast;
pub mod env;
pub mod eval;
pub mod laws;
pub mod parser;
pub mod value;

pub use ast::{EvaluationError, Node, Span, Spanned, SpannedEvaluationError, SyntaxError, SyntaxReason};
pub use env::Environment;
pub use eval::{eval, eval_block, Flow};
pub use parser::lexer;
pub use value::{Decimal, Value};
