//! An untyped lambda-calculus evaluator: a recursive-descent parser from
//! source text to an expression tree, a pretty-printer back to text, and a
//! reduction engine that locates redexes under a spine-only leftmost-outermost
//! strategy and performs capture-avoiding substitution.

pub mod code;
pub mod parser;
pub mod reduce;
