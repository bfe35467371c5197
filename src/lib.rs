//! An S-expression interpreter with music-domain primitives: a tokenizer,
//! an AST builder, a symbol environment and an evaluator whose function
//! calls work by substituting arguments into stored bodies.
pub mod atom;
pub mod display;
pub mod env;
pub mod eval;
pub mod laws;
pub mod parser;
pub mod text;
pub mod tokenizer;
