//! A minimal Lisp expression reader and evaluator.
//!
//! Text is turned into tokens, tokens into a tagged value tree, and the tree
//! is reduced to a result value by resolving symbols against a chained
//! environment and applying built-in procedures.

pub mod env;
pub mod float;
pub mod token;
pub mod value;
