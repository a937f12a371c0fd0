//! An interpreter for a small scripting language: a tokenizer, a scoped
//! variable store and a statement engine that runs scripts token by token.

pub mod token;
pub mod error;
pub mod numbers;
pub mod semantics;
pub mod interpreter;
pub mod variables;
