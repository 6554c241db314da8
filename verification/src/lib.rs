//! A small scripting language run directly from its tokens: a scanner that
//! turns source text into tokens, and an interpreter that executes them
//! statement by statement against one flat table of typed variables.

pub mod ahead;
pub mod chars;
pub mod interpreter;
pub mod tokenizer;
