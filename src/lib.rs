//! A tokenizer and a precedence-climbing parser for a small expression
//! language, with contracts that pin every result to a mathematical model.
pub mod element;
pub mod parser;
