//! An arithmetic-expression engine.
//!
//! Text is lexed into tokens, tokens are parsed into an expression tree, and
//! the tree is evaluated against a variable environment. The numbers are the
//! caller's: the engine is given the arithmetic and decides everything else.

pub mod parser;
