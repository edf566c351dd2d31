//! Front end of a small dynamically-typed scripting language.
//!
//! Source text is turned into a token stream by the [`scanner`], and the
//! token stream into an expression tree by the recursive-descent [`parser`].
//! Malformed lexical input becomes `SyntaxError` tokens inside the stream;
//! malformed syntax becomes a structured [`error::LoxError`].

pub mod error;
pub mod interpreter;
pub mod parser;
pub mod scanner;
pub mod token;
