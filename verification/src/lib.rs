//! A JSON reader in two layers: a scanner that turns characters into tokens
//! and a recursive-descent parser that turns tokens into a value tree.
//!
//! [`lexis`] and [`grammar`] say what the two layers accept, on sequences of
//! characters and of tokens; [`scanner`] and [`parser`] are the executable
//! cursors, proved against them.  [`writing`] and [`literal`] go the other
//! way, from tokens to text and from a syntax tree to tokens, and prove that
//! reading what was written gives it back.
pub mod chars;
pub mod equality;
pub mod errors;
pub mod grammar;
pub mod lexis;
pub mod literal;
pub mod parser;
pub mod scanner;
pub mod token;
pub mod value;
pub mod writing;

pub use token::{Token, TokenType};
pub use value::JsonValue;
