//! Front end of a small slang-surface language: a tokenizer that turns source
//! text into a stream of classified tokens, and a recursive-descent parser
//! that turns the token stream into an abstract syntax tree.

pub mod ast;
pub mod lex;
pub mod parse;
pub mod repl;
pub mod stream;
pub mod token;

pub use token::Token;
