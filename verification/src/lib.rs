//! A lexical analyzer for a small scripting language: source text in, an
//! ordered sequence of tokens out.

pub mod error;
pub mod grammar;
pub mod laws;
pub mod lexer;
pub mod source;
pub mod text;
pub mod token;

pub use error::{LexerError, LexerErrorKind, LexerErrorView};
pub use lexer::{Cursor, Lexer};
pub use token::{Token, TokenView};
