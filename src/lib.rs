//! A hand-written lexical analyser: it turns source text into classified
//! tokens, each tagged with the position of its first character.
pub mod lexer;
pub mod token;

pub use lexer::{LexError, Lexer};
pub use token::{Position, Token, TokenType};
