//! Lexer module for providing lexical analysis
pub mod completeness;
pub mod lex;
pub mod lex_table;
pub mod token;

pub use crate::error::{ErrorKind, GlobalError, LexErrorKind};
pub use lex::lex_ascii;
pub use token::{Span, Token, TokenKind};
