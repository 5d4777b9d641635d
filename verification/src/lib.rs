//! An interpreter for a small LOOP language: a lexer, a parser that binds
//! each identifier to the variable it names, and an interpreter running
//! the program on a stack of frames.
pub mod error;
pub mod interpreter;
pub mod lexer;
pub mod pipeline;
pub mod sem_parser;
pub mod text;

pub use interpreter::exec_with_output;
pub use lexer::lex_ascii;
pub use sem_parser::parse;
