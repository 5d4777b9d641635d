//! Parser with name resolution: tokens to a program whose identifiers are
//! bound to the variable they were declared as.
pub mod grammar;
pub mod sem_parse_context;
pub mod sem_parse_structure;
pub mod sem_parser;
pub mod scoping;
pub mod separators;
pub mod sem_parser_helper_func;
pub mod totality;

pub use crate::error::{ErrorKind, GlobalError, ParseErrorKind};
pub use sem_parse_context::{Ident, IdentId, IdentKind};
pub use sem_parse_structure::{
    BinOp, BinOpKind, Expr, ExprKind, Program, Spanned, Statement, StatementKind,
};
pub use sem_parser::parse;
