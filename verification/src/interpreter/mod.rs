//! Interpreter: runs a parsed program on a stack of frames.
pub mod frame;
pub mod interpret;
pub mod semantics;

pub use crate::error::{ErrorKind, GlobalError, RuntimeErrorKind};
pub use interpret::{exec_with_output, Interpreter, RuntimeContext};
