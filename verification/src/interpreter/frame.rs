//! Execution frames of the interpreter: a block of statements with an
//! instruction pointer, and for a loop the number of repetitions left.
use vstd::prelude::*;

use crate::sem_parser::sem_parse_structure::Statement;

verus! {

/// All Types of Execution Frames that can occur in the program
/// Used as identifier in Framekind
#[derive(Debug, Clone, Copy, PartialEq, Eq, Structural)]
pub enum FrameKind {
    Block,
    /// a loop body, to be run `remaining` more times after the current pass
    Loop { remaining: usize },
}

/// Execution Frame for storing the relevant Frame data
#[derive(Debug, Clone, Copy)]
pub struct Frame<'a> {
    /// saving the current frame context e.g. for loops
    pub kind: FrameKind,
    /// statements defined in the frame
    pub statements: &'a Vec<Statement>,
    /// instruction pointer pointing to next statement
    pub ip: usize,
}

impl<'a> Frame<'a> {
    /// crate a new frame with instruction pointer to 0
    pub fn new(kind: FrameKind, statements: &'a Vec<Statement>) -> (r: Self)
        ensures
            r.kind == kind,
            r.statements == statements,
            r.ip == 0,
    {
        Self { kind, statements, ip: 0 }
    }
}

} // verus!
