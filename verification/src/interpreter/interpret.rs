//! The frame based interpreter: a stack of frames, a context of variables,
//! and the values printed so far.
use std::collections::HashMap;
use vstd::prelude::*;

use crate::error::{runtime_error, GlobalError, RuntimeErrorKind};
use crate::interpreter::frame::{Frame, FrameKind};
use crate::interpreter::semantics::{
    eval_expr, faults, frames_after, frames_wf, initial_state, program_outcome, run_stack, same_result,
    shift_st, simple_step, run_frame, exec_block, step_faults, take_top, Eval, Fetch, FrameModel, Halt, Outcome, RunState, fetch,
    frame_wf, lemma_fetch, lemma_pop, lemma_shift_stack, lemma_step, lemma_step_faults, ok,
};
use crate::sem_parser::sem_parse_context::IdentId;
use crate::sem_parser::sem_parse_structure::{BinOpKind, Expr, ExprKind, Program, Statement, StatementKind};
use crate::text::{decimal, push_char, push_decimal};

verus! {

broadcast use vstd::std_specs::hash::group_hash_axioms;

/// Runtime Context for storing variables
/// currently only usize type variables are supported
#[derive(Debug)]
pub struct RuntimeContext {
    variables: HashMap<IdentId, usize>,
}

impl RuntimeContext {
    /// The variables by identifier number.
    pub closed spec fn vars(&self) -> Map<usize, usize> {
        self.variables@
    }

    pub fn new() -> (r: Self)
        ensures
            r.vars() == Map::<usize, usize>::empty(),
    {
        Self { variables: HashMap::new() }
    }

    /// add variable to context
    /// the variable be 0 initialized
    pub fn add_variable(&mut self, ident_id: &IdentId)
        ensures
            final(self).vars() == old(self).vars().insert(*ident_id, 0),
    {
        self.variables.insert(*ident_id, 0);
    }

    /// setting a variable in the current context
    pub fn set_variable(&mut self, ident_id: &IdentId, content: usize)
        ensures
            final(self).vars() == old(self).vars().insert(*ident_id, content),
    {
        self.variables.insert(*ident_id, content);
    }

    /// checking if variable consists in context by variable id
    pub fn contains_variable(&self, ident_id: &IdentId) -> (r: bool)
        ensures
            r == self.vars().contains_key(*ident_id),
    {
        self.variables.contains_key(ident_id)
    }

    /// getting the current value of a variable
    pub fn get_variable(&self, ident_id: &IdentId) -> (r: Result<usize, RuntimeErrorKind>)
        ensures
            match r {
                Ok(v) => self.vars().contains_key(*ident_id) && v == self.vars()[*ident_id],
                Err(k) => !self.vars().contains_key(*ident_id) && k == RuntimeErrorKind::VariableNotFound,
            },
    {
        match self.variables.get(ident_id) {
            Some(v) => Ok(*v),
            None => Err(RuntimeErrorKind::VariableNotFound),
        }
    }
}

/// The model of a frame.
pub open spec fn frame_model<'a>(f: Frame<'a>) -> FrameModel {
    FrameModel { kind: f.kind, stmts: f.statements@, ip: f.ip as int }
}

/// The variables with `fresh`, if any, declared as 0.
pub open spec fn with_fresh(vars: Map<usize, usize>, fresh: Option<IdentId>) -> Map<usize, usize> {
    match fresh {
        Some(id) => vars.insert(id, 0),
        None => vars,
    }
}

/// Interpreter for handling context and execute steps
/// Used for stepwise execute statements
#[derive(Debug)]
pub struct Interpreter<'a> {
    context: RuntimeContext,
    stack: Vec<Frame<'a>>,
    /// input string associated with the program for providing error and debugging context
    input_str: &'a str,
    /// the values printed by the program, oldest first
    printed: Vec<usize>,
}

impl<'a> Interpreter<'a> {
    /// The frames, outermost first.
    pub closed spec fn frames(&self) -> Seq<FrameModel> {
        self.stack@.map_values(|f: Frame<'a>| frame_model(f))
    }

    /// The current state; no statement counted yet.
    pub closed spec fn state(&self) -> RunState {
        RunState { vars: self.context.vars(), out: self.printed@, steps: 0 }
    }

    /// What the rest of the run does.
    pub closed spec fn run(&self) -> Outcome {
        run_stack(self.frames(), self.state())
    }

    pub closed spec fn wf(&self) -> bool {
        frames_wf(self.frames())
    }

    /// The values printed and not yet taken.
    pub closed spec fn printed(&self) -> Seq<usize> {
        self.printed@
    }

    /// An interpreter about to run `program` from its first statement.
    pub fn new(program: &'a Program, input_str: &'a str) -> (r: Self)
        ensures
            r.wf(),
            r.run() == program_outcome(*program),
            r.printed() == Seq::<usize>::empty(),
    {
        let init_frame = Frame::new(FrameKind::Block, &program.statements);
        let mut stack: Vec<Frame<'a>> = Vec::new();
        stack.push(init_frame);
        let r = Interpreter { context: RuntimeContext::new(), stack, input_str, printed: Vec::new() };
        proof {
            let fr = r.frames();
            assert(fr.len() == 1);
            assert(fr[0] == frame_model(init_frame));
            assert(frame_wf(fr[0]));
            assert(fr.drop_last() =~= Seq::<FrameModel>::empty());
            assert(r.state() == initial_state());
            let o = run_frame(fr.last(), r.state());
            assert(o == exec_block(program.statements@, 0, initial_state()));
            assert(run_stack(fr.drop_last(), o.state) == ok(o.state));
        }
        r
    }

    /// Takes the values printed so far, leaving none.
    pub fn take_printed(&mut self) -> (r: Vec<usize>)
        ensures
            r@ == old(self).printed(),
            final(self).printed() == Seq::<usize>::empty(),
            final(self).state().vars == old(self).state().vars,
            final(self).frames() == old(self).frames(),
    {
        let mut out: Vec<usize> = Vec::new();
        std::mem::swap(&mut out, &mut self.printed);
        out
    }

    /// Evaluates an expression, with `fresh` (if any) read as 0;
    /// `Ok(None)` when an addition overflows.
    fn eval_in(&self, expr: &Expr, fresh: Option<IdentId>) -> (r: Result<Option<usize>, GlobalError>)
        ensures
            match eval_expr(*expr, with_fresh(self.context.vars(), fresh)) {
                Eval::Value(v) => r == Ok::<Option<usize>, GlobalError>(Some(v)),
                Eval::Overflow => r == Ok::<Option<usize>, GlobalError>(None),
                Eval::Error(g) => r == Err::<Option<usize>, GlobalError>(g),
            },
        decreases expr,
    {
        match &expr.node {
            ExprKind::Number(num) => Ok(Some(*num)),
            ExprKind::Ident(ident) => {
                let found = match fresh {
                    Some(id) => if id == ident.ident_number {
                        Ok(0)
                    } else {
                        self.context.get_variable(&ident.ident_number)
                    },
                    None => self.context.get_variable(&ident.ident_number),
                };
                match found {
                    Ok(v) => Ok(Some(v)),
                    Err(kind) => Err(GlobalError::runtime(kind, ident.span)),
                }
            },
            ExprKind::Binary { left, op, right } => {
                let l = match self.eval_in(left, fresh) {
                    Ok(Some(v)) => v,
                    other => return other,
                };
                let r = match self.eval_in(right, fresh) {
                    Ok(Some(v)) => v,
                    other => return other,
                };
                match op.node {
                    BinOpKind::Add => if l <= usize::MAX - r {
                        Ok(Some(l + r))
                    } else {
                        Ok(None)
                    },
                    BinOpKind::Sub => if l >= r {
                        Ok(Some(l - r))
                    } else {
                        Ok(Some(0))
                    },
                }
            },
        }
    }

    /// interpret expression in the current context
    pub fn interpret_expr(&mut self, expr: &Expr) -> (r: Result<usize, GlobalError>)
        requires
            !(eval_expr(*expr, old(self).state().vars) is Overflow),
        ensures
            *final(self) == *old(self),
            match eval_expr(*expr, old(self).state().vars) {
                Eval::Value(v) => r == Ok::<usize, GlobalError>(v),
                Eval::Error(g) => r == Err::<usize, GlobalError>(g),
                Eval::Overflow => false,
            },
    {
        match self.eval_in(expr, None) {
            Ok(Some(v)) => Ok(v),
            Ok(None) => Ok(0),
            Err(e) => Err(e),
        }
    }

    /// get statement index of the frame
    /// statement index is used for borrowing reasons
    /// returning None, when current frame is at the end of execution
    pub fn fetch_next_statement_idx(&mut self) -> (r: Option<usize>)
        requires
            old(self).wf(),
        ensures
            final(self).state() == old(self).state(),
            match take_top(old(self).frames()) {
                Some((i, rest)) => {
                    &&& r == Some(i as usize)
                    &&& final(self).frames() == rest
                    &&& 0 <= i < old(self).frames().last().stmts.len()
                },
                None => r is None && final(self).frames() == old(self).frames(),
            },
    {
        let n = self.stack.len();
        if n == 0 {
            return None;
        }
        let f = self.stack[n - 1];
        let ghost fr = self.frames();
        proof {
            assert(fr.last() == frame_model(f));
        }
        if f.ip < f.statements.len() {
            let nf = Frame { kind: f.kind, statements: f.statements, ip: f.ip + 1 };
            self.stack.set(n - 1, nf);
            proof {
                assert(self.frames() =~= fr.update(n - 1, frame_model(nf)));
            }
            Some(f.ip)
        } else {
            match f.kind {
                FrameKind::Loop { remaining } => {
                    if remaining == 0 || f.statements.len() == 0 {
                        None
                    } else {
                        let nf = Frame { kind: FrameKind::Loop { remaining: remaining - 1 }, statements: f.statements, ip: 1 };
                        self.stack.set(n - 1, nf);
                        proof {
                            assert(self.frames() =~= fr.update(n - 1, frame_model(nf)));
                        }
                        Some(0)
                    }
                },
                FrameKind::Block => None,
            }
        }
    }

    /// interpret statement in current context
    pub fn interpret_statement(&mut self, statement: &'a Statement) -> (r: Result<(), GlobalError>)
        requires
            old(self).wf(),
            !faults(simple_step(*statement, old(self).state())),
        ensures
            ({
                let o = simple_step(*statement, old(self).state());
                match r {
                    Ok(()) => {
                        &&& o.halt is None
                        &&& final(self).state().vars == o.state.vars
                        &&& final(self).state().out == o.state.out
                        &&& final(self).frames() == frames_after(*statement, old(self).state(), old(self).frames())
                    },
                    Err(e) => {
                        &&& o.halt == Some(Halt::Error(e))
                        &&& final(self).state().vars == o.state.vars
                        &&& final(self).printed() == old(self).printed()
                        &&& final(self).frames() == old(self).frames()
                    },
                }
            }),
    {
        let ghost st = self.state();
        let ghost fr = self.frames();
        match &statement.node {
            StatementKind::Let { name, value } => {
                if self.context.contains_variable(&name.ident_number) {
                    return Err(GlobalError::runtime(RuntimeErrorKind::VariableAlreadyDefined, statement.span));
                }
                self.context.add_variable(&name.ident_number);
                match value {
                    Some(expr) => {
                        let eval_expr = match self.interpret_expr(expr) {
                            Ok(v) => v,
                            Err(e) => return Err(e),
                        };
                        self.context.set_variable(&name.ident_number, eval_expr);
                    },
                    None => {},
                }
            },
            StatementKind::Assign { name, value } => {
                let eval_expr = match self.interpret_expr(value) {
                    Ok(v) => v,
                    Err(e) => return Err(e),
                };
                self.context.set_variable(&name.ident_number, eval_expr);
            },
            StatementKind::Loop { var, body } => {
                let num = match self.context.get_variable(&var.ident_number) {
                    Ok(num) => num,
                    Err(kind) => return Err(GlobalError::runtime(kind, var.span)),
                };
                if num != 0 {
                    let loop_frame = Frame::new(FrameKind::Loop { remaining: num - 1 }, body);
                    self.stack.push(loop_frame);
                    proof {
                        assert(self.frames() =~= fr.push(frame_model(loop_frame)));
                    }
                }
            },
            StatementKind::Print { name: ident } => {
                let variable = match self.context.get_variable(&ident.ident_number) {
                    Ok(var) => var,
                    Err(kind) => return Err(GlobalError::runtime(kind, ident.span)),
                };
                self.printed.push(variable);
            },
            StatementKind::Empty => {},
        }
        Ok(())
    }

    /// execute next statement
    /// when reaching the end it returns false
    pub fn step(&mut self) -> (r: Result<bool, GlobalError>)
        requires
            old(self).wf(),
            !step_faults(old(self).frames(), old(self).state()),
        ensures
            final(self).wf(),
            (r == Ok::<bool, GlobalError>(false)) <==> fetch(old(self).frames()) is Done,
            match r {
                Ok(true) => {
                    &&& same_result(final(self).run(), old(self).run())
                    &&& final(self).run().state.steps + 1 == old(self).run().state.steps
                },
                Ok(false) => {
                    &&& old(self).run() == ok(old(self).state())
                    &&& final(self).frames().len() == 0
                    &&& final(self).state() == old(self).state()
                },
                Err(e) => {
                    &&& old(self).run().halt == Some(Halt::Error(e))
                    &&& old(self).run().state.out == old(self).printed()
                    &&& final(self).printed() == old(self).printed()
                    &&& final(self).state().vars == old(self).run().state.vars
                },
            },
    {
        let ghost st0 = self.state();
        let ghost fr0 = self.frames();
        let ghost mut prev = self.frames();
        let mut idx_opt = self.fetch_next_statement_idx();
        while idx_opt.is_none()
            invariant
                self.state() == st0,
                st0 == old(self).state(),
                fr0 == old(self).frames(),
                frames_wf(fr0),
                frames_wf(prev),
                fetch(prev) == fetch(fr0),
                run_stack(prev, st0) == run_stack(fr0, st0),
                match idx_opt {
                    None => self.frames() == prev && take_top(prev) is None,
                    Some(i) => take_top(prev) == Some((i as int, self.frames())),
                },
            decreases self.frames().len(),
        {
            proof {
                if prev.len() > 0 {
                    lemma_pop(prev, st0);
                }
            }
            self.stack.pop();
            proof {
                if prev.len() > 0 {
                    assert(self.frames() =~= prev.drop_last());
                } else {
                    assert(self.frames() =~= prev);
                }
            }
            if self.stack.len() == 0 {
                proof {
                    assert(self.frames() =~= Seq::<FrameModel>::empty());
                    assert(fetch(self.frames()) == Fetch::Done);
                    assert(fetch(prev) == Fetch::Done);
                    assert(fetch(fr0) == Fetch::Done);
                    lemma_fetch(fr0, st0);
                    assert(run_stack(fr0, st0) == ok(st0));
                }
                return Ok(false);
            }
            proof {
                prev = self.frames();
            }
            idx_opt = self.fetch_next_statement_idx();
        }
        proof {
            assert(fetch(prev) is Next);
        }
        let statement_index = match idx_opt {
            Some(i) => i,
            None => 0,
        };
        proof {
            lemma_fetch(prev, st0);
            lemma_step(prev, st0);
        }
        let n = self.stack.len();
        let stmts: &'a Vec<Statement> = self.stack[n - 1].statements;
        proof {
            assert(self.frames().last() == frame_model(self.stack@[n - 1]));
        }
        let statement: &'a Statement = &stmts[statement_index];
        match self.interpret_statement(statement) {
            Ok(()) => {},
            Err(e) => return Err(e),
        }
        proof {
            let fa = self.frames();
            lemma_shift_stack(fa, self.state(), 1);
            assert(shift_st(self.state(), 1) == simple_step(*statement, st0).state);
        }
        Ok(true)
    }

    /// Whether executing `s` now would overflow.
    fn stmt_faults(&self, s: &Statement) -> (r: bool)
        ensures
            r == faults(simple_step(*s, self.state())),
    {
        match &s.node {
            StatementKind::Let { name, value } => {
                if self.context.contains_variable(&name.ident_number) {
                    false
                } else {
                    match value {
                        Some(e) => {
                            let v = self.eval_in(e, Some(name.ident_number));
                            matches!(v, Ok(None))
                        },
                        None => false,
                    }
                }
            },
            StatementKind::Assign { name, value } => {
                let v = self.eval_in(value, None);
                matches!(v, Ok(None))
            },
            _ => false,
        }
    }

    /// Whether the next `step` would fault: an addition that overflows.
    pub fn next_step_faults(&self) -> (r: bool)
        requires
            self.wf(),
        ensures
            r == step_faults(self.frames(), self.state()),
    {
        let ghost fr = self.frames();
        let mut j = self.stack.len();
        proof {
            assert(fr.take(j as int) =~= fr);
        }
        while j > 0
            invariant
                j <= self.stack@.len(),
                fr == self.frames(),
                frames_wf(fr),
                fetch(fr) == fetch(fr.take(j as int)),
            decreases j,
        {
            let f = self.stack[j - 1];
            let ghost sub = fr.take(j as int);
            proof {
                assert(sub.last() == frame_model(f));
            }
            if f.ip < f.statements.len() {
                return self.stmt_faults(&f.statements[f.ip]);
            }
            match f.kind {
                FrameKind::Loop { remaining } => {
                    if remaining > 0 && f.statements.len() > 0 {
                        return self.stmt_faults(&f.statements[0]);
                    }
                },
                FrameKind::Block => {},
            }
            proof {
                assert(sub.drop_last() =~= fr.take(j - 1));
            }
            j = j - 1;
        }
        false
    }
}

/// The lines printed for the values `out`: each in decimal, then a newline.
pub open spec fn print_lines(out: Seq<usize>) -> Seq<char>
    decreases out.len(),
{
    if out.len() == 0 {
        Seq::empty()
    } else {
        print_lines(out.drop_last()) + decimal(out.last() as nat) + seq!['\n']
    }
}

/// Appends the lines for the values `values` to `output`.
fn write_lines(output: &mut String, values: &Vec<usize>)
    ensures
        final(output)@ == old(output)@ + print_lines(values@),
{
    let mut i: usize = 0;
    while i < values.len()
        invariant
            i <= values@.len(),
            output@ == old(output)@ + print_lines(values@.take(i as int)),
        decreases values@.len() - i,
    {
        push_decimal(output, values[i]);
        push_char(output, '\n');
        proof {
            let t = values@.take(i + 1);
            assert(t.drop_last() =~= values@.take(i as int));
            assert(t.last() == values@[i as int]);
        }
        i = i + 1;
    }
    proof {
        assert(values@.take(i as int) =~= values@);
    }
}

/// execute parsed program till end, appending a line with each printed
/// value to `output`
///
/// Design choices:
/// - used frame based ExecutionContext
/// - introduced Interpreter struct to handle stack frame and execution context
pub fn exec_with_output(program: Program, input_str: &str, output: &mut String) -> (r: Result<(), GlobalError>)
    requires
        !faults(program_outcome(program)),
    ensures
        ({
            let o = program_outcome(program);
            &&& final(output)@ == old(output)@ + print_lines(o.state.out)
            &&& match r {
                Ok(()) => o.halt is None,
                Err(e) => o.halt == Some(Halt::Error(e)),
            }
        }),
{
    let ghost o = program_outcome(program);
    let mut interpreter = Interpreter::new(&program, input_str);
    let mut result: Result<(), GlobalError> = Ok(());
    loop
        invariant_except_break
            interpreter.wf(),
            same_result(interpreter.run(), o),
            !faults(o),
            result is Ok,
        ensures
            interpreter.printed() == o.state.out,
            match result {
                Ok(()) => o.halt is None,
                Err(e) => o.halt == Some(Halt::Error(e)),
            },
        decreases interpreter.run().state.steps,
    {
        proof {
            if step_faults(interpreter.frames(), interpreter.state()) {
                lemma_step_faults(interpreter.frames(), interpreter.state());
            }
        }
        match interpreter.step() {
            Ok(true) => {},
            Ok(false) => break,
            Err(e) => {
                result = Err(e);
                break;
            },
        }
    }
    let values = interpreter.take_printed();
    write_lines(output, &values);
    result
}

} // verus!
