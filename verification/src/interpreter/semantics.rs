//! The meaning of a program: what running it does to the variables and
//! what it prints, statement by statement, with `LOOP x DO .. END` running
//! its body as many times as `x` held when the loop was entered.
use vstd::prelude::*;

use crate::error::{runtime_error, GlobalError, RuntimeErrorKind};
use crate::interpreter::frame::FrameKind;
use crate::sem_parser::sem_parse_structure::{
    expr_within, lemma_models_within, lemma_stmts_model, model_within, stmt_model, stmts_model, within, BinOpKind, Expr,
    ExprKind, Program, Statement, StatementKind,
};

verus! {

/// The state of a run: the variables by identifier number, the values
/// printed so far, and how many statements were executed.
pub struct RunState {
    pub vars: Map<usize, usize>,
    pub out: Seq<usize>,
    pub steps: nat,
}

/// Why a run stopped before its end.
pub enum Halt {
    /// a runtime error of the program
    Error(GlobalError),
    /// an addition whose result does not fit in `usize`
    Overflow,
}

/// Where a run ended: its last state, and why it stopped if it stopped early.
pub struct Outcome {
    pub state: RunState,
    pub halt: Option<Halt>,
}

/// The value of an expression.
pub enum Eval {
    Value(usize),
    Error(GlobalError),
    Overflow,
}

pub open spec fn ok(st: RunState) -> Outcome {
    Outcome { state: st, halt: None }
}

pub open spec fn halted(st: RunState, h: Halt) -> Outcome {
    Outcome { state: st, halt: Some(h) }
}

/// One more statement executed.
pub open spec fn tick(st: RunState) -> RunState {
    RunState { vars: st.vars, out: st.out, steps: st.steps + 1 }
}

pub open spec fn with_vars(st: RunState, vars: Map<usize, usize>) -> RunState {
    RunState { vars, out: st.out, steps: st.steps }
}

/// Evaluates an expression left to right; `+` may overflow, `-` saturates at 0.
pub open spec fn eval_expr(e: Expr, vars: Map<usize, usize>) -> Eval
    decreases e,
{
    match e.node {
        ExprKind::Number(n) => Eval::Value(n),
        ExprKind::Ident(id) => if vars.contains_key(id.ident_number) {
            Eval::Value(vars[id.ident_number])
        } else {
            Eval::Error(runtime_error(RuntimeErrorKind::VariableNotFound, id.span))
        },
        ExprKind::Binary { left, op, right } => match eval_expr(*left, vars) {
            Eval::Value(l) => match eval_expr(*right, vars) {
                Eval::Value(r) => match op.node {
                    BinOpKind::Add => if l + r <= usize::MAX {
                        Eval::Value((l + r) as usize)
                    } else {
                        Eval::Overflow
                    },
                    BinOpKind::Sub => if l >= r {
                        Eval::Value((l - r) as usize)
                    } else {
                        Eval::Value(0)
                    },
                },
                other => other,
            },
            other => other,
        },
    }
}

/// The outcome of storing the value of `e` in variable `id` of `st`.
pub open spec fn assign(st: RunState, id: usize, e: Expr) -> Outcome {
    match eval_expr(e, st.vars) {
        Eval::Value(v) => ok(with_vars(st, st.vars.insert(id, v))),
        Eval::Error(g) => halted(st, Halt::Error(g)),
        Eval::Overflow => halted(st, Halt::Overflow),
    }
}

/// The effect of executing one statement without running a loop's body:
/// for a loop only its variable is looked up.
pub open spec fn simple_step(s: Statement, st: RunState) -> Outcome {
    let st1 = tick(st);
    match s.node {
        StatementKind::Let { name, value } => {
            if st.vars.contains_key(name.ident_number) {
                halted(st1, Halt::Error(runtime_error(RuntimeErrorKind::VariableAlreadyDefined, s.span)))
            } else {
                let st2 = with_vars(st1, st1.vars.insert(name.ident_number, 0));
                match value {
                    None => ok(st2),
                    Some(e) => assign(st2, name.ident_number, e),
                }
            }
        },
        StatementKind::Assign { name, value } => assign(st1, name.ident_number, value),
        StatementKind::Loop { var, body } => {
            if st.vars.contains_key(var.ident_number) {
                ok(st1)
            } else {
                halted(st1, Halt::Error(runtime_error(RuntimeErrorKind::VariableNotFound, var.span)))
            }
        },
        StatementKind::Print { name } => {
            if st.vars.contains_key(name.ident_number) {
                ok(RunState { vars: st1.vars, out: st1.out.push(st.vars[name.ident_number]), steps: st1.steps })
            } else {
                halted(st1, Halt::Error(runtime_error(RuntimeErrorKind::VariableNotFound, name.span)))
            }
        },
        StatementKind::Empty => ok(st1),
    }
}

/// How many times a loop statement runs its body in state `st`.
pub open spec fn loop_count(s: Statement, st: RunState) -> nat {
    match s.node {
        StatementKind::Loop { var, body } => st.vars[var.ident_number] as nat,
        _ => 0,
    }
}

/// Executes one statement, loops included.
pub open spec fn exec_stmt(s: Statement, st: RunState) -> Outcome
    decreases s, 0int,
{
    let o = simple_step(s, st);
    match s.node {
        StatementKind::Loop { var, body } => {
            if o.halt is Some || loop_count(s, st) == 0 {
                o
            } else {
                let o2 = exec_block(body@, 0, o.state);
                if o2.halt is Some {
                    o2
                } else {
                    exec_loop(body@, (loop_count(s, st) - 1) as nat, o2.state)
                }
            }
        },
        _ => o,
    }
}

/// Executes the statements `stmts[i..]` in order, stopping at the first halt.
pub open spec fn exec_block(stmts: Seq<Statement>, i: int, st: RunState) -> Outcome
    decreases stmts, stmts.len() - i,
{
    if i < 0 || i >= stmts.len() {
        ok(st)
    } else {
        let o = exec_stmt(stmts[i], st);
        if o.halt is Some {
            o
        } else {
            exec_block(stmts, i + 1, o.state)
        }
    }
}

/// Runs a loop body `r` more times (an empty body does nothing).
pub open spec fn exec_loop(body: Seq<Statement>, r: nat, st: RunState) -> Outcome
    decreases body, body.len() + r + 1,
{
    if r == 0 || body.len() == 0 {
        ok(st)
    } else {
        let o = exec_block(body, 0, st);
        if o.halt is Some {
            o
        } else {
            exec_loop(body, (r - 1) as nat, o.state)
        }
    }
}

/// A loop runs its body as many times as its variable held when the loop
/// was entered, whatever the body does to that variable: executing a loop
/// statement whose variable holds `v` is running its body `v` times from
/// the state after the loop statement; a body with no statements does
/// nothing however often it is run.
pub proof fn loop_runs_body_v_times(s: Statement, st: RunState, r: nat)
    requires
        s.node is Loop,
        st.vars.contains_key(s.node->var.ident_number),
    ensures
        exec_stmt(s, st) == exec_loop(s.node->body@, st.vars[s.node->var.ident_number] as nat, tick(st)),
        s.node->body@.len() == 0 ==> exec_loop(s.node->body@, r, st) == ok(st),
{
}

/// A `let` that runs declares its variable: afterwards the variable is
/// known, holding 0 when no value is given and the value of the expression
/// (read with the variable already declared as 0) otherwise.
pub proof fn let_declares_its_variable(s: Statement, st: RunState)
    requires
        s.node is Let,
    ensures
        ({
            let id = s.node->Let_name.ident_number;
            let o = exec_stmt(s, st);
            o.halt is None ==> {
                &&& o.state.vars.contains_key(id)
                &&& s.node->Let_value is None ==> o.state.vars[id] == 0
                &&& s.node->Let_value matches Some(e) ==> eval_expr(e, st.vars.insert(id, 0)) == Eval::Value(o.state.vars[id])
                &&& !st.vars.contains_key(id)
            }
        }),
{
}

/// The state a program starts in.
pub open spec fn initial_state() -> RunState {
    RunState { vars: Map::empty(), out: Seq::empty(), steps: 0 }
}

/// What running a whole program does.
pub open spec fn program_outcome(p: Program) -> Outcome {
    exec_block(p.statements@, 0, initial_state())
}

/// Whether a run stopped on a fault of the machine (an addition that
/// overflows) rather than at its end or on a runtime error of the program.
pub open spec fn faults(o: Outcome) -> bool {
    o.halt matches Some(h) && !(h is Error)
}

/// Whether state `b` keeps what state `a` had: what was printed stays
/// printed, in order, and what was declared stays declared.
pub open spec fn keeps(a: RunState, b: RunState) -> bool {
    &&& a.out.len() <= b.out.len()
    &&& b.out.subrange(0, a.out.len() as int) == a.out
    &&& a.vars.dom().subset_of(b.vars.dom())
}

proof fn lemma_keeps_trans(a: RunState, b: RunState, c: RunState)
    requires
        keeps(a, b),
        keeps(b, c),
    ensures
        keeps(a, c),
{
    assert(c.out.subrange(0, a.out.len() as int) =~= b.out.subrange(0, a.out.len() as int));
}

proof fn lemma_simple_step_keeps(s: Statement, st: RunState)
    ensures
        keeps(st, simple_step(s, st).state),
{
    let o = simple_step(s, st);
    assert(o.state.out.subrange(0, st.out.len() as int) =~= st.out);
}

/// Executing a statement only appends to what was printed and only adds
/// variables: nothing printed is taken back and nothing declared is
/// forgotten, whether the statement runs to its end or halts.
pub proof fn exec_stmt_keeps(s: Statement, st: RunState)
    ensures
        keeps(st, exec_stmt(s, st).state),
    decreases s, 0int,
{
    lemma_simple_step_keeps(s, st);
    let o = simple_step(s, st);
    if let StatementKind::Loop { var, body } = s.node {
        if !(o.halt is Some || loop_count(s, st) == 0) {
            exec_block_keeps(body@, 0, o.state);
            lemma_keeps_trans(st, o.state, exec_block(body@, 0, o.state).state);
            let o2 = exec_block(body@, 0, o.state);
            if !(o2.halt is Some) {
                exec_loop_keeps(body@, (loop_count(s, st) - 1) as nat, o2.state);
                lemma_keeps_trans(st, o2.state, exec_loop(body@, (loop_count(s, st) - 1) as nat, o2.state).state);
            }
        }
    }
}

/// Executing the statements `stmts[i..]` only appends to what was printed
/// and only adds variables.
pub proof fn exec_block_keeps(stmts: Seq<Statement>, i: int, st: RunState)
    ensures
        keeps(st, exec_block(stmts, i, st).state),
    decreases stmts, stmts.len() - i,
{
    if 0 <= i < stmts.len() {
        exec_stmt_keeps(stmts[i], st);
        let o = exec_stmt(stmts[i], st);
        if !(o.halt is Some) {
            exec_block_keeps(stmts, i + 1, o.state);
            lemma_keeps_trans(st, o.state, exec_block(stmts, i + 1, o.state).state);
        }
    } else {
        assert(st.out.subrange(0, st.out.len() as int) =~= st.out);
    }
}

/// Running a loop body more times only appends to what was printed and
/// only adds variables.
pub proof fn exec_loop_keeps(body: Seq<Statement>, r: nat, st: RunState)
    ensures
        keeps(st, exec_loop(body, r, st).state),
    decreases body, body.len() + r + 1,
{
    if r == 0 || body.len() == 0 {
        assert(st.out.subrange(0, st.out.len() as int) =~= st.out);
    } else {
        exec_block_keeps(body, 0, st);
        let o = exec_block(body, 0, st);
        if !(o.halt is Some) {
            exec_loop_keeps(body, (r - 1) as nat, o.state);
            lemma_keeps_trans(st, o.state, exec_loop(body, (r - 1) as nat, o.state).state);
        }
    }
}

/// Whether every statement, with what it names and holds, lies within
/// the first `n` bytes.
pub open spec fn stmts_within(stmts: Seq<Statement>, n: int) -> bool {
    forall|j: int| 0 <= j < stmts.len() ==> model_within(#[trigger] stmt_model(stmts[j]), n)
}

proof fn lemma_eval_error_within(e: Expr, vars: Map<usize, usize>, n: int)
    requires
        expr_within(e, n),
    ensures
        eval_expr(e, vars) matches Eval::Error(g) ==> within(g.span, n),
    decreases e,
{
    if let ExprKind::Binary { left, op, right } = e.node {
        lemma_eval_error_within(*left, vars, n);
        lemma_eval_error_within(*right, vars, n);
    }
}

/// A runtime error of a statement lying within the first `n` bytes spans
/// a range of them.
pub proof fn exec_stmt_error_within(s: Statement, st: RunState, n: int)
    requires
        model_within(stmt_model(s), n),
    ensures
        exec_stmt(s, st).halt matches Some(Halt::Error(g)) ==> within(g.span, n),
    decreases s, 0int,
{
    match s.node {
        StatementKind::Let { name, value } => {
            if let Some(v) = value {
                lemma_eval_error_within(v, st.vars.insert(name.ident_number, 0), n);
            }
        },
        StatementKind::Assign { name, value } => {
            lemma_eval_error_within(value, st.vars, n);
        },
        StatementKind::Loop { var, body } => {
            let o = simple_step(s, st);
            lemma_stmts_model(body@);
            lemma_models_within(stmts_model(body@), n);
            assert(stmts_within(body@, n)) by {
                assert forall|j: int| 0 <= j < body@.len() implies model_within(#[trigger] stmt_model(body@[j]), n) by {
                    assert(stmts_model(body@)[j] == stmt_model(body@[j]));
                }
            }
            if !(o.halt is Some || loop_count(s, st) == 0) {
                exec_block_error_within(body@, 0, o.state, n);
                let o2 = exec_block(body@, 0, o.state);
                if !(o2.halt is Some) {
                    exec_loop_error_within(body@, (loop_count(s, st) - 1) as nat, o2.state, n);
                }
            }
        },
        _ => {},
    }
}

/// A runtime error of statements lying within the first `n` bytes spans a
/// range of them.
pub proof fn exec_block_error_within(stmts: Seq<Statement>, i: int, st: RunState, n: int)
    requires
        stmts_within(stmts, n),
    ensures
        exec_block(stmts, i, st).halt matches Some(Halt::Error(g)) ==> within(g.span, n),
    decreases stmts, stmts.len() - i,
{
    if 0 <= i < stmts.len() {
        assert(model_within(stmt_model(stmts[i]), n));
        exec_stmt_error_within(stmts[i], st, n);
        let o = exec_stmt(stmts[i], st);
        if !(o.halt is Some) {
            exec_block_error_within(stmts, i + 1, o.state, n);
        }
    }
}

/// A runtime error of repeating a loop body lying within the first `n`
/// bytes spans a range of them.
pub proof fn exec_loop_error_within(body: Seq<Statement>, r: nat, st: RunState, n: int)
    requires
        stmts_within(body, n),
    ensures
        exec_loop(body, r, st).halt matches Some(Halt::Error(g)) ==> within(g.span, n),
    decreases body, body.len() + r + 1,
{
    if r > 0 && body.len() > 0 {
        exec_block_error_within(body, 0, st, n);
        let o = exec_block(body, 0, st);
        if !(o.halt is Some) {
            exec_loop_error_within(body, (r - 1) as nat, o.state, n);
        }
    }
}

// ----------------------------------------------------------------------
// The frame machine, seen abstractly
// ----------------------------------------------------------------------

/// A frame: its kind, its statements, and the index of the next one.
pub struct FrameModel {
    pub kind: FrameKind,
    pub stmts: Seq<Statement>,
    pub ip: int,
}

pub open spec fn frame_wf(f: FrameModel) -> bool {
    0 <= f.ip <= f.stmts.len()
}

pub open spec fn frames_wf(frames: Seq<FrameModel>) -> bool {
    forall|i: int| 0 <= i < frames.len() ==> #[trigger] frame_wf(frames[i])
}

/// Finishes one frame: the rest of its statements, then the remaining
/// passes of a loop.
pub open spec fn run_frame(f: FrameModel, st: RunState) -> Outcome {
    let o = exec_block(f.stmts, f.ip, st);
    if o.halt is Some {
        o
    } else {
        match f.kind {
            FrameKind::Block => o,
            FrameKind::Loop { remaining } => exec_loop(f.stmts, remaining as nat, o.state),
        }
    }
}

/// Finishes all frames, innermost (last) first.
pub open spec fn run_stack(frames: Seq<FrameModel>, st: RunState) -> Outcome
    decreases frames.len(),
{
    if frames.len() == 0 {
        ok(st)
    } else {
        let o = run_frame(frames.last(), st);
        if o.halt is Some {
            o
        } else {
            run_stack(frames.drop_last(), o.state)
        }
    }
}

/// Continues with the frames after an outcome, unless it halted.
pub open spec fn then_stack(o: Outcome, frames: Seq<FrameModel>) -> Outcome {
    if o.halt is Some {
        o
    } else {
        run_stack(frames, o.state)
    }
}

/// What the machine does to find the next statement.
pub enum Fetch {
    /// no frame has a statement left
    Done,
    /// the next statement, and the frames after it was taken
    Next(Statement, Seq<FrameModel>),
}

/// Takes the next statement index from the innermost frame alone: the
/// next one of the block, or the first one of the next pass of a loop;
/// `None` when that frame is finished, a loop with an empty body included.
pub open spec fn take_top(frames: Seq<FrameModel>) -> Option<(int, Seq<FrameModel>)> {
    if frames.len() == 0 {
        None
    } else {
        let f = frames.last();
        let n = frames.len() - 1;
        if 0 <= f.ip < f.stmts.len() {
            Some((f.ip, frames.update(n, FrameModel { kind: f.kind, stmts: f.stmts, ip: f.ip + 1 })))
        } else {
            match f.kind {
                FrameKind::Loop { remaining } => {
                    if remaining > 0 && f.stmts.len() > 0 {
                        Some(
                            (
                                0,
                                frames.update(
                                    n,
                                    FrameModel { kind: FrameKind::Loop { remaining: (remaining - 1) as usize }, stmts: f.stmts, ip: 1 },
                                ),
                            ),
                        )
                    } else {
                        None
                    }
                },
                FrameKind::Block => None,
            }
        }
    }
}

/// Takes the next statement from the innermost frame that has one,
/// dropping finished frames.
pub open spec fn fetch(frames: Seq<FrameModel>) -> Fetch
    decreases frames.len(),
{
    if frames.len() == 0 {
        Fetch::Done
    } else {
        match take_top(frames) {
            Some((i, rest)) => Fetch::Next(frames.last().stmts[i], rest),
            None => fetch(frames.drop_last()),
        }
    }
}

/// The frame that entering a loop statement pushes.
pub open spec fn loop_frame(s: Statement, st: RunState) -> FrameModel {
    match s.node {
        StatementKind::Loop { var, body } => FrameModel {
            kind: FrameKind::Loop { remaining: (loop_count(s, st) - 1) as usize },
            stmts: body@,
            ip: 0,
        },
        _ => FrameModel { kind: FrameKind::Block, stmts: Seq::empty(), ip: 0 },
    }
}

/// The frames after executing statement `s` with `simple_step`.
pub open spec fn frames_after(s: Statement, st: RunState, frames: Seq<FrameModel>) -> Seq<FrameModel> {
    if s.node is Loop && simple_step(s, st).halt is None && loop_count(s, st) > 0 {
        frames.push(loop_frame(s, st))
    } else {
        frames
    }
}

// ----------------------------------------------------------------------
// Lemmas
// ----------------------------------------------------------------------

/// Taking the next statement does not change what the frames do.
pub proof fn lemma_fetch(frames: Seq<FrameModel>, st: RunState)
    requires
        frames_wf(frames),
    ensures
        match fetch(frames) {
            Fetch::Done => run_stack(frames, st) == ok(st),
            Fetch::Next(s, rest) => frames_wf(rest) && run_stack(frames, st) == then_stack(exec_stmt(s, st), rest),
        },
    decreases frames.len(),
{
    if frames.len() > 0 {
        let f = frames.last();
        let n = frames.len() - 1;
        assert(frame_wf(frames[n]));
        if 0 <= f.ip < f.stmts.len() {
            let f2 = FrameModel { kind: f.kind, stmts: f.stmts, ip: f.ip + 1 };
            let rest = frames.update(n, f2);
            assert(rest.drop_last() =~= frames.drop_last());
            assert(rest.last() == f2);
            assert forall|i: int| 0 <= i < rest.len() implies #[trigger] frame_wf(rest[i]) by {
                if i != n {
                    assert(frame_wf(frames[i]));
                }
            }
            let o = exec_stmt(f.stmts[f.ip], st);
            assert(exec_block(f.stmts, f.ip, st) == (if o.halt is Some { o } else { exec_block(f.stmts, f.ip + 1, o.state) }));
            if o.halt is None {
                assert(run_frame(f, st) == run_frame(f2, o.state));
                assert(run_stack(rest, o.state) == (if run_frame(f2, o.state).halt is Some { run_frame(f2, o.state) } else { run_stack(frames.drop_last(), run_frame(f2, o.state).state) }));
            }
        } else {
            let rest = frames.drop_last();
            assert forall|i: int| 0 <= i < rest.len() implies #[trigger] frame_wf(rest[i]) by {
                assert(frame_wf(frames[i]));
            }
            match f.kind {
                FrameKind::Loop { remaining } => {
                    if remaining > 0 && f.stmts.len() > 0 {
                        let f2 = FrameModel { kind: FrameKind::Loop { remaining: (remaining - 1) as usize }, stmts: f.stmts, ip: 1 };
                        let rest2 = frames.update(n, f2);
                        assert(rest2.drop_last() =~= frames.drop_last());
                        assert(rest2.last() == f2);
                        assert forall|i: int| 0 <= i < rest2.len() implies #[trigger] frame_wf(rest2[i]) by {
                            if i != n {
                                assert(frame_wf(frames[i]));
                            }
                        }
                        assert(exec_block(f.stmts, f.ip, st) == ok(st));
                        let o = exec_stmt(f.stmts[0], st);
                        assert(exec_block(f.stmts, 0, st) == (if o.halt is Some { o } else { exec_block(f.stmts, 1, o.state) }));
                        assert(run_frame(f, st) == exec_loop(f.stmts, remaining as nat, st));
                        if o.halt is None {
                            assert(run_frame(f, st) == run_frame(f2, o.state));
                            assert(run_stack(rest2, o.state) == (if run_frame(f2, o.state).halt is Some { run_frame(f2, o.state) } else { run_stack(frames.drop_last(), run_frame(f2, o.state).state) }));
                        }
                    } else {
                        lemma_fetch(rest, st);
                    }
                },
                FrameKind::Block => {
                    lemma_fetch(rest, st);
                },
            }
        }
    }
}

/// The same state with `k` more statements counted.
pub open spec fn shift_st(st: RunState, k: nat) -> RunState {
    RunState { vars: st.vars, out: st.out, steps: st.steps + k }
}

/// The same outcome with `k` more statements counted.
pub open spec fn shift(o: Outcome, k: nat) -> Outcome {
    Outcome { state: shift_st(o.state, k), halt: o.halt }
}

/// Two outcomes that agree on everything but the count of statements.
pub open spec fn same_result(a: Outcome, b: Outcome) -> bool {
    &&& a.halt == b.halt
    &&& a.state.vars == b.state.vars
    &&& a.state.out == b.state.out
}

proof fn lemma_shift_stmt(s: Statement, st: RunState, k: nat)
    ensures
        exec_stmt(s, shift_st(st, k)) == shift(exec_stmt(s, st), k),
    decreases s, 0int,
{
    let o = simple_step(s, st);
    assert(simple_step(s, shift_st(st, k)) == shift(o, k));
    match s.node {
        StatementKind::Loop { var, body } => {
            if !(o.halt is Some || loop_count(s, st) == 0) {
                lemma_shift_block(body@, 0, o.state, k);
                let o2 = exec_block(body@, 0, o.state);
                if o2.halt is None {
                    lemma_shift_loop(body@, (loop_count(s, st) - 1) as nat, o2.state, k);
                }
            }
        },
        _ => {},
    }
}

proof fn lemma_shift_block(stmts: Seq<Statement>, i: int, st: RunState, k: nat)
    ensures
        exec_block(stmts, i, shift_st(st, k)) == shift(exec_block(stmts, i, st), k),
    decreases stmts, stmts.len() - i,
{
    if !(i < 0 || i >= stmts.len()) {
        lemma_shift_stmt(stmts[i], st, k);
        let o = exec_stmt(stmts[i], st);
        if o.halt is None {
            lemma_shift_block(stmts, i + 1, o.state, k);
        }
    }
}

proof fn lemma_shift_loop(body: Seq<Statement>, r: nat, st: RunState, k: nat)
    ensures
        exec_loop(body, r, shift_st(st, k)) == shift(exec_loop(body, r, st), k),
    decreases body, body.len() + r + 1,
{
    if r != 0 && body.len() != 0 {
        lemma_shift_block(body, 0, st, k);
        let o = exec_block(body, 0, st);
        if o.halt is None {
            lemma_shift_loop(body, (r - 1) as nat, o.state, k);
        }
    }
}

/// Counting `k` more statements before running the frames counts `k` more
/// after; nothing else changes.
pub proof fn lemma_shift_stack(frames: Seq<FrameModel>, st: RunState, k: nat)
    ensures
        run_stack(frames, shift_st(st, k)) == shift(run_stack(frames, st), k),
    decreases frames.len(),
{
    if frames.len() > 0 {
        let f = frames.last();
        lemma_shift_block(f.stmts, f.ip, st, k);
        let o = exec_block(f.stmts, f.ip, st);
        if o.halt is None {
            match f.kind {
                FrameKind::Loop { remaining } => lemma_shift_loop(f.stmts, remaining as nat, o.state, k),
                FrameKind::Block => {},
            }
        }
        let o2 = run_frame(f, st);
        if o2.halt is None {
            lemma_shift_stack(frames.drop_last(), o2.state, k);
        }
    }
}

/// After taking statement `s`, applying its simple effect and pushing the
/// frame of a loop it enters, the frames do what they did before.
pub proof fn lemma_step(frames: Seq<FrameModel>, st: RunState)
    requires
        frames_wf(frames),
        fetch(frames) is Next,
    ensures
        ({
            let s = fetch(frames)->Next_0;
            let rest = fetch(frames)->Next_1;
            let o = simple_step(s, st);
            &&& frames_wf(rest)
            &&& o.halt is Some ==> run_stack(frames, st) == o
            &&& o.halt is None ==> frames_wf(frames_after(s, st, rest))
            &&& o.halt is None ==> run_stack(frames, st) == run_stack(frames_after(s, st, rest), o.state)
        }),
{
    lemma_fetch(frames, st);
    let s = fetch(frames)->Next_0;
    let rest = fetch(frames)->Next_1;
    let o = simple_step(s, st);
    if o.halt is None {
        match s.node {
            StatementKind::Loop { var, body } => {
                if loop_count(s, st) > 0 {
                    let fa = rest.push(loop_frame(s, st));
                    assert(fa.drop_last() =~= rest);
                    assert(fa.last() == loop_frame(s, st));
                    assert forall|i: int| 0 <= i < fa.len() implies #[trigger] frame_wf(fa[i]) by {
                        if i < rest.len() {
                            assert(fa[i] == rest[i]);
                        }
                    }
                }
            },
            _ => {},
        }
    }
}

/// Whether a frame has no statement left to run: its instruction pointer
/// is past its statements, and it is a block, a loop with no pass left, or
/// a loop whose body is empty.
pub open spec fn exhausted(f: FrameModel) -> bool {
    &&& f.ip >= f.stmts.len()
    &&& match f.kind {
        FrameKind::Block => true,
        FrameKind::Loop { remaining } => remaining == 0 || f.stmts.len() == 0,
    }
}

/// The machine has nothing left to run exactly when every frame is
/// exhausted.
pub proof fn fetch_done_iff_exhausted(frames: Seq<FrameModel>)
    requires
        frames_wf(frames),
    ensures
        fetch(frames) is Done <==> forall|i: int| 0 <= i < frames.len() ==> #[trigger] exhausted(frames[i]),
    decreases frames.len(),
{
    if frames.len() > 0 {
        let rest = frames.drop_last();
        assert(frame_wf(frames[frames.len() - 1]));
        assert forall|i: int| 0 <= i < rest.len() implies #[trigger] frame_wf(rest[i]) by {
            assert(frame_wf(frames[i]));
        }
        fetch_done_iff_exhausted(rest);
        if take_top(frames) is None {
            assert(exhausted(frames[frames.len() - 1]));
            if forall|i: int| 0 <= i < rest.len() ==> #[trigger] exhausted(rest[i]) {
                assert forall|i: int| 0 <= i < frames.len() implies #[trigger] exhausted(frames[i]) by {
                    if i < rest.len() {
                        assert(exhausted(rest[i]));
                    }
                }
            }
            if forall|i: int| 0 <= i < frames.len() ==> #[trigger] exhausted(frames[i]) {
                assert forall|i: int| 0 <= i < rest.len() implies #[trigger] exhausted(rest[i]) by {
                    assert(exhausted(frames[i]));
                }
            }
        } else {
            assert(!exhausted(frames[frames.len() - 1]));
        }
    }
}

/// A finished innermost frame can be dropped.
pub proof fn lemma_pop(frames: Seq<FrameModel>, st: RunState)
    requires
        frames_wf(frames),
        frames.len() > 0,
        take_top(frames) is None,
    ensures
        fetch(frames) == fetch(frames.drop_last()),
        run_stack(frames, st) == run_stack(frames.drop_last(), st),
        frames_wf(frames.drop_last()),
{
    let f = frames.last();
    assert(frame_wf(frames[frames.len() - 1]));
    assert(exec_block(f.stmts, f.ip, st) == ok(st));
    assert forall|i: int| 0 <= i < frames.drop_last().len() implies #[trigger] frame_wf(frames.drop_last()[i]) by {
        assert(frame_wf(frames[i]));
    }
}

/// Whether the next step of the machine faults: the statement it takes
/// overflows.
pub open spec fn step_faults(frames: Seq<FrameModel>, st: RunState) -> bool {
    match fetch(frames) {
        Fetch::Done => false,
        Fetch::Next(s, rest) => faults(simple_step(s, st)),
    }
}

/// A step that faults makes the whole run fault.
pub proof fn lemma_step_faults(frames: Seq<FrameModel>, st: RunState)
    requires
        frames_wf(frames),
        step_faults(frames, st),
    ensures
        faults(run_stack(frames, st)),
{
    lemma_fetch(frames, st);
    if fetch(frames) is Next {
        lemma_step(frames, st);
    }
}

} // verus!
