//! defining the grammatical structure for the parsing process
use vstd::prelude::*;

use vstd::string::StringSliceAdditionalSpecFns;

use super::sem_parse_context::Ident;
use crate::lexer::token::Span;
use crate::text::{slice_str, sliceable, str_slice};

verus! {

/// struct for a whole program
/// at the moment only consists of Statements
#[derive(Debug, PartialEq)]
pub struct Program {
    pub statements: Vec<Statement>,
}

impl Program {
    pub fn new() -> (r: Self)
        ensures
            r.statements@.len() == 0,
    {
        Program { statements: Vec::new() }
    }
}

/// Provides the span context for a generic type T
/// Used for Parsed Types
#[derive(Debug, PartialEq)]
pub struct Spanned<T> {
    pub node: T,
    pub span: Span,
}

impl<T> Spanned<T> {
    pub fn new(node: T, span: Span) -> (r: Self)
        ensures
            r.node == node,
            r.span == span,
    {
        Self { node, span }
    }

    /// The text of the input the element was parsed from.
    pub fn lexeme<'a>(&self, input_str: &'a str) -> (r: &'a str)
        requires
            sliceable(input_str, self.span.start as int, self.span.end as int),
        ensures
            r@ == str_slice(input_str, self.span.start as int, self.span.end as int),
    {
        let r = slice_str(input_str, self.span.start, self.span.end);
        proof {
            vstd::utf8::encode_utf8_decode_utf8(r@);
        }
        r
    }
}

/// Whether the text of a span can be sliced out of the input.
pub open spec fn span_ok(input: &str, span: Span) -> bool {
    sliceable(input, span.start as int, span.end as int)
}

/// The text of the input a span covers.
pub open spec fn span_text(input: &str, span: Span) -> Seq<char> {
    str_slice(input, span.start as int, span.end as int)
}

/// Whether the texts `pretty_print` shows of a statement can be sliced out
/// of the input.
pub open spec fn pretty_ok(s: Statement, input: &str) -> bool {
    match s.node {
        StatementKind::Let { name, value } => span_ok(input, name.span) && (value matches Some(v) ==> span_ok(input, v.span)),
        StatementKind::Assign { name, value } => span_ok(input, name.span) && span_ok(input, value.span),
        StatementKind::Loop { var, body } => span_ok(input, var.span),
        StatementKind::Print { name } => span_ok(input, name.span),
        StatementKind::Empty => true,
    }
}

/// The one line summary of a statement.
pub open spec fn pretty_text(s: Statement, input: &str) -> Seq<char> {
    match s.node {
        StatementKind::Let { name, value } => match value {
            Some(v) => "Let "@ + span_text(input, name.span) + " = "@ + span_text(input, v.span),
            None => "Let "@ + span_text(input, name.span),
        },
        StatementKind::Assign { name, value } => "Assign "@ + span_text(input, name.span) + " = "@ + span_text(input, value.span),
        StatementKind::Loop { var, body } => "Loop over "@ + span_text(input, var.span),
        StatementKind::Print { name } => "Print "@ + span_text(input, name.span),
        StatementKind::Empty => "Empty"@,
    }
}

impl Spanned<StatementKind> {
    /// A one line summary of the statement, naming its variable and
    /// showing its expression as written.
    pub fn pretty_print(&self, input_str: &str) -> (r: String)
        requires
            pretty_ok(*self, input_str),
        ensures
            r@ == pretty_text(*self, input_str),
    {
        let mut s = String::new();
        match &self.node {
            StatementKind::Let { name, value } => match value {
                Some(val) => {
                    s.append("Let ");
                    s.append(name.lexeme(input_str));
                    s.append(" = ");
                    s.append(val.lexeme(input_str));
                },
                None => {
                    s.append("Let ");
                    s.append(name.lexeme(input_str));
                },
            },
            StatementKind::Assign { name, value } => {
                s.append("Assign ");
                s.append(name.lexeme(input_str));
                s.append(" = ");
                s.append(value.lexeme(input_str));
            },
            StatementKind::Loop { var, body: _ } => {
                s.append("Loop over ");
                s.append(var.lexeme(input_str));
            },
            StatementKind::Print { name } => {
                s.append("Print ");
                s.append(name.lexeme(input_str));
            },
            StatementKind::Empty => s.append("Empty"),
        }
        s
    }
}

pub type Statement = Spanned<StatementKind>;

pub type Expr = Spanned<ExprKind>;

pub type BinOp = Spanned<BinOpKind>;

/// Statement types that can be used in this grammar
#[derive(Debug, PartialEq)]
pub enum StatementKind {
    Let { name: Ident, value: Option<Expr> },
    Assign { name: Ident, value: Expr },
    Loop { var: Ident, body: Vec<Statement> },
    Print { name: Ident },
    Empty,
}

/// Expression of this grammar
#[derive(Debug, PartialEq)]
pub enum ExprKind {
    Number(usize),
    Ident(Ident),
    Binary { left: Box<Expr>, op: BinOp, right: Box<Expr> },
}

/// Binary Operator
#[derive(Debug, Clone, Copy, PartialEq, Eq, Structural)]
pub enum BinOpKind {
    Add,
    Sub,
}

/// A statement as a mathematical value: a loop holds its body as a sequence.
pub enum StatementKindModel {
    Let { name: Ident, value: Option<Expr> },
    Assign { name: Ident, value: Expr },
    Loop { var: Ident, body: Seq<StatementModel> },
    Print { name: Ident },
    Empty,
}

pub type StatementModel = Spanned<StatementKindModel>;

/// The model of a statement.
pub open spec fn stmt_model(s: Statement) -> StatementModel
    decreases s,
{
    Spanned {
        node: match s.node {
            StatementKind::Let { name, value } => StatementKindModel::Let { name, value },
            StatementKind::Assign { name, value } => StatementKindModel::Assign { name, value },
            StatementKind::Loop { var, body } => StatementKindModel::Loop { var, body: stmts_model(body@) },
            StatementKind::Print { name } => StatementKindModel::Print { name },
            StatementKind::Empty => StatementKindModel::Empty,
        },
        span: s.span,
    }
}

/// The models of a sequence of statements.
pub open spec fn stmts_model(ss: Seq<Statement>) -> Seq<StatementModel>
    decreases ss,
{
    if ss.len() == 0 {
        Seq::empty()
    } else {
        stmts_model(ss.drop_last()).push(stmt_model(ss.last()))
    }
}

/// Whether a span is an ordered range of the first `n` bytes.
pub open spec fn within(span: Span, n: int) -> bool {
    span.start <= span.end <= n
}

/// Whether the identifiers an expression reads were declared within the
/// first `n` bytes.
pub open spec fn expr_within(e: Expr, n: int) -> bool
    decreases e,
{
    match e.node {
        ExprKind::Number(_) => true,
        ExprKind::Ident(id) => within(id.span, n),
        ExprKind::Binary { left, op, right } => expr_within(*left, n) && expr_within(*right, n),
    }
}

/// Whether a statement, the identifiers it names and the statements it
/// holds all lie within the first `n` bytes.
pub open spec fn model_within(m: StatementModel, n: int) -> bool
    decreases m,
{
    &&& within(m.span, n)
    &&& match m.node {
        StatementKindModel::Let { name, value } => within(name.span, n) && (value matches Some(v) ==> expr_within(v, n)),
        StatementKindModel::Assign { name, value } => within(name.span, n) && expr_within(value, n),
        StatementKindModel::Loop { var, body } => within(var.span, n) && models_within(body, n),
        StatementKindModel::Print { name } => within(name.span, n),
        StatementKindModel::Empty => true,
    }
}

/// Whether all the statements lie within the first `n` bytes.
pub open spec fn models_within(ms: Seq<StatementModel>, n: int) -> bool
    decreases ms,
{
    if ms.len() == 0 {
        true
    } else {
        models_within(ms.drop_last(), n) && model_within(ms.last(), n)
    }
}

/// `models_within` says it of each statement.
pub proof fn lemma_models_within(ms: Seq<StatementModel>, n: int)
    ensures
        models_within(ms, n) <==> forall|i: int| 0 <= i < ms.len() ==> #[trigger] model_within(ms[i], n),
    decreases ms.len(),
{
    if ms.len() > 0 {
        let d = ms.drop_last();
        lemma_models_within(d, n);
        if models_within(ms, n) {
            assert forall|i: int| 0 <= i < ms.len() implies #[trigger] model_within(ms[i], n) by {
                if i < ms.len() - 1 {
                    assert(d[i] == ms[i]);
                    assert(model_within(d[i], n));
                }
            }
        }
        if forall|i: int| 0 <= i < ms.len() ==> #[trigger] model_within(ms[i], n) {
            assert forall|i: int| 0 <= i < d.len() implies #[trigger] model_within(d[i], n) by {
                assert(d[i] == ms[i]);
                assert(model_within(ms[i], n));
            }
            assert(model_within(ms[ms.len() - 1], n));
        }
    }
}

/// Whether every identifier an expression reads was declared before the
/// place where it is read.
pub open spec fn expr_reads_declared(e: Expr) -> bool
    decreases e,
{
    match e.node {
        ExprKind::Number(_) => true,
        ExprKind::Ident(id) => id.span.end <= e.span.start,
        ExprKind::Binary { left, op, right } => expr_reads_declared(*left) && expr_reads_declared(*right),
    }
}

/// Whether every variable a statement uses, and every variable the
/// statements it holds use, was declared before the place where it is
/// used.
pub open spec fn model_uses_declared(m: StatementModel) -> bool
    decreases m,
{
    match m.node {
        StatementKindModel::Let { name, value } => value matches Some(v) ==> expr_reads_declared(v),
        StatementKindModel::Assign { name, value } => name.span.end <= m.span.start && expr_reads_declared(value),
        StatementKindModel::Loop { var, body } => var.span.end <= m.span.start && models_use_declared(body),
        StatementKindModel::Print { name } => name.span.end <= m.span.start,
        StatementKindModel::Empty => true,
    }
}

/// Whether every statement uses only variables declared before.
pub open spec fn models_use_declared(ms: Seq<StatementModel>) -> bool
    decreases ms,
{
    if ms.len() == 0 {
        true
    } else {
        models_use_declared(ms.drop_last()) && model_uses_declared(ms.last())
    }
}

/// `stmts_model` keeps the length and models each statement.
pub proof fn lemma_stmts_model(ss: Seq<Statement>)
    ensures
        stmts_model(ss).len() == ss.len(),
        forall|i: int| 0 <= i < ss.len() ==> #[trigger] stmts_model(ss)[i] == stmt_model(ss[i]),
    decreases ss.len(),
{
    if ss.len() > 0 {
        lemma_stmts_model(ss.drop_last());
        assert forall|i: int| 0 <= i < ss.len() implies #[trigger] stmts_model(ss)[i] == stmt_model(ss[i]) by {
            if i < ss.len() - 1 {
                assert(ss.drop_last()[i] == ss[i]);
            }
        }
    }
}

/// Models of sequences that agree elementwise are equal.
pub proof fn lemma_stmts_model_push(ss: Seq<Statement>, s: Statement)
    ensures
        stmts_model(ss.push(s)) == stmts_model(ss).push(stmt_model(s)),
{
    assert(ss.push(s).drop_last() =~= ss);
}

} // verus!
