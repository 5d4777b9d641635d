//! What the parser produces from a token sequence: the grammar of the
//! language read by recursive descent, with names resolved as they are
//! declared.
//!
//! PROGRAM        -> STATEMENT* EOF
//! STATEMENT      -> LET IDENT ("=" EXPRESSION)? END_OF_STATEMENT
//!                 | IDENT "=" EXPRESSION END_OF_STATEMENT
//!                 | LOOP IDENT DO STATEMENT* END
//!                 | PRINT IDENT END_OF_STATEMENT
//!                 | END_OF_STATEMENT
//! EXPRESSION     -> TERM (("+" | "-") TERM)*
//! TERM           -> NUMBER | IDENT
//! END_OF_STATEMENT -> ";" | "\n"
use vstd::prelude::*;
use vstd::string::StringSliceAdditionalSpecFns;

use crate::error::{parse_error_view, GlobalErrorView, ParseErrorView};
use crate::lexer::token::{Span, Token, TokenKind};
use crate::sem_parser::sem_parse_context::{declare, resolve, Bindings, Ident, IdentKind};
use crate::sem_parser::sem_parse_structure::{
    BinOpKind, Expr, ExprKind, Spanned, StatementKindModel, StatementModel,
};
use crate::sem_parser::sem_parser_helper_func::non_expected;
use crate::text::{sliceable, str_slice};

verus! {

/// Where the parser stands: the next token and the bindings so far.
pub struct ParseState {
    pub pos: int,
    pub ctx: Bindings,
}

/// The outcome of parsing a part: its value and where the parser then
/// stands; the error it reports and where the parser then stands; or
/// `Stuck` where the parser would read past the tokens or slice the input
/// off a character boundary.
pub enum Parsed<T> {
    Done(T, ParseState),
    Failed(GlobalErrorView, ParseState),
    Stuck,
}

pub open spec fn at(pos: int, ctx: Bindings) -> ParseState {
    ParseState { pos, ctx }
}

/// The byte length of the input.
pub open spec fn input_len(input: &str) -> usize {
    input.spec_bytes().len() as usize
}

/// The empty span at the end of the input.
pub open spec fn end_span(input: &str) -> Span {
    Span { start: input_len(input), end: input_len(input) }
}

/// The end of the token before `pos` (0 at the start).
pub open spec fn prev_end(tokens: Seq<Token>, pos: int) -> usize {
    if pos <= 0 {
        0
    } else {
        tokens[pos - 1].span.end
    }
}

/// Whether the span of a token can be sliced out of the input.
pub open spec fn lexeme_ok(input: &str, span: Span) -> bool {
    sliceable(input, span.start as int, span.end as int)
}

/// The bytes of the input that a span covers.
pub open spec fn lexeme_bytes(input: &str, span: Span) -> Seq<u8> {
    input.spec_bytes().subrange(span.start as int, span.end as int)
}

/// The characters of the input that a span covers.
pub open spec fn lexeme_chars(input: &str, span: Span) -> Seq<char> {
    str_slice(input, span.start as int, span.end as int)
}

/// Resolves the identifier token `t`.
pub open spec fn resolve_token(input: &str, ctx: Bindings, t: Token) -> Parsed<Ident> {
    if !lexeme_ok(input, t.span) {
        Parsed::Stuck
    } else {
        match resolve(ctx, lexeme_bytes(input, t.span), lexeme_chars(input, t.span), t.span) {
            Ok(ident) => Parsed::Done(ident, at(0, ctx)),
            Err(e) => Parsed::Failed(e, at(0, ctx)),
        }
    }
}

/// Reads a token of the given kind (any number for a number).
pub open spec fn expect_spec(tokens: Seq<Token>, pos: int, kind: TokenKind) -> Parsed<Token> {
    if pos < 0 || pos >= tokens.len() {
        Parsed::Stuck
    } else {
        let t = tokens[pos];
        if t.kind == kind || (t.kind is Number && kind is Number) {
            Parsed::Done(t, at(pos + 1, Seq::empty()))
        } else {
            Parsed::Failed(non_expected(t.kind, seq![kind], t.span), at(pos, Seq::empty()))
        }
    }
}

/// Reads a number or a declared identifier.
pub open spec fn non_operand_spec(tokens: Seq<Token>, input: &str, pos: int, ctx: Bindings) -> Parsed<Expr> {
    if pos < 0 || pos >= tokens.len() {
        Parsed::Stuck
    } else {
        let t = tokens[pos];
        match t.kind {
            TokenKind::Ident => match resolve_token(input, ctx, t) {
                Parsed::Done(ident, _) => Parsed::Done(Spanned { node: ExprKind::Ident(ident), span: t.span }, at(pos + 1, ctx)),
                Parsed::Failed(e, _) => Parsed::Failed(e, at(pos, ctx)),
                Parsed::Stuck => Parsed::Stuck,
            },
            TokenKind::Number(n) => Parsed::Done(Spanned { node: ExprKind::Number(n), span: t.span }, at(pos + 1, ctx)),
            _ => Parsed::Failed(non_expected(t.kind, seq![TokenKind::Ident, TokenKind::Number(0)], t.span), at(pos, ctx)),
        }
    }
}

/// Reads `(("+" | "-") TERM)*` after the expression `left`, folding to the left.
pub open spec fn expr_rest_spec(tokens: Seq<Token>, input: &str, pos: int, ctx: Bindings, left: Expr) -> Parsed<Expr>
    decreases tokens.len() - pos,
{
    if pos < 0 || pos >= tokens.len() {
        Parsed::Done(left, at(pos, ctx))
    } else {
        let t = tokens[pos];
        if !(t.kind is Plus || t.kind is Minus) {
            Parsed::Done(left, at(pos, ctx))
        } else {
            let op = if t.kind is Plus { BinOpKind::Add } else { BinOpKind::Sub };
            match non_operand_spec(tokens, input, pos + 1, ctx) {
                Parsed::Done(right, _) => expr_rest_spec(
                    tokens,
                    input,
                    pos + 2,
                    ctx,
                    Spanned {
                        node: ExprKind::Binary { left: Box::new(left), op: Spanned { node: op, span: t.span }, right: Box::new(right) },
                        span: Span { start: left.span.start, end: right.span.end },
                    },
                ),
                Parsed::Failed(e, st) => Parsed::Failed(e, st),
                Parsed::Stuck => Parsed::Stuck,
            }
        }
    }
}

/// Reads an expression.
pub open spec fn expr_spec(tokens: Seq<Token>, input: &str, pos: int, ctx: Bindings) -> Parsed<Expr> {
    match non_operand_spec(tokens, input, pos, ctx) {
        Parsed::Done(e, _) => expr_rest_spec(tokens, input, pos + 1, ctx, e),
        Parsed::Failed(e, st) => Parsed::Failed(e, st),
        Parsed::Stuck => Parsed::Stuck,
    }
}

/// Reads the `;` or newline that ends a statement.
pub open spec fn statement_end_spec(tokens: Seq<Token>, pos: int) -> Parsed<()> {
    if pos < 0 || pos >= tokens.len() {
        Parsed::Stuck
    } else {
        let t = tokens[pos];
        if t.kind is Semicolon || t.kind is Newline {
            Parsed::Done((), at(pos + 1, Seq::empty()))
        } else {
            Parsed::Failed(non_expected(t.kind, seq![TokenKind::Semicolon, TokenKind::Newline], t.span), at(pos + 1, Seq::empty()))
        }
    }
}

/// Reads an identifier that must be declared already.
pub open spec fn ident_spec(tokens: Seq<Token>, input: &str, pos: int, ctx: Bindings) -> Parsed<Ident> {
    if pos < 0 || pos >= tokens.len() {
        Parsed::Stuck
    } else {
        let t = tokens[pos];
        if t.kind is Ident {
            match resolve_token(input, ctx, t) {
                Parsed::Done(ident, _) => Parsed::Done(ident, at(pos + 1, ctx)),
                Parsed::Failed(e, _) => Parsed::Failed(e, at(pos + 1, ctx)),
                Parsed::Stuck => Parsed::Stuck,
            }
        } else {
            Parsed::Failed(non_expected(t.kind, seq![TokenKind::Ident], t.span), at(pos, ctx))
        }
    }
}

/// Reads `let x;` or `let x = EXPRESSION;` from the token after `let`
/// (at `pos`), declaring `x` before its value is read.
pub open spec fn let_spec(tokens: Seq<Token>, input: &str, pos: int, ctx: Bindings, let_span: Span) -> Parsed<StatementModel> {
    match expect_spec(tokens, pos + 1, TokenKind::Ident) {
        Parsed::Done(tok, _) => {
            if !lexeme_ok(input, tok.span) {
                Parsed::Stuck
            } else {
                match declare(
                    ctx,
                    lexeme_bytes(input, tok.span),
                    lexeme_chars(input, tok.span),
                    IdentKind::Variable,
                    Span { start: let_span.start, end: tok.span.end },
                ) {
                    Err(e) => Parsed::Failed(e, at(pos + 2, ctx)),
                    Ok((ident, ctx2)) => {
                        if pos + 2 >= tokens.len() {
                            Parsed::Stuck
                        } else {
                            let t = tokens[pos + 2];
                            if t.kind is Semicolon || t.kind is Newline {
                                Parsed::Done(
                                    Spanned { node: StatementKindModel::Let { name: ident, value: None }, span: Span { start: let_span.start, end: t.span.end } },
                                    at(pos + 3, ctx2),
                                )
                            } else if t.kind is Equal {
                                match expr_spec(tokens, input, pos + 3, ctx2) {
                                    Parsed::Done(e, st) => match statement_end_spec(tokens, st.pos) {
                                        Parsed::Done(_, _) => Parsed::Done(
                                            Spanned {
                                                node: StatementKindModel::Let { name: ident, value: Some(e) },
                                                span: Span { start: let_span.start, end: prev_end(tokens, st.pos + 1) },
                                            },
                                            at(st.pos + 1, ctx2),
                                        ),
                                        Parsed::Failed(e, _) => Parsed::Failed(e, at(st.pos + 1, ctx2)),
                                        Parsed::Stuck => Parsed::Stuck,
                                    },
                                    Parsed::Failed(e, st) => Parsed::Failed(e, st),
                                    Parsed::Stuck => Parsed::Stuck,
                                }
                            } else {
                                Parsed::Failed(non_expected(t.kind, seq![TokenKind::Semicolon, TokenKind::Newline, TokenKind::Equal], t.span), at(pos + 2, ctx2))
                            }
                        }
                    },
                }
            }
        },
        Parsed::Failed(e, _) => Parsed::Failed(e, at(pos + 1, ctx)),
        Parsed::Stuck => Parsed::Stuck,
    }
}

/// The kinds a loop body may continue with.
pub open spec fn body_expected() -> Seq<TokenKind> {
    seq![TokenKind::Let, TokenKind::Loop, TokenKind::End, TokenKind::Ident, TokenKind::Print]
}

/// Reads the statements of a loop body up to its `END`, after `acc`.
pub open spec fn body_spec(tokens: Seq<Token>, input: &str, pos: int, ctx: Bindings, acc: Seq<StatementModel>) -> Parsed<Seq<StatementModel>>
    decreases tokens.len() - pos, 2int,
{
    if pos < 0 || pos >= tokens.len() {
        Parsed::Failed(parse_error_view(ParseErrorView::UnexpectedEOF(body_expected()), end_span(input)), at(pos, ctx))
    } else if tokens[pos].kind is End {
        Parsed::Done(acc, at(pos + 1, ctx))
    } else {
        match statement_spec(tokens, input, pos, ctx) {
            Parsed::Done(s, st) => if pos < st.pos <= tokens.len() {
                body_spec(tokens, input, st.pos, st.ctx, acc.push(s))
            } else {
                Parsed::Stuck
            },
            Parsed::Failed(e, st) => Parsed::Failed(e, st),
            Parsed::Stuck => Parsed::Stuck,
        }
    }
}

/// Reads `LOOP x DO STATEMENT* END` from its `LOOP` token at `pos`.
pub open spec fn loop_spec(tokens: Seq<Token>, input: &str, pos: int, ctx: Bindings) -> Parsed<StatementModel>
    decreases tokens.len() - pos, 0int,
{
    if pos < 0 || pos >= tokens.len() {
        Parsed::Stuck
    } else {
        let loop_span = tokens[pos].span;
        match ident_spec(tokens, input, pos + 1, ctx) {
            Parsed::Done(ident, _) => {
                if pos + 2 >= tokens.len() {
                    Parsed::Stuck
                } else if !(tokens[pos + 2].kind is Do) {
                    Parsed::Failed(non_expected(tokens[pos + 2].kind, seq![TokenKind::Do], tokens[pos + 2].span), at(pos + 3, ctx))
                } else {
                    match body_spec(tokens, input, pos + 3, ctx, Seq::empty()) {
                        Parsed::Done(body, st) => Parsed::Done(
                            Spanned { node: StatementKindModel::Loop { var: ident, body }, span: Span { start: loop_span.start, end: prev_end(tokens, st.pos) } },
                            st,
                        ),
                        Parsed::Failed(e, st) => Parsed::Failed(e, st),
                        Parsed::Stuck => Parsed::Stuck,
                    }
                }
            },
            Parsed::Failed(e, st) => Parsed::Failed(e, st),
            Parsed::Stuck => Parsed::Stuck,
        }
    }
}

/// Reads one statement, deciding by its first token.
pub open spec fn statement_spec(tokens: Seq<Token>, input: &str, pos: int, ctx: Bindings) -> Parsed<StatementModel>
    decreases tokens.len() - pos, 1int,
{
    if pos < 0 || pos >= tokens.len() {
        Parsed::Stuck
    } else {
        let t = tokens[pos];
        let span = t.span;
        match t.kind {
            TokenKind::Let => let_spec(tokens, input, pos, ctx, span),
            TokenKind::Equal | TokenKind::Plus | TokenKind::Minus | TokenKind::Do | TokenKind::End | TokenKind::Number(_) =>
                Parsed::Failed(non_expected(t.kind, seq![TokenKind::Let, TokenKind::Loop, TokenKind::Print, TokenKind::Ident], span), at(pos, ctx)),
            TokenKind::EOF => Parsed::Failed(parse_error_view(ParseErrorView::UnexpectedEnd, end_span(input)), at(pos, ctx)),
            TokenKind::Newline | TokenKind::Semicolon => Parsed::Done(Spanned { node: StatementKindModel::Empty, span }, at(pos + 1, ctx)),
            TokenKind::Loop => loop_spec(tokens, input, pos, ctx),
            TokenKind::Print => match ident_spec(tokens, input, pos + 1, ctx) {
                Parsed::Done(ident, _) => match statement_end_spec(tokens, pos + 2) {
                    Parsed::Done(_, _) => Parsed::Done(
                        Spanned { node: StatementKindModel::Print { name: ident }, span: Span { start: span.start, end: prev_end(tokens, pos + 3) } },
                        at(pos + 3, ctx),
                    ),
                    Parsed::Failed(e, _) => Parsed::Failed(e, at(pos + 3, ctx)),
                    Parsed::Stuck => Parsed::Stuck,
                },
                Parsed::Failed(e, st) => Parsed::Failed(e, st),
                Parsed::Stuck => Parsed::Stuck,
            },
            TokenKind::Ident => match ident_spec(tokens, input, pos, ctx) {
                Parsed::Done(ident, _) => match expect_spec(tokens, pos + 1, TokenKind::Equal) {
                    Parsed::Done(_, _) => match expr_spec(tokens, input, pos + 2, ctx) {
                        Parsed::Done(e, st) => match statement_end_spec(tokens, st.pos) {
                            Parsed::Done(_, _) => Parsed::Done(
                                Spanned {
                                    node: StatementKindModel::Assign { name: ident, value: e },
                                    span: Span { start: span.start, end: prev_end(tokens, st.pos + 1) },
                                },
                                at(st.pos + 1, ctx),
                            ),
                            Parsed::Failed(e, _) => Parsed::Failed(e, at(st.pos + 1, ctx)),
                            Parsed::Stuck => Parsed::Stuck,
                        },
                        Parsed::Failed(e, st) => Parsed::Failed(e, st),
                        Parsed::Stuck => Parsed::Stuck,
                    },
                    Parsed::Failed(e, _) => Parsed::Failed(e, at(pos + 1, ctx)),
                    Parsed::Stuck => Parsed::Stuck,
                },
                Parsed::Failed(e, st) => Parsed::Failed(e, st),
                Parsed::Stuck => Parsed::Stuck,
            },
        }
    }
}

/// Reads statements up to the first `EOF` token, after `acc`.
pub open spec fn program_spec(tokens: Seq<Token>, input: &str, pos: int, ctx: Bindings, acc: Seq<StatementModel>) -> Parsed<Seq<StatementModel>>
    decreases tokens.len() - pos,
{
    if pos < 0 || pos >= tokens.len() {
        Parsed::Stuck
    } else if tokens[pos].kind is EOF {
        Parsed::Done(acc, at(pos, ctx))
    } else {
        match statement_spec(tokens, input, pos, ctx) {
            Parsed::Done(s, st) => if pos < st.pos <= tokens.len() {
                program_spec(tokens, input, st.pos, st.ctx, acc.push(s))
            } else {
                Parsed::Stuck
            },
            Parsed::Failed(e, st) => Parsed::Failed(e, st),
            Parsed::Stuck => Parsed::Stuck,
        }
    }
}

/// What parsing a whole token sequence gives: the statements of the
/// program, or the first error.
pub open spec fn parse_spec(tokens: Seq<Token>, input: &str) -> Parsed<Seq<StatementModel>> {
    program_spec(tokens, input, 0, Seq::empty(), Seq::empty())
}

/// A loop body read to its end stops right after its `END` token.
pub proof fn body_ends_at_its_end(tokens: Seq<Token>, input: &str, pos: int, ctx: Bindings, acc: Seq<StatementModel>)
    requires
        0 <= pos,
    ensures
        body_spec(tokens, input, pos, ctx, acc) matches Parsed::Done(_, st) ==> pos < st.pos && tokens[st.pos - 1].kind is End,
    decreases tokens.len() - pos,
{
    if 0 <= pos < tokens.len() && !(tokens[pos].kind is End) {
        if let Parsed::Done(s, st) = statement_spec(tokens, input, pos, ctx) {
            if pos < st.pos <= tokens.len() {
                body_ends_at_its_end(tokens, input, st.pos, st.ctx, acc.push(s));
            }
        }
    }
}

/// A loop statement read from its `LOOP` token runs to the `END` that
/// closes it (nested loops close inside its body), and its span runs from
/// the start of `LOOP` to the end of that `END`.
pub proof fn loop_spans_to_its_end(tokens: Seq<Token>, input: &str, pos: int, ctx: Bindings)
    requires
        0 <= pos,
    ensures
        loop_spec(tokens, input, pos, ctx) matches Parsed::Done(m, st) ==> {
            &&& pos < st.pos
            &&& tokens[st.pos - 1].kind is End
            &&& m.span == (Span { start: tokens[pos].span.start, end: tokens[st.pos - 1].span.end })
        },
{
    body_ends_at_its_end(tokens, input, pos + 3, ctx, Seq::empty());
}

proof fn lemma_expr_rest_forward(tokens: Seq<Token>, input: &str, pos: int, ctx: Bindings, left: Expr)
    ensures
        expr_rest_spec(tokens, input, pos, ctx, left) matches Parsed::Done(_, st) ==> st.pos >= pos,
    decreases tokens.len() - pos,
{
    if 0 <= pos < tokens.len() {
        let t = tokens[pos];
        if t.kind is Plus || t.kind is Minus {
            if let Parsed::Done(right, _) = non_operand_spec(tokens, input, pos + 1, ctx) {
                let op = if t.kind is Plus { BinOpKind::Add } else { BinOpKind::Sub };
                let folded = Spanned {
                    node: ExprKind::Binary { left: Box::new(left), op: Spanned { node: op, span: t.span }, right: Box::new(right) },
                    span: Span { start: left.span.start, end: right.span.end },
                };
                lemma_expr_rest_forward(tokens, input, pos + 2, ctx, folded);
            }
        }
    }
}

proof fn lemma_expr_forward(tokens: Seq<Token>, input: &str, pos: int, ctx: Bindings)
    ensures
        expr_spec(tokens, input, pos, ctx) matches Parsed::Done(_, st) ==> st.pos > pos,
{
    if let Parsed::Done(e, _) = non_operand_spec(tokens, input, pos, ctx) {
        lemma_expr_rest_forward(tokens, input, pos + 1, ctx, e);
    }
}

/// A statement's span runs from the start of its first token to the end
/// of the last token it reads.
pub proof fn statement_spans_its_tokens(tokens: Seq<Token>, input: &str, pos: int, ctx: Bindings)
    requires
        0 <= pos,
    ensures
        statement_spec(tokens, input, pos, ctx) matches Parsed::Done(m, st) ==> {
            &&& pos < st.pos
            &&& m.span == (Span { start: tokens[pos].span.start, end: tokens[st.pos - 1].span.end })
        },
{
    if pos < tokens.len() {
        let t = tokens[pos];
        match t.kind {
            TokenKind::Loop => loop_spans_to_its_end(tokens, input, pos, ctx),
            TokenKind::Let => {
                if let Parsed::Done(tok, _) = expect_spec(tokens, pos + 1, TokenKind::Ident) {
                    if let Ok((_, ctx2)) = declare(
                        ctx,
                        lexeme_bytes(input, tok.span),
                        lexeme_chars(input, tok.span),
                        IdentKind::Variable,
                        Span { start: t.span.start, end: tok.span.end },
                    ) {
                        lemma_expr_forward(tokens, input, pos + 3, ctx2);
                    }
                }
            },
            TokenKind::Ident => {
                lemma_expr_forward(tokens, input, pos + 2, ctx);
            },
            _ => {},
        }
    }
}

/// Whether the result of a parsing function is what `p` says, the parser
/// then standing at `pos` with bindings `ctx`, on success and on error.
pub open spec fn matches_parsed<T>(p: Parsed<T>, r: Result<T, crate::error::GlobalError>, pos: int, ctx: Bindings) -> bool {
    match p {
        Parsed::Done(v, st) => r == Ok::<T, crate::error::GlobalError>(v) && pos == st.pos && ctx == st.ctx,
        Parsed::Failed(e, st) => r is Err && r->Err_0@ == e && pos == st.pos && ctx == st.ctx,
        Parsed::Stuck => false,
    }
}

/// As `matches_parsed`, where the part read changes no bindings.
pub open spec fn matches_parsed_at<T>(p: Parsed<T>, r: Result<T, crate::error::GlobalError>, pos: int) -> bool {
    match p {
        Parsed::Done(v, st) => r == Ok::<T, crate::error::GlobalError>(v) && pos == st.pos,
        Parsed::Failed(e, st) => r is Err && r->Err_0@ == e && pos == st.pos,
        Parsed::Stuck => false,
    }
}

/// Whether the statement `r` parsed is what `p` says, the parser then
/// standing at `pos` with bindings `ctx`.
pub open spec fn matches_statement(
    p: Parsed<StatementModel>,
    r: Result<crate::sem_parser::sem_parse_structure::Statement, crate::error::GlobalError>,
    pos: int,
    ctx: Bindings,
) -> bool {
    match p {
        Parsed::Done(m, st) => r is Ok && crate::sem_parser::sem_parse_structure::stmt_model(r->Ok_0) == m && pos == st.pos && ctx == st.ctx,
        Parsed::Failed(e, st) => r is Err && r->Err_0@ == e && pos == st.pos && ctx == st.ctx,
        Parsed::Stuck => false,
    }
}

} // verus!
