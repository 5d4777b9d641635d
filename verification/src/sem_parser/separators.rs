//! The two statement separators of the grammar, `;` and a newline, are
//! interchangeable: swapping one for the other anywhere in a token
//! sequence that parses leaves what is parsed unchanged.
use vstd::prelude::*;

use crate::lexer::token::{Span, Token, TokenKind};
use crate::sem_parser::grammar::{
    body_spec, expect_spec, expr_rest_spec, expr_spec, ident_spec, let_spec, loop_spec, non_operand_spec, parse_spec,
    prev_end, program_spec, statement_end_spec, statement_spec, Parsed,
};
use crate::sem_parser::sem_parse_context::Bindings;
use crate::sem_parser::sem_parse_structure::{BinOpKind, Expr, ExprKind, Spanned, StatementModel};

verus! {

/// Whether a token kind separates statements.
pub open spec fn is_separator(k: TokenKind) -> bool {
    k is Semicolon || k is Newline
}

/// Whether `b` is `a` with some separators swapped for separators at the
/// same spans.
pub open spec fn separators_swapped(a: Seq<Token>, b: Seq<Token>) -> bool {
    &&& a.len() == b.len()
    &&& forall|i: int| 0 <= i < a.len() ==> (#[trigger] a[i] == b[i]) || (is_separator(a[i].kind) && is_separator(b[i].kind) && a[i].span == b[i].span)
}

proof fn lemma_same_spans(a: Seq<Token>, b: Seq<Token>, k: int)
    requires
        separators_swapped(a, b),
    ensures
        k <= a.len() ==> prev_end(a, k) == prev_end(b, k),
        0 <= k < a.len() ==> a[k].span == b[k].span,
        0 <= k < a.len() && !is_separator(a[k].kind) ==> a[k] == b[k],
{
    if 0 < k <= a.len() {
        assert(a[k - 1] == b[k - 1] || a[k - 1].span == b[k - 1].span);
    }
    if 0 <= k < a.len() {
        assert(a[k] == b[k] || a[k].span == b[k].span);
    }
}

proof fn lemma_expect_swap(a: Seq<Token>, b: Seq<Token>, pos: int, kind: TokenKind)
    requires
        separators_swapped(a, b),
        !is_separator(kind),
    ensures
        expect_spec(a, pos, kind) is Done ==> expect_spec(b, pos, kind) == expect_spec(a, pos, kind),
{
    lemma_same_spans(a, b, pos);
}

proof fn lemma_end_swap(a: Seq<Token>, b: Seq<Token>, pos: int)
    requires
        separators_swapped(a, b),
    ensures
        statement_end_spec(a, pos) is Done ==> statement_end_spec(b, pos) == statement_end_spec(a, pos),
{
    lemma_same_spans(a, b, pos);
}

proof fn lemma_ident_swap(a: Seq<Token>, b: Seq<Token>, input: &str, pos: int, ctx: Bindings)
    requires
        separators_swapped(a, b),
    ensures
        ident_spec(a, input, pos, ctx) is Done ==> ident_spec(b, input, pos, ctx) == ident_spec(a, input, pos, ctx),
        non_operand_spec(a, input, pos, ctx) is Done ==> non_operand_spec(b, input, pos, ctx) == non_operand_spec(a, input, pos, ctx),
{
    lemma_same_spans(a, b, pos);
}

proof fn lemma_expr_rest_swap(a: Seq<Token>, b: Seq<Token>, input: &str, pos: int, ctx: Bindings, left: Expr)
    requires
        separators_swapped(a, b),
    ensures
        expr_rest_spec(a, input, pos, ctx, left) is Done ==> expr_rest_spec(b, input, pos, ctx, left) == expr_rest_spec(a, input, pos, ctx, left),
    decreases a.len() - pos,
{
    lemma_same_spans(a, b, pos);
    if 0 <= pos < a.len() {
        let t = a[pos];
        if t.kind is Plus || t.kind is Minus {
            lemma_ident_swap(a, b, input, pos + 1, ctx);
            if let Parsed::Done(right, _) = non_operand_spec(a, input, pos + 1, ctx) {
                let op = if t.kind is Plus { BinOpKind::Add } else { BinOpKind::Sub };
                let folded = Spanned {
                    node: ExprKind::Binary { left: Box::new(left), op: Spanned { node: op, span: t.span }, right: Box::new(right) },
                    span: Span { start: left.span.start, end: right.span.end },
                };
                lemma_expr_rest_swap(a, b, input, pos + 2, ctx, folded);
            }
        }
    }
}

proof fn lemma_expr_swap(a: Seq<Token>, b: Seq<Token>, input: &str, pos: int, ctx: Bindings)
    requires
        separators_swapped(a, b),
    ensures
        expr_spec(a, input, pos, ctx) is Done ==> expr_spec(b, input, pos, ctx) == expr_spec(a, input, pos, ctx),
{
    lemma_ident_swap(a, b, input, pos, ctx);
    if let Parsed::Done(e, _) = non_operand_spec(a, input, pos, ctx) {
        lemma_expr_rest_swap(a, b, input, pos + 1, ctx, e);
    }
}

proof fn lemma_let_swap(a: Seq<Token>, b: Seq<Token>, input: &str, pos: int, ctx: Bindings, let_span: Span)
    requires
        separators_swapped(a, b),
    ensures
        let_spec(a, input, pos, ctx, let_span) is Done ==> let_spec(b, input, pos, ctx, let_span) == let_spec(a, input, pos, ctx, let_span),
{
    lemma_expect_swap(a, b, pos + 1, TokenKind::Ident);
    lemma_same_spans(a, b, pos + 2);
    lemma_same_spans(a, b, pos + 3);
    if let Parsed::Done(tok, _) = expect_spec(a, pos + 1, TokenKind::Ident) {
        if let Ok((_, ctx2)) = crate::sem_parser::sem_parse_context::declare(
            ctx,
            crate::sem_parser::grammar::lexeme_bytes(input, tok.span),
            crate::sem_parser::grammar::lexeme_chars(input, tok.span),
            crate::sem_parser::sem_parse_context::IdentKind::Variable,
            Span { start: let_span.start, end: tok.span.end },
        ) {
            lemma_expr_swap(a, b, input, pos + 3, ctx2);
            if let Parsed::Done(_, st) = expr_spec(a, input, pos + 3, ctx2) {
                lemma_end_swap(a, b, st.pos);
                lemma_same_spans(a, b, st.pos + 1);
            }
        }
    }
}

proof fn lemma_statement_swap(a: Seq<Token>, b: Seq<Token>, input: &str, pos: int, ctx: Bindings)
    requires
        separators_swapped(a, b),
    ensures
        statement_spec(a, input, pos, ctx) is Done ==> statement_spec(b, input, pos, ctx) == statement_spec(a, input, pos, ctx),
    decreases a.len() - pos, 1int,
{
    lemma_same_spans(a, b, pos);
    if 0 <= pos < a.len() {
        let t = a[pos];
        match t.kind {
            TokenKind::Let => lemma_let_swap(a, b, input, pos, ctx, t.span),
            TokenKind::Loop => lemma_loop_swap(a, b, input, pos, ctx),
            TokenKind::Print => {
                lemma_ident_swap(a, b, input, pos + 1, ctx);
                lemma_end_swap(a, b, pos + 2);
                lemma_same_spans(a, b, pos + 3);
            },
            TokenKind::Ident => {
                lemma_ident_swap(a, b, input, pos, ctx);
                lemma_expect_swap(a, b, pos + 1, TokenKind::Equal);
                lemma_expr_swap(a, b, input, pos + 2, ctx);
                if let Parsed::Done(_, st) = expr_spec(a, input, pos + 2, ctx) {
                    lemma_end_swap(a, b, st.pos);
                    lemma_same_spans(a, b, st.pos + 1);
                }
            },
            _ => {},
        }
    }
}

proof fn lemma_loop_swap(a: Seq<Token>, b: Seq<Token>, input: &str, pos: int, ctx: Bindings)
    requires
        separators_swapped(a, b),
    ensures
        loop_spec(a, input, pos, ctx) is Done ==> loop_spec(b, input, pos, ctx) == loop_spec(a, input, pos, ctx),
    decreases a.len() - pos, 0int,
{
    lemma_same_spans(a, b, pos);
    lemma_same_spans(a, b, pos + 2);
    lemma_ident_swap(a, b, input, pos + 1, ctx);
    if 0 <= pos && pos + 2 < a.len() {
        lemma_body_swap(a, b, input, pos + 3, ctx, Seq::empty());
        if let Parsed::Done(_, st) = body_spec(a, input, pos + 3, ctx, Seq::empty()) {
            lemma_same_spans(a, b, st.pos);
        }
    }
}

proof fn lemma_body_swap(a: Seq<Token>, b: Seq<Token>, input: &str, pos: int, ctx: Bindings, acc: Seq<StatementModel>)
    requires
        separators_swapped(a, b),
        0 <= pos,
    ensures
        body_spec(a, input, pos, ctx, acc) is Done ==> body_spec(b, input, pos, ctx, acc) == body_spec(a, input, pos, ctx, acc),
        body_spec(a, input, pos, ctx, acc) matches Parsed::Done(_, st) ==> st.pos <= a.len(),
    decreases a.len() - pos, 2int,
{
    lemma_same_spans(a, b, pos);
    if pos < a.len() && !(a[pos].kind is End) {
        lemma_statement_swap(a, b, input, pos, ctx);
        if let Parsed::Done(s, st) = statement_spec(a, input, pos, ctx) {
            if pos < st.pos <= a.len() {
                lemma_body_swap(a, b, input, st.pos, st.ctx, acc.push(s));
            }
        }
    }
}

proof fn lemma_program_swap(a: Seq<Token>, b: Seq<Token>, input: &str, pos: int, ctx: Bindings, acc: Seq<StatementModel>)
    requires
        separators_swapped(a, b),
        0 <= pos,
    ensures
        program_spec(a, input, pos, ctx, acc) is Done ==> program_spec(b, input, pos, ctx, acc) == program_spec(a, input, pos, ctx, acc),
    decreases a.len() - pos,
{
    lemma_same_spans(a, b, pos);
    if pos < a.len() && !(a[pos].kind is EOF) {
        lemma_statement_swap(a, b, input, pos, ctx);
        if let Parsed::Done(s, st) = statement_spec(a, input, pos, ctx) {
            if pos < st.pos <= a.len() {
                lemma_program_swap(a, b, input, st.pos, st.ctx, acc.push(s));
            }
        }
    }
}

/// `;` and a newline both end a statement, and mean the same: where a
/// statement, or a whole program, parses, it parses to the same result
/// after any of its separators are swapped for the other one at the same
/// place.
pub proof fn separators_are_interchangeable(a: Seq<Token>, b: Seq<Token>, input: &str, pos: int, ctx: Bindings)
    requires
        separators_swapped(a, b),
    ensures
        statement_spec(a, input, pos, ctx) is Done ==> statement_spec(b, input, pos, ctx) == statement_spec(a, input, pos, ctx),
        parse_spec(a, input) is Done ==> parse_spec(b, input) == parse_spec(a, input),
{
    lemma_statement_swap(a, b, input, pos, ctx);
    lemma_program_swap(a, b, input, 0, Seq::empty(), Seq::empty());
}

} // verus!
