//! Variables are declared before they are used: in a program parsed from
//! tokens in input order, every identifier a statement or expression uses
//! is bound to a declaration that ends before the place of the use.
use vstd::prelude::*;

use crate::lexer::token::{Span, Token, TokenKind};
use crate::sem_parser::grammar::{
    body_spec, expect_spec, expr_rest_spec, expr_spec, ident_spec, let_spec, lexeme_bytes, lexeme_chars,
    lexeme_ok, loop_spec, non_operand_spec, parse_spec, program_spec, resolve_token, statement_end_spec,
    statement_spec, Parsed,
};
use crate::sem_parser::sem_parse_context::{declare, lookup, Bindings, IdentKind};
use crate::sem_parser::sem_parse_structure::{
    expr_reads_declared, model_uses_declared, models_use_declared, BinOpKind, Expr, ExprKind, Spanned,
    StatementModel,
};
use crate::sem_parser::totality::{
    bindings_in, lemma_expect, lemma_expr, lemma_let, lemma_lookup_found, lemma_loop,
    lemma_non_operand, lemma_statement, lemma_statement_end, parse_ready,
};

verus! {

/// Whether every bound identifier was declared by text ending at `p` or
/// earlier.
pub open spec fn bound_before(ctx: Bindings, p: int) -> bool {
    forall|i: int| 0 <= i < ctx.len() ==> (#[trigger] ctx[i]).1.span.end <= p
}

/// Where the token at `pos` begins.
pub open spec fn start_of(tokens: Seq<Token>, pos: int) -> int {
    tokens[pos].span.start as int
}

proof fn lemma_bound_later(tokens: Seq<Token>, input: &str, ctx: Bindings, i: int, j: int)
    requires
        parse_ready(tokens, input),
        0 <= i <= j < tokens.len(),
        bound_before(ctx, start_of(tokens, i)),
    ensures
        bound_before(ctx, start_of(tokens, j)),
{
    assert(lexeme_ok(input, tokens[i].span));
    if i < j {
        assert(tokens[i].span.end <= tokens[j].span.start);
    }
}

proof fn lemma_resolved_declared(tokens: Seq<Token>, input: &str, pos: int, ctx: Bindings)
    requires
        0 <= pos < tokens.len(),
    ensures
        resolve_token(input, ctx, tokens[pos]) matches Parsed::Done(id, _) ==> forall|p: int|
            #[trigger] bound_before(ctx, p) ==> id.span.end <= p,
{
    let name = lexeme_bytes(input, tokens[pos].span);
    lemma_lookup_found(ctx, name);
    if let Some(id) = lookup(ctx, name) {
        let i = choose|i: int| 0 <= i < ctx.len() && (#[trigger] ctx[i]).1 == id;
        assert forall|p: int| #[trigger] bound_before(ctx, p) implies id.span.end <= p by {
            assert(ctx[i].1 == id);
        }
    }
}

proof fn lemma_ident_declared(tokens: Seq<Token>, input: &str, pos: int, ctx: Bindings)
    requires
        0 <= pos < tokens.len(),
    ensures
        ident_spec(tokens, input, pos, ctx) matches Parsed::Done(id, _) ==> forall|p: int|
            #[trigger] bound_before(ctx, p) ==> id.span.end <= p,
{
    lemma_resolved_declared(tokens, input, pos, ctx);
}

proof fn lemma_non_operand_declared(tokens: Seq<Token>, input: &str, pos: int, ctx: Bindings)
    requires
        0 <= pos < tokens.len(),
        bound_before(ctx, start_of(tokens, pos)),
    ensures
        non_operand_spec(tokens, input, pos, ctx) matches Parsed::Done(e, _) ==> expr_reads_declared(e),
{
    lemma_resolved_declared(tokens, input, pos, ctx);
}

proof fn lemma_expr_rest_declared(tokens: Seq<Token>, input: &str, pos: int, ctx: Bindings, left: Expr)
    requires
        bindings_in(ctx, input),
        parse_ready(tokens, input),
        0 <= pos < tokens.len(),
        bound_before(ctx, start_of(tokens, pos)),
        expr_reads_declared(left),
    ensures
        expr_rest_spec(tokens, input, pos, ctx, left) matches Parsed::Done(e, _) ==> expr_reads_declared(e),
    decreases tokens.len() - pos,
{
    let t = tokens[pos];
    if t.kind is Plus || t.kind is Minus {
        lemma_non_operand(tokens, input, pos + 1, ctx);
        lemma_bound_later(tokens, input, ctx, pos, pos + 1);
        lemma_non_operand_declared(tokens, input, pos + 1, ctx);
        if let Parsed::Done(right, _) = non_operand_spec(tokens, input, pos + 1, ctx) {
            let op = if t.kind is Plus { BinOpKind::Add } else { BinOpKind::Sub };
            let folded = Spanned {
                node: ExprKind::Binary { left: Box::new(left), op: Spanned { node: op, span: t.span }, right: Box::new(right) },
                span: Span { start: left.span.start, end: right.span.end },
            };
            lemma_bound_later(tokens, input, ctx, pos, pos + 2);
            lemma_expr_rest_declared(tokens, input, pos + 2, ctx, folded);
        }
    }
}

proof fn lemma_expr_declared(tokens: Seq<Token>, input: &str, pos: int, ctx: Bindings)
    requires
        bindings_in(ctx, input),
        parse_ready(tokens, input),
        0 <= pos < tokens.len(),
        bound_before(ctx, start_of(tokens, pos)),
    ensures
        expr_spec(tokens, input, pos, ctx) matches Parsed::Done(e, _) ==> expr_reads_declared(e),
{
    lemma_non_operand(tokens, input, pos, ctx);
    lemma_non_operand_declared(tokens, input, pos, ctx);
    if let Parsed::Done(e, _) = non_operand_spec(tokens, input, pos, ctx) {
        lemma_bound_later(tokens, input, ctx, pos, pos + 1);
        lemma_expr_rest_declared(tokens, input, pos + 1, ctx, e);
    }
}

proof fn lemma_let_declared(tokens: Seq<Token>, input: &str, pos: int, ctx: Bindings, let_span: Span)
    requires
        bindings_in(ctx, input),
        parse_ready(tokens, input),
        0 <= pos < tokens.len() - 1,
        let_span == tokens[pos].span,
        bound_before(ctx, start_of(tokens, pos)),
    ensures
        let_spec(tokens, input, pos, ctx, let_span) matches Parsed::Done(m, st) ==> {
            &&& model_uses_declared(m)
            &&& bound_before(st.ctx, start_of(tokens, st.pos))
        },
{
    lemma_let(tokens, input, pos, ctx, let_span);
    lemma_expect(tokens, input, pos + 1, TokenKind::Ident);
    let tok = tokens[pos + 1];
    let name = lexeme_bytes(input, tok.span);
    let declared = declare(
        ctx,
        name,
        lexeme_chars(input, tok.span),
        IdentKind::Variable,
        Span { start: let_span.start, end: tok.span.end },
    );
    if let Ok((_, c2)) = declared {
        if pos + 2 < tokens.len() {
            lemma_bound_later(tokens, input, ctx, pos, pos + 2);
            assert(lexeme_ok(input, tokens[pos + 2].span));
            assert(tok.span.end <= tokens[pos + 2].span.start);
            assert(bound_before(c2, start_of(tokens, pos + 2))) by {
                assert forall|i: int| 0 <= i < c2.len() implies (#[trigger] c2[i]).1.span.end <= start_of(tokens, pos + 2) by {
                    if i < ctx.len() {
                        assert(c2[i] == ctx[i]);
                    }
                }
            }
            let t = tokens[pos + 2];
            if t.kind is Semicolon || t.kind is Newline {
                if let Parsed::Done(_, st) = let_spec(tokens, input, pos, ctx, let_span) {
                    lemma_bound_later(tokens, input, c2, pos + 2, pos + 3);
                }
            } else if t.kind is Equal {
                lemma_bound_later(tokens, input, c2, pos + 2, pos + 3);
                lemma_expr(tokens, input, pos + 3, c2);
                lemma_expr_declared(tokens, input, pos + 3, c2);
                if let Parsed::Done(_, st) = expr_spec(tokens, input, pos + 3, c2) {
                    lemma_statement_end(tokens, input, st.pos);
                    if statement_end_spec(tokens, st.pos) is Done {
                        lemma_bound_later(tokens, input, c2, pos + 3, st.pos + 1);
                    }
                }
            }
        }
    }
}

proof fn lemma_statement_declared(tokens: Seq<Token>, input: &str, pos: int, ctx: Bindings)
    requires
        bindings_in(ctx, input),
        parse_ready(tokens, input),
        0 <= pos < tokens.len(),
        bound_before(ctx, start_of(tokens, pos)),
    ensures
        statement_spec(tokens, input, pos, ctx) matches Parsed::Done(m, st) ==> {
            &&& model_uses_declared(m)
            &&& bound_before(st.ctx, start_of(tokens, st.pos))
        },
    decreases tokens.len() - pos, 1int,
{
    lemma_statement(tokens, input, pos, ctx);
    let t = tokens[pos];
    match t.kind {
        TokenKind::Let => lemma_let_declared(tokens, input, pos, ctx, t.span),
        TokenKind::Loop => lemma_loop_declared(tokens, input, pos, ctx),
        TokenKind::Print => {
            lemma_ident_declared(tokens, input, pos + 1, ctx);
            if let Parsed::Done(_, st) = statement_spec(tokens, input, pos, ctx) {
                lemma_bound_later(tokens, input, ctx, pos, st.pos);
            }
        },
        TokenKind::Ident => {
            lemma_ident_declared(tokens, input, pos, ctx);
            if let Parsed::Done(_, st) = statement_spec(tokens, input, pos, ctx) {
                lemma_bound_later(tokens, input, ctx, pos, pos + 2);
                lemma_expr_declared(tokens, input, pos + 2, ctx);
                lemma_bound_later(tokens, input, ctx, pos, st.pos);
            }
        },
        TokenKind::Newline | TokenKind::Semicolon => {
            lemma_bound_later(tokens, input, ctx, pos, pos + 1);
        },
        _ => {},
    }
}

proof fn lemma_loop_declared(tokens: Seq<Token>, input: &str, pos: int, ctx: Bindings)
    requires
        bindings_in(ctx, input),
        parse_ready(tokens, input),
        0 <= pos < tokens.len(),
        tokens[pos].kind is Loop,
        bound_before(ctx, start_of(tokens, pos)),
    ensures
        loop_spec(tokens, input, pos, ctx) matches Parsed::Done(m, st) ==> {
            &&& model_uses_declared(m)
            &&& bound_before(st.ctx, start_of(tokens, st.pos))
        },
    decreases tokens.len() - pos, 0int,
{
    lemma_loop(tokens, input, pos, ctx);
    lemma_ident_declared(tokens, input, pos + 1, ctx);
    if let Parsed::Done(_, _) = loop_spec(tokens, input, pos, ctx) {
        lemma_bound_later(tokens, input, ctx, pos, pos + 3);
        lemma_body_declared(tokens, input, pos + 3, ctx, Seq::empty());
    }
}

proof fn lemma_uses_push(acc: Seq<StatementModel>, m: StatementModel)
    requires
        models_use_declared(acc),
        model_uses_declared(m),
    ensures
        models_use_declared(acc.push(m)),
{
    assert(acc.push(m).drop_last() =~= acc);
}

proof fn lemma_body_declared(tokens: Seq<Token>, input: &str, pos: int, ctx: Bindings, acc: Seq<StatementModel>)
    requires
        bindings_in(ctx, input),
        parse_ready(tokens, input),
        0 <= pos < tokens.len(),
        bound_before(ctx, start_of(tokens, pos)),
        models_use_declared(acc),
    ensures
        body_spec(tokens, input, pos, ctx, acc) matches Parsed::Done(ms, st) ==> {
            &&& models_use_declared(ms)
            &&& bound_before(st.ctx, start_of(tokens, st.pos))
        },
    decreases tokens.len() - pos, 2int,
{
    if tokens[pos].kind is End {
        if let Parsed::Done(_, st) = body_spec(tokens, input, pos, ctx, acc) {
            lemma_bound_later(tokens, input, ctx, pos, st.pos);
        }
    } else {
        lemma_statement(tokens, input, pos, ctx);
        lemma_statement_declared(tokens, input, pos, ctx);
        if let Parsed::Done(s, st) = statement_spec(tokens, input, pos, ctx) {
            lemma_uses_push(acc, s);
            lemma_body_declared(tokens, input, st.pos, st.ctx, acc.push(s));
        }
    }
}

proof fn lemma_program_declared(tokens: Seq<Token>, input: &str, pos: int, ctx: Bindings, acc: Seq<StatementModel>)
    requires
        bindings_in(ctx, input),
        parse_ready(tokens, input),
        0 <= pos < tokens.len(),
        bound_before(ctx, start_of(tokens, pos)),
        models_use_declared(acc),
    ensures
        program_spec(tokens, input, pos, ctx, acc) matches Parsed::Done(ms, _) ==> models_use_declared(ms),
    decreases tokens.len() - pos,
{
    if !(tokens[pos].kind is EOF) {
        lemma_statement(tokens, input, pos, ctx);
        lemma_statement_declared(tokens, input, pos, ctx);
        if let Parsed::Done(s, st) = statement_spec(tokens, input, pos, ctx) {
            lemma_uses_push(acc, s);
            lemma_program_declared(tokens, input, st.pos, st.ctx, acc.push(s));
        }
    }
}

/// In a program parsed from tokens in input order, every variable is
/// declared before it is used: each identifier that a statement assigns,
/// loops over or prints, and each that an expression reads, is bound to a
/// `let` whose text ends before the place of the use.
pub proof fn parsed_program_declares_before_use(tokens: Seq<Token>, input: &str)
    requires
        parse_ready(tokens, input),
    ensures
        parse_spec(tokens, input) matches Parsed::Done(ms, _) ==> models_use_declared(ms),
{
    lemma_program_declared(tokens, input, 0, Seq::empty(), Seq::empty());
}

} // verus!
