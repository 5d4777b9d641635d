//! The parser never gets stuck on what the lexer produces: it never reads
//! past the end of file token and never slices the input off a character
//! boundary, so on lexed input it either builds a program or reports an
//! error, and every error it reports can be shown with the input around
//! it.
use vstd::prelude::*;
use vstd::string::StringSliceAdditionalSpecFns;

use crate::error::{location_ok, LOOK_AFTER};
use crate::lexer::lex::{all_ascii, lexed_shape, spans_ordered};
use crate::lexer::token::{Span, Token, TokenKind};
use crate::sem_parser::grammar::{
    body_spec, expect_spec, expr_rest_spec, expr_spec, ident_spec, let_spec, lexeme_bytes,
    lexeme_chars, lexeme_ok, loop_spec, non_operand_spec, parse_spec, program_spec, resolve_token,
    statement_end_spec, statement_spec, Parsed,
};
use crate::sem_parser::sem_parse_context::{declare, lookup, Bindings, IdentKind};
use crate::sem_parser::sem_parse_structure::{
    expr_within, model_within, models_within, within, BinOpKind, Expr, ExprKind, Spanned, StatementModel,
};
use crate::text::sliceable;

verus! {

/// What the parser needs of its tokens: the end of file token comes last
/// and only there, and the span of every token can be sliced out of the
/// input.
pub open spec fn parse_ready(tokens: Seq<Token>, input: &str) -> bool {
    &&& input.spec_bytes().len() <= usize::MAX
    &&& tokens.len() > 0
    &&& tokens.last().kind is EOF
    &&& forall|i: int| 0 <= i < tokens.len() - 1 ==> !(#[trigger] tokens[i].kind is EOF)
    &&& forall|i: int| 0 <= i < tokens.len() ==> lexeme_ok(input, (#[trigger] tokens[i]).span)
    &&& spans_ordered(tokens)
}

/// The byte length of the input.
pub open spec fn input_len(input: &str) -> int {
    input.spec_bytes().len() as int
}

/// Whether a span is an ordered range of the input.
pub open spec fn span_in(span: Span, input: &str) -> bool {
    within(span, input_len(input))
}

/// Whether every bound identifier was declared at an ordered range of the
/// input.
pub open spec fn bindings_in(ctx: Bindings, input: &str) -> bool {
    forall|i: int| 0 <= i < ctx.len() ==> span_in((#[trigger] ctx[i]).1.span, input)
}

/// Whether a part parsed from `from` is read without getting stuck; when
/// it is done, ends past `from` and before the end of file token with its
/// bindings declared within the input; and when it fails, the error spans
/// a range of the input.
pub open spec fn advances<T>(p: Parsed<T>, len: int, from: int, input: &str) -> bool {
    match p {
        Parsed::Done(_, st) => from < st.pos < len && bindings_in(st.ctx, input),
        Parsed::Failed(e, _) => span_in(e.span, input),
        Parsed::Stuck => false,
    }
}

/// As `advances`, where the part may be empty.
pub open spec fn holds_on<T>(p: Parsed<T>, len: int, from: int, input: &str) -> bool {
    match p {
        Parsed::Done(_, st) => from <= st.pos < len && bindings_in(st.ctx, input),
        Parsed::Failed(e, _) => span_in(e.span, input),
        Parsed::Stuck => false,
    }
}

/// What `lookup` finds is one of the bindings.
pub(crate) proof fn lemma_lookup_found(ctx: Bindings, name: Seq<u8>)
    ensures
        lookup(ctx, name) matches Some(id) ==> exists|i: int| 0 <= i < ctx.len() && (#[trigger] ctx[i]).1 == id,
    decreases ctx.len(),
{
    if ctx.len() > 0 {
        lemma_lookup_found(ctx.drop_last(), name);
        if ctx.last().0 == name {
            assert(ctx[ctx.len() - 1].1 == ctx.last().1);
        } else if let Some(id) = lookup(ctx.drop_last(), name) {
            let i = choose|i: int| 0 <= i < ctx.drop_last().len() && (#[trigger] ctx.drop_last()[i]).1 == id;
            assert(ctx[i] == ctx.drop_last()[i]);
        }
    }
}

/// In an ASCII string every byte range can be sliced.
pub proof fn ascii_sliceable(s: &str, start: int, end: int)
    requires
        all_ascii(s.spec_bytes()),
        0 <= start <= end <= s.spec_bytes().len(),
    ensures
        sliceable(s, start, end),
{
    let bytes = s.spec_bytes();
    vstd::utf8::encode_utf8_valid_utf8(s@);
    vstd::utf8::is_char_boundary_start_end_of_seq(bytes);
    if start < bytes.len() {
        vstd::utf8::is_char_boundary_iff_not_is_continuation_byte(bytes, start);
    }
    if end < bytes.len() {
        vstd::utf8::is_char_boundary_iff_not_is_continuation_byte(bytes, end);
    }
}

/// The tokens of an ASCII input in the shape the lexer gives are ready
/// for the parser.
pub proof fn lexed_tokens_ready(tokens: Seq<Token>, input: &str)
    requires
        all_ascii(input.spec_bytes()),
        input.spec_bytes().len() <= usize::MAX,
        lexed_shape(tokens, input.spec_bytes().len() as int),
    ensures
        parse_ready(tokens, input),
{
    assert forall|i: int| 0 <= i < tokens.len() - 1 implies !(#[trigger] tokens[i].kind is EOF) by {
        assert(tokens[i] == tokens.drop_last()[i]);
    }
    assert forall|i: int| 0 <= i < tokens.len() implies lexeme_ok(input, (#[trigger] tokens[i]).span) by {
        ascii_sliceable(input, tokens[i].span.start as int, tokens[i].span.end as int);
    }
}

pub(crate) proof fn lemma_expect(tokens: Seq<Token>, input: &str, pos: int, kind: TokenKind)
    requires
        parse_ready(tokens, input),
        0 <= pos < tokens.len(),
        !(kind is EOF),
    ensures
        advances(expect_spec(tokens, pos, kind), tokens.len() as int, pos, input),
{
}

pub(crate) proof fn lemma_statement_end(tokens: Seq<Token>, input: &str, pos: int)
    requires
        parse_ready(tokens, input),
        0 <= pos < tokens.len(),
    ensures
        advances(statement_end_spec(tokens, pos), tokens.len() as int, pos, input),
{
}

pub(crate) proof fn lemma_resolved_within(tokens: Seq<Token>, input: &str, pos: int, ctx: Bindings)
    requires
        bindings_in(ctx, input),
        parse_ready(tokens, input),
        0 <= pos < tokens.len(),
    ensures
        lexeme_ok(input, tokens[pos].span),
        resolve_token(input, ctx, tokens[pos]) matches Parsed::Done(id, _) ==> span_in(id.span, input),
{
    let name = lexeme_bytes(input, tokens[pos].span);
    lemma_lookup_found(ctx, name);
    if let Some(id) = lookup(ctx, name) {
        let i = choose|i: int| 0 <= i < ctx.len() && (#[trigger] ctx[i]).1 == id;
        assert(span_in(ctx[i].1.span, input));
    }
}

pub(crate) proof fn lemma_ident(tokens: Seq<Token>, input: &str, pos: int, ctx: Bindings)
    requires
        bindings_in(ctx, input),
        parse_ready(tokens, input),
        0 <= pos < tokens.len(),
    ensures
        advances(ident_spec(tokens, input, pos, ctx), tokens.len() as int, pos, input),
        ident_spec(tokens, input, pos, ctx) matches Parsed::Done(id, _) ==> span_in(id.span, input),
{
    lemma_resolved_within(tokens, input, pos, ctx);
}

pub(crate) proof fn lemma_non_operand(tokens: Seq<Token>, input: &str, pos: int, ctx: Bindings)
    requires
        bindings_in(ctx, input),
        parse_ready(tokens, input),
        0 <= pos < tokens.len(),
    ensures
        advances(non_operand_spec(tokens, input, pos, ctx), tokens.len() as int, pos, input),
        non_operand_spec(tokens, input, pos, ctx) matches Parsed::Done(e, _) ==> expr_within(e, input_len(input)),
{
    lemma_resolved_within(tokens, input, pos, ctx);
}

pub(crate) proof fn lemma_expr_rest(tokens: Seq<Token>, input: &str, pos: int, ctx: Bindings, left: Expr)
    requires
        bindings_in(ctx, input),
        parse_ready(tokens, input),
        0 <= pos < tokens.len(),
        expr_within(left, input_len(input)),
    ensures
        holds_on(expr_rest_spec(tokens, input, pos, ctx, left), tokens.len() as int, pos, input),
        expr_rest_spec(tokens, input, pos, ctx, left) matches Parsed::Done(e, _) ==> expr_within(e, input_len(input)),
    decreases tokens.len() - pos,
{
    let t = tokens[pos];
    if t.kind is Plus || t.kind is Minus {
        lemma_non_operand(tokens, input, pos + 1, ctx);
        if let Parsed::Done(right, _) = non_operand_spec(tokens, input, pos + 1, ctx) {
            let op = if t.kind is Plus { BinOpKind::Add } else { BinOpKind::Sub };
            let folded = Spanned {
                node: ExprKind::Binary { left: Box::new(left), op: Spanned { node: op, span: t.span }, right: Box::new(right) },
                span: Span { start: left.span.start, end: right.span.end },
            };
            lemma_expr_rest(tokens, input, pos + 2, ctx, folded);
        }
    }
}

pub(crate) proof fn lemma_expr(tokens: Seq<Token>, input: &str, pos: int, ctx: Bindings)
    requires
        bindings_in(ctx, input),
        parse_ready(tokens, input),
        0 <= pos < tokens.len(),
    ensures
        advances(expr_spec(tokens, input, pos, ctx), tokens.len() as int, pos, input),
        expr_spec(tokens, input, pos, ctx) matches Parsed::Done(e, _) ==> expr_within(e, input_len(input)),
{
    lemma_non_operand(tokens, input, pos, ctx);
    if let Parsed::Done(e, _) = non_operand_spec(tokens, input, pos, ctx) {
        lemma_expr_rest(tokens, input, pos + 1, ctx, e);
    }
}

/// The tokens from `i` to `j` lie in order: a span from the start of the
/// first to the end of the last is an ordered range of the input.
pub(crate) proof fn lemma_from_to(tokens: Seq<Token>, input: &str, i: int, j: int)
    requires
        parse_ready(tokens, input),
        0 <= i <= j < tokens.len(),
    ensures
        tokens[i].span.start <= tokens[j].span.end <= input_len(input),
{
    assert(lexeme_ok(input, tokens[i].span));
    assert(lexeme_ok(input, tokens[j].span));
    if i < j {
        assert(tokens[i].span.end <= tokens[j].span.start);
    }
}

pub(crate) proof fn lemma_let(tokens: Seq<Token>, input: &str, pos: int, ctx: Bindings, let_span: Span)
    requires
        bindings_in(ctx, input),
        parse_ready(tokens, input),
        0 <= pos < tokens.len() - 1,
        let_span == tokens[pos].span,
    ensures
        advances(let_spec(tokens, input, pos, ctx, let_span), tokens.len() as int, pos, input),
        let_spec(tokens, input, pos, ctx, let_span) matches Parsed::Done(m, _) ==> model_within(m, input_len(input)),
{
    lemma_expect(tokens, input, pos + 1, TokenKind::Ident);
    let tok = tokens[pos + 1];
    assert(lexeme_ok(input, tok.span));
    lemma_from_to(tokens, input, pos, pos + 1);
    let name = lexeme_bytes(input, tok.span);
    lemma_lookup_found(ctx, name);
    let declared = declare(
        ctx,
        name,
        lexeme_chars(input, tok.span),
        IdentKind::Variable,
        Span { start: let_span.start, end: tok.span.end },
    );
    if let Ok((_, c2)) = declared {
        assert(bindings_in(c2, input)) by {
            assert forall|i: int| 0 <= i < c2.len() implies span_in((#[trigger] c2[i]).1.span, input) by {
                if i < ctx.len() {
                    assert(c2[i] == ctx[i]);
                }
            }
        }
        if pos + 2 < tokens.len() {
            lemma_from_to(tokens, input, pos, pos + 2);
            if tokens[pos + 2].kind is Equal {
                lemma_expr(tokens, input, pos + 3, c2);
                if let Parsed::Done(_, st) = expr_spec(tokens, input, pos + 3, c2) {
                    lemma_statement_end(tokens, input, st.pos);
                    lemma_from_to(tokens, input, pos, st.pos);
                }
            }
        }
    } else if let Some(old) = lookup(ctx, name) {
        let i = choose|i: int| 0 <= i < ctx.len() && (#[trigger] ctx[i]).1 == old;
        assert(span_in(ctx[i].1.span, input));
    }
}

pub(crate) proof fn lemma_statement(tokens: Seq<Token>, input: &str, pos: int, ctx: Bindings)
    requires
        bindings_in(ctx, input),
        parse_ready(tokens, input),
        0 <= pos < tokens.len(),
    ensures
        advances(statement_spec(tokens, input, pos, ctx), tokens.len() as int, pos, input),
        statement_spec(tokens, input, pos, ctx) matches Parsed::Done(m, _) ==> model_within(m, input_len(input)),
    decreases tokens.len() - pos, 1int,
{
    let t = tokens[pos];
    assert(lexeme_ok(input, t.span));
    match t.kind {
        TokenKind::Let => lemma_let(tokens, input, pos, ctx, t.span),
        TokenKind::Loop => lemma_loop(tokens, input, pos, ctx),
        TokenKind::Print => {
            lemma_ident(tokens, input, pos + 1, ctx);
            if ident_spec(tokens, input, pos + 1, ctx) is Done {
                lemma_statement_end(tokens, input, pos + 2);
                if statement_end_spec(tokens, pos + 2) is Done {
                    lemma_from_to(tokens, input, pos, pos + 2);
                }
            }
        },
        TokenKind::Ident => {
            lemma_ident(tokens, input, pos, ctx);
            if ident_spec(tokens, input, pos, ctx) is Done {
                lemma_expect(tokens, input, pos + 1, TokenKind::Equal);
                if expect_spec(tokens, pos + 1, TokenKind::Equal) is Done {
                    lemma_expr(tokens, input, pos + 2, ctx);
                    if let Parsed::Done(_, st) = expr_spec(tokens, input, pos + 2, ctx) {
                        lemma_statement_end(tokens, input, st.pos);
                        if statement_end_spec(tokens, st.pos) is Done {
                            lemma_from_to(tokens, input, pos, st.pos);
                        }
                    }
                }
            }
        },
        _ => {},
    }
}

pub(crate) proof fn lemma_loop(tokens: Seq<Token>, input: &str, pos: int, ctx: Bindings)
    requires
        bindings_in(ctx, input),
        parse_ready(tokens, input),
        0 <= pos < tokens.len(),
        tokens[pos].kind is Loop,
    ensures
        advances(loop_spec(tokens, input, pos, ctx), tokens.len() as int, pos, input),
        loop_spec(tokens, input, pos, ctx) matches Parsed::Done(m, _) ==> model_within(m, input_len(input)),
    decreases tokens.len() - pos, 0int,
{
    lemma_ident(tokens, input, pos + 1, ctx);
    if ident_spec(tokens, input, pos + 1, ctx) is Done && tokens[pos + 2].kind is Do {
        lemma_body(tokens, input, pos + 3, ctx, Seq::empty());
        if let Parsed::Done(_, st) = body_spec(tokens, input, pos + 3, ctx, Seq::empty()) {
            lemma_from_to(tokens, input, pos, st.pos - 1);
        }
    }
}

pub(crate) proof fn lemma_models_push(acc: Seq<StatementModel>, m: StatementModel, n: int)
    requires
        models_within(acc, n),
        model_within(m, n),
    ensures
        models_within(acc.push(m), n),
{
    assert(acc.push(m).drop_last() =~= acc);
}

pub(crate) proof fn lemma_body(tokens: Seq<Token>, input: &str, pos: int, ctx: Bindings, acc: Seq<StatementModel>)
    requires
        bindings_in(ctx, input),
        parse_ready(tokens, input),
        0 <= pos < tokens.len(),
        models_within(acc, input_len(input)),
    ensures
        advances(body_spec(tokens, input, pos, ctx, acc), tokens.len() as int, pos, input),
        body_spec(tokens, input, pos, ctx, acc) matches Parsed::Done(ms, _) ==> models_within(ms, input_len(input)),
    decreases tokens.len() - pos, 2int,
{
    if !(tokens[pos].kind is End) {
        lemma_statement(tokens, input, pos, ctx);
        if let Parsed::Done(s, st) = statement_spec(tokens, input, pos, ctx) {
            lemma_models_push(acc, s, input_len(input));
            lemma_body(tokens, input, st.pos, st.ctx, acc.push(s));
        }
    }
}

pub(crate) proof fn lemma_program(tokens: Seq<Token>, input: &str, pos: int, ctx: Bindings, acc: Seq<StatementModel>)
    requires
        bindings_in(ctx, input),
        parse_ready(tokens, input),
        0 <= pos < tokens.len(),
        models_within(acc, input_len(input)),
    ensures
        !(program_spec(tokens, input, pos, ctx, acc) is Stuck),
        program_spec(tokens, input, pos, ctx, acc) matches Parsed::Failed(e, _) ==> span_in(e.span, input),
        program_spec(tokens, input, pos, ctx, acc) matches Parsed::Done(ms, _) ==> models_within(ms, input_len(input)),
    decreases tokens.len() - pos,
{
    if !(tokens[pos].kind is EOF) {
        lemma_statement(tokens, input, pos, ctx);
        if let Parsed::Done(s, st) = statement_spec(tokens, input, pos, ctx) {
            lemma_models_push(acc, s, input_len(input));
            lemma_program(tokens, input, st.pos, st.ctx, acc.push(s));
        }
    }
}

/// On tokens ready for the parser, a statement read from any token never
/// gets stuck, nor does a loop read from a `LOOP` token, whatever bindings
/// within the input the parser holds: they give a statement or an error.
pub proof fn ready_statements_never_stuck(tokens: Seq<Token>, input: &str, pos: int, ctx: Bindings)
    requires
        parse_ready(tokens, input),
        bindings_in(ctx, input),
        0 <= pos < tokens.len(),
    ensures
        !(statement_spec(tokens, input, pos, ctx) is Stuck),
        tokens[pos].kind is Loop ==> !(loop_spec(tokens, input, pos, ctx) is Stuck),
{
    lemma_statement(tokens, input, pos, ctx);
    if tokens[pos].kind is Loop {
        lemma_loop(tokens, input, pos, ctx);
    }
}

/// Parsing tokens whose end of file token comes last and only there, and
/// whose spans come in order and can all be sliced out of the input,
/// never gets stuck: it gives a program or an error; the error spans a
/// range of the input, and so does every statement of the program with
/// the identifiers it names.
pub proof fn ready_tokens_never_stuck(tokens: Seq<Token>, input: &str)
    requires
        parse_ready(tokens, input),
    ensures
        !(parse_spec(tokens, input) is Stuck),
        parse_spec(tokens, input) matches Parsed::Failed(e, _) ==> span_in(e.span, input),
        parse_spec(tokens, input) matches Parsed::Done(ms, _) ==> models_within(ms, input_len(input)),
{
    lemma_program(tokens, input, 0, Seq::empty(), Seq::empty());
}

/// In an ASCII input, an ordered range of it can be shown with the text
/// around it, where the end of the input leaves room for the look after.
pub proof fn ascii_span_can_be_shown(input: &str, span: Span)
    requires
        all_ascii(input.spec_bytes()),
        input.spec_bytes().len() + LOOK_AFTER <= usize::MAX,
        span_in(span, input),
    ensures
        location_ok(span, input),
{
    let len = input.spec_bytes().len() as int;
    ascii_sliceable(input, crate::error::before_start(span), span.start as int);
    ascii_sliceable(input, span.start as int, span.end as int);
    ascii_sliceable(input, span.end as int, crate::error::after_end(span, len));
}

} // verus!
