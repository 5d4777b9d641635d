//! The lexer: a state machine over the bytes of the input.
use vstd::prelude::*;
use vstd::string::StringSliceAdditionalSpecFns;

use crate::error::{lex_error_view, location_ok, GlobalError, GlobalErrorView, LexErrorKind, LexErrorView, LOOK_AFTER};
use crate::lexer::lex_table::{classify_spec, mask_upto, LexTable, LexTableEntry};
use crate::lexer::token::{
    find_keyword, get_keyword_map, keyword_entries, keyword_kind, keyword_map_view, token_keyword, BoundTokenKeyword, Span, Token,
    TokenKind,
};
use crate::lexer::completeness::{laid_out, laid_out_input_lexes};
use crate::sem_parser::totality::ascii_span_can_be_shown;
use crate::text::push_char;

verus! {

/// What the lexer is in the middle of.
#[derive(Debug, Clone, Copy, PartialEq, Eq, Structural)]
pub enum LexState {
    Normal,
    /// after a token that must be followed by a space
    SpaceNeeding,
    /// Number with the corresponding span
    Number(Span),
    /// Identifier with the corresponding span
    Ident(Span),
}

/// The decimal value of a sequence of digit bytes.
pub open spec fn digits_value(digits: Seq<u8>) -> nat
    decreases digits.len(),
{
    if digits.len() == 0 {
        0
    } else {
        digits_value(digits.drop_last()) * 10 + (digits.last() - 48) as nat
    }
}

/// The bytes as characters (one character per byte).
pub open spec fn byte_chars(bytes: Seq<u8>) -> Seq<char> {
    Seq::new(bytes.len(), |i: int| bytes[i] as char)
}

/// The tokens a finished word of the input gives: a number (or the error
/// that it does not fit in `usize`), or a keyword or identifier.
pub open spec fn finish_word(bytes: Seq<u8>, state: LexState) -> Result<Seq<Token>, GlobalErrorView> {
    match state {
        LexState::Number(span) => {
            let digits = bytes.subrange(span.start as int, span.end as int);
            if digits_value(digits) <= usize::MAX {
                Ok(seq![Token { kind: TokenKind::Number(digits_value(digits) as usize), span }])
            } else {
                Err(lex_error_view(LexErrorView::ConversionError("number"@, byte_chars(digits)), span))
            }
        },
        LexState::Ident(span) => {
            let text = byte_chars(bytes.subrange(span.start as int, span.end as int));
            match keyword_kind(text) {
                Some(kind) => Ok(seq![Token { kind, span }]),
                None => Ok(seq![Token { kind: TokenKind::Ident, span }]),
            }
        },
        _ => Ok(Seq::empty()),
    }
}

/// The one byte span at `pos`.
pub open spec fn at_byte(pos: int) -> Span {
    Span { start: pos as usize, end: (pos + 1) as usize }
}

/// The state after reading the byte at `pos`, and the tokens that reading
/// it completes; or the error it raises.
pub open spec fn lex_step(bytes: Seq<u8>, pos: int, state: LexState) -> Result<(LexState, Seq<Token>), GlobalErrorView> {
    let b = bytes[pos];
    let here = at_byte(pos);
    let unexpected = lex_error_view(LexErrorView::UnexpectedCharacter(b as char), here);
    let unknown = lex_error_view(LexErrorView::UnknownCharacter(b as char), here);
    if b >= 128 {
        Err(unknown)
    } else {
        match (state, classify_spec(b)) {
            (LexState::Normal, LexTableEntry::Split) => Ok((LexState::Normal, Seq::empty())),
            (LexState::Normal, LexTableEntry::Token(t)) => Ok((LexState::Normal, seq![Token { kind: t, span: here }])),
            (LexState::Normal, LexTableEntry::SpaceNeedingToken(t)) => Ok((LexState::SpaceNeeding, seq![Token { kind: t, span: here }])),
            (LexState::Normal, LexTableEntry::Alphabetic) => Ok((LexState::Ident(here), Seq::empty())),
            (LexState::Ident(span), LexTableEntry::Alphabetic) => Ok((LexState::Ident(Span { start: span.start, end: here.end }), Seq::empty())),
            (_, LexTableEntry::Alphabetic) => Err(unexpected),
            (LexState::Normal, LexTableEntry::Numeric) => Ok((LexState::Number(here), Seq::empty())),
            (LexState::Ident(span), LexTableEntry::Numeric) => Ok((LexState::Ident(Span { start: span.start, end: here.end }), Seq::empty())),
            (LexState::Number(span), LexTableEntry::Numeric) => Ok((LexState::Number(Span { start: span.start, end: here.end }), Seq::empty())),
            (_, LexTableEntry::Numeric) => Err(unexpected),
            (_, LexTableEntry::Undefined) => Err(unknown),
            (LexState::SpaceNeeding, LexTableEntry::Split) => Ok((LexState::Normal, Seq::empty())),
            (LexState::SpaceNeeding, _) => Err(unexpected),
            (_, LexTableEntry::Split) => match finish_word(bytes, state) {
                Ok(ts) => Ok((LexState::Normal, ts)),
                Err(e) => Err(e),
            },
            (_, LexTableEntry::Token(t)) => match finish_word(bytes, state) {
                Ok(ts) => Ok((LexState::Normal, ts.push(Token { kind: t, span: here }))),
                Err(e) => Err(e),
            },
            (_, LexTableEntry::SpaceNeedingToken(t)) => match finish_word(bytes, state) {
                Ok(ts) => Ok((LexState::SpaceNeeding, ts.push(Token { kind: t, span: here }))),
                Err(e) => Err(e),
            },
        }
    }
}

/// The tokens of `bytes[pos..]` read from `state`, after `acc`, ending with
/// the end of file token; or the first error.
pub open spec fn lex_from(bytes: Seq<u8>, pos: int, state: LexState, acc: Seq<Token>) -> Result<Seq<Token>, GlobalErrorView>
    decreases bytes.len() - pos,
{
    if pos < 0 || pos >= bytes.len() {
        match finish_word(bytes, state) {
            Ok(ts) => Ok(acc + ts.push(Token { kind: TokenKind::EOF, span: Span { start: bytes.len() as usize, end: bytes.len() as usize } })),
            Err(e) => Err(e),
        }
    } else {
        match lex_step(bytes, pos, state) {
            Ok((next, ts)) => lex_from(bytes, pos + 1, next, acc + ts),
            Err(e) => Err(e),
        }
    }
}

/// The tokens of the input bytes, or the first error.
pub open spec fn lex_spec(bytes: Seq<u8>) -> Result<Seq<Token>, GlobalErrorView> {
    lex_from(bytes, 0, LexState::Normal, Seq::empty())
}

/// Whether every byte is ASCII.
pub open spec fn all_ascii(bytes: Seq<u8>) -> bool {
    forall|i: int| 0 <= i < bytes.len() ==> #[trigger] bytes[i] < 128
}

/// Whether no token is the end of file token.
pub open spec fn no_eof(tokens: Seq<Token>) -> bool {
    forall|i: int| 0 <= i < tokens.len() ==> !(#[trigger] tokens[i].kind is EOF)
}

/// Whether every token spans an ordered range of the first `n` bytes.
pub open spec fn spans_within(tokens: Seq<Token>, n: int) -> bool {
    forall|i: int| 0 <= i < tokens.len() ==> (#[trigger] tokens[i]).span.start <= tokens[i].span.end <= n
}

/// Whether the word a state is in the middle of spans an ordered range of
/// the first `n` bytes.
pub open spec fn state_within(state: LexState, n: int) -> bool {
    match state {
        LexState::Number(span) => span.start <= span.end <= n,
        LexState::Ident(span) => span.start <= span.end <= n,
        _ => true,
    }
}

/// The shape of the tokens of a lexed input: the end of file token comes
/// last, spanning the empty range at the end, and only there; every span
/// is an ordered range of the input.
pub open spec fn lexed_shape(tokens: Seq<Token>, n: int) -> bool {
    &&& tokens.len() > 0
    &&& tokens.last() == (Token { kind: TokenKind::EOF, span: Span { start: n as usize, end: n as usize } })
    &&& no_eof(tokens.drop_last())
    &&& spans_within(tokens, n)
    &&& spans_ordered(tokens)
}

/// Whether the tokens come in the order of the input: each one ends
/// before the next begins.
pub open spec fn spans_ordered(tokens: Seq<Token>) -> bool {
    forall|i: int, j: int| 0 <= i < j < tokens.len() ==> (#[trigger] tokens[i]).span.end <= (#[trigger] tokens[j]).span.start
}

/// Where the next token can begin at least: the start of the word the
/// lexer is in, else the position.
pub open spec fn word_start(state: LexState, pos: int) -> int {
    match state {
        LexState::Number(span) => span.start as int,
        LexState::Ident(span) => span.start as int,
        _ => pos,
    }
}

/// Whether the tokens come in input order, all begin at `lo` or later and
/// end at `hi` or earlier.
pub open spec fn ordered_between(tokens: Seq<Token>, lo: int, hi: int) -> bool {
    &&& spans_ordered(tokens)
    &&& forall|i: int| 0 <= i < tokens.len() ==> lo <= (#[trigger] tokens[i]).span.start && tokens[i].span.end <= hi
}

proof fn lemma_mask_not_eof(n: int, b: int, with_space: bool)
    requires
        n <= 10,
    ensures
        mask_upto(n, b, with_space) matches Some(k) ==> !(k is EOF),
    decreases n,
{
    if n > 0 {
        lemma_mask_not_eof(n - 1, b, with_space);
    }
}

proof fn lemma_find_keyword_not_eof(entries: Seq<(Seq<char>, TokenKind)>, text: Seq<char>)
    requires
        forall|i: int| 0 <= i < entries.len() ==> !((#[trigger] entries[i]).1 is EOF),
    ensures
        find_keyword(entries, text) matches Some(k) ==> !(k is EOF),
    decreases entries.len(),
{
    if entries.len() > 0 {
        let rest = entries.drop_first();
        assert forall|i: int| 0 <= i < rest.len() implies !((#[trigger] rest[i]).1 is EOF) by {
            assert(rest[i] == entries[i + 1]);
        }
        lemma_find_keyword_not_eof(rest, text);
    }
}

proof fn lemma_finish_word_shape(bytes: Seq<u8>, state: LexState, n: int)
    requires
        state_within(state, n),
    ensures
        finish_word(bytes, state) matches Ok(ts) ==> no_eof(ts) && spans_within(ts, n),
{
    if let LexState::Ident(span) = state {
        let text = byte_chars(bytes.subrange(span.start as int, span.end as int));
        let entries = keyword_entries();
        assert forall|i: int| 0 <= i < entries.len() implies !((#[trigger] entries[i]).1 is EOF) by {}
        lemma_find_keyword_not_eof(entries, text);
    }
}

proof fn lemma_step_shape(bytes: Seq<u8>, pos: int, state: LexState)
    requires
        0 <= pos < bytes.len() <= usize::MAX,
        state_within(state, pos),
    ensures
        lex_step(bytes, pos, state) matches Ok((next, ts)) ==> {
            &&& bytes[pos] < 128
            &&& no_eof(ts)
            &&& spans_within(ts, pos + 1)
            &&& state_within(next, pos + 1)
        },
{
    let b = bytes[pos];
    lemma_finish_word_shape(bytes, state, pos + 1);
    lemma_mask_not_eof(10, b as int, false);
    lemma_mask_not_eof(10, b as int, true);
    if let Ok((next, ts)) = lex_step(bytes, pos, state) {
        let here = at_byte(pos);
        match finish_word(bytes, state) {
            Ok(fw) => {
                assert forall|t: TokenKind| !(t is EOF) implies #[trigger] no_eof(fw.push(Token { kind: t, span: here }))
                    && spans_within(fw.push(Token { kind: t, span: here }), pos + 1) by {
                    let s = fw.push(Token { kind: t, span: here });
                    assert forall|i: int| 0 <= i < s.len() implies !(#[trigger] s[i].kind is EOF) by {
                        if i < fw.len() {
                            assert(s[i] == fw[i]);
                        }
                    }
                    assert forall|i: int| 0 <= i < s.len() implies (#[trigger] s[i]).span.start <= s[i].span.end <= pos + 1 by {
                        if i < fw.len() {
                            assert(s[i] == fw[i]);
                        }
                    }
                }
            },
            Err(_) => {},
        }
    }
}

proof fn lemma_ordered_concat(a: Seq<Token>, b: Seq<Token>, lo: int, mid: int, hi: int)
    requires
        lo <= mid <= hi,
        ordered_between(a, lo, mid),
        ordered_between(b, mid, hi),
    ensures
        ordered_between(a + b, lo, hi),
{
    let c = a + b;
    assert forall|i: int, j: int| 0 <= i < j < c.len() implies (#[trigger] c[i]).span.end <= (#[trigger] c[j]).span.start by {
        if j < a.len() {
            assert(c[i] == a[i] && c[j] == a[j]);
        } else if i < a.len() {
            assert(c[i] == a[i] && c[j] == b[j - a.len()]);
        } else {
            assert(c[i] == b[i - a.len()] && c[j] == b[j - a.len()]);
        }
    }
    assert forall|i: int| 0 <= i < c.len() implies lo <= (#[trigger] c[i]).span.start && c[i].span.end <= hi by {
        if i < a.len() {
            assert(c[i] == a[i]);
        } else {
            assert(c[i] == b[i - a.len()]);
        }
    }
}

proof fn lemma_step_order(bytes: Seq<u8>, pos: int, state: LexState)
    requires
        0 <= pos < bytes.len() <= usize::MAX,
        state_within(state, pos),
        word_start(state, pos) <= pos,
    ensures
        lex_step(bytes, pos, state) matches Ok((next, ts)) ==> {
            &&& ordered_between(ts, word_start(state, pos), word_start(next, pos + 1))
            &&& word_start(state, pos) <= word_start(next, pos + 1) <= pos + 1
        },
{
    if let Ok((next, ts)) = lex_step(bytes, pos, state) {
        let here = at_byte(pos);
        let lo = word_start(state, pos);
        match finish_word(bytes, state) {
            Ok(fw) => {
                assert(ordered_between(fw, lo, pos));
                assert forall|t: TokenKind| #[trigger] ordered_between(fw.push(Token { kind: t, span: here }), lo, pos + 1) by {
                    let one = seq![Token { kind: t, span: here }];
                    assert(ordered_between(one, pos, pos + 1));
                    lemma_ordered_concat(fw, one, lo, pos, pos + 1);
                    assert(fw + one =~= fw.push(Token { kind: t, span: here }));
                }
                assert(ordered_between(Seq::<Token>::empty(), lo, word_start(next, pos + 1)));
            },
            Err(_) => {},
        }
    }
}

proof fn lemma_lex_from_order(bytes: Seq<u8>, pos: int, state: LexState, acc: Seq<Token>)
    requires
        0 <= pos <= bytes.len() <= usize::MAX,
        state_within(state, pos),
        word_start(state, pos) <= pos,
        ordered_between(acc, 0, word_start(state, pos)),
        lex_from(bytes, pos, state, acc) is Ok,
    ensures
        spans_ordered(lex_from(bytes, pos, state, acc)->Ok_0),
    decreases bytes.len() - pos,
{
    let n = bytes.len() as int;
    let lo = word_start(state, pos);
    if pos >= n {
        let ts = finish_word(bytes, state)->Ok_0;
        let eof = Token { kind: TokenKind::EOF, span: Span { start: n as usize, end: n as usize } };
        assert(ordered_between(ts, lo, n));
        assert(ordered_between(seq![eof], n, n));
        lemma_ordered_concat(ts, seq![eof], lo, n, n);
        assert(ts + seq![eof] =~= ts.push(eof));
        lemma_ordered_concat(acc, ts.push(eof), 0, lo, n);
    } else {
        lemma_step_order(bytes, pos, state);
        lemma_step_shape(bytes, pos, state);
        let (next, ts) = lex_step(bytes, pos, state)->Ok_0;
        lemma_ordered_concat(acc, ts, 0, lo, word_start(next, pos + 1));
        lemma_lex_from_order(bytes, pos + 1, next, acc + ts);
    }
}

proof fn lemma_lex_from_shape(bytes: Seq<u8>, pos: int, state: LexState, acc: Seq<Token>)
    requires
        0 <= pos <= bytes.len() <= usize::MAX,
        state_within(state, pos),
        no_eof(acc),
        spans_within(acc, pos),
        all_ascii(bytes.take(pos)),
        lex_from(bytes, pos, state, acc) is Ok,
    ensures
        ({
            let ts = lex_from(bytes, pos, state, acc)->Ok_0;
            let n = bytes.len() as int;
            &&& ts.len() > 0
            &&& ts.last() == (Token { kind: TokenKind::EOF, span: Span { start: n as usize, end: n as usize } })
            &&& no_eof(ts.drop_last())
            &&& spans_within(ts, n)
        }),
        all_ascii(bytes),
    decreases bytes.len() - pos,
{
    let n = bytes.len() as int;
    if pos >= n {
        lemma_finish_word_shape(bytes, state, n);
        let ts = finish_word(bytes, state)->Ok_0;
        let eof = Token { kind: TokenKind::EOF, span: Span { start: n as usize, end: n as usize } };
        let all = acc + ts.push(eof);
        assert(all.drop_last() =~= acc + ts);
        assert forall|i: int| 0 <= i < all.len() - 1 implies !(#[trigger] all.drop_last()[i].kind is EOF) by {
            if i < acc.len() {
                assert(all.drop_last()[i] == acc[i]);
            } else {
                assert(all.drop_last()[i] == ts[i - acc.len()]);
            }
        }
        assert forall|i: int| 0 <= i < all.len() implies (#[trigger] all[i]).span.start <= all[i].span.end <= n by {
            if i < acc.len() {
                assert(all[i] == acc[i]);
            } else if i < acc.len() + ts.len() {
                assert(all[i] == ts[i - acc.len()]);
            }
        }
        assert(bytes.take(pos) =~= bytes);
    } else {
        lemma_step_shape(bytes, pos, state);
        let (next, ts) = lex_step(bytes, pos, state)->Ok_0;
        let acc2 = acc + ts;
        assert forall|i: int| 0 <= i < acc2.len() implies !(#[trigger] acc2[i].kind is EOF) by {
            if i < acc.len() {
                assert(acc2[i] == acc[i]);
            } else {
                assert(acc2[i] == ts[i - acc.len()]);
            }
        }
        assert forall|i: int| 0 <= i < acc2.len() implies (#[trigger] acc2[i]).span.start <= acc2[i].span.end <= pos + 1 by {
            if i < acc.len() {
                assert(acc2[i] == acc[i]);
            } else {
                assert(acc2[i] == ts[i - acc.len()]);
            }
        }
        assert forall|i: int| 0 <= i < pos + 1 implies #[trigger] bytes.take(pos + 1)[i] < 128 by {
            if i < pos {
                assert(bytes.take(pos + 1)[i] == bytes.take(pos)[i]);
            }
        }
        lemma_lex_from_shape(bytes, pos + 1, next, acc2);
    }
}

proof fn lemma_lex_from_error_span(bytes: Seq<u8>, pos: int, state: LexState, acc: Seq<Token>)
    requires
        0 <= pos <= bytes.len() <= usize::MAX,
        state_within(state, pos),
    ensures
        lex_from(bytes, pos, state, acc) matches Err(e) ==> e.span.start <= e.span.end <= bytes.len(),
    decreases bytes.len() - pos,
{
    if pos < bytes.len() {
        lemma_step_shape(bytes, pos, state);
        if let Ok((next, ts)) = lex_step(bytes, pos, state) {
            lemma_lex_from_error_span(bytes, pos + 1, next, acc + ts);
        }
    }
}

/// The error of an ASCII input that does not lex can be shown with the
/// input around it, where the end of the input leaves room for the look
/// after.
pub proof fn lex_errors_can_be_shown(input: &str)
    requires
        all_ascii(input.spec_bytes()),
        input.spec_bytes().len() + LOOK_AFTER <= usize::MAX,
    ensures
        lex_spec(input.spec_bytes()) matches Err(e) ==> location_ok(e.span, input),
{
    lemma_lex_from_error_span(input.spec_bytes(), 0, LexState::Normal, Seq::empty());
    if let Err(e) = lex_spec(input.spec_bytes()) {
        ascii_span_can_be_shown(input, e.span);
    }
}

/// Whether a byte is a letter.
pub open spec fn is_letter(b: u8) -> bool {
    classify_spec(b) is Alphabetic
}

/// Whether a byte is a letter or a digit.
pub open spec fn is_letter_or_digit(b: u8) -> bool {
    classify_spec(b) is Alphabetic || classify_spec(b) is Numeric
}

/// Whether the bytes form a word: a letter, then letters and digits.
pub open spec fn is_word(text: Seq<u8>) -> bool {
    &&& text.len() > 0
    &&& is_letter(text[0])
    &&& forall|i: int| 0 <= i < text.len() ==> is_letter_or_digit(#[trigger] text[i])
}

/// Whether a token stands for the bytes it spans: a number for its
/// digits and their value, an identifier for a word that is no keyword, a
/// keyword or single character token for its text, the end of file token
/// for nothing.
pub open spec fn token_spells(bytes: Seq<u8>, t: Token) -> bool {
    let text = bytes.subrange(t.span.start as int, t.span.end as int);
    match t.kind {
        TokenKind::Number(v) => text.len() > 0 && all_digits(text) && digits_value(text) == v,
        TokenKind::Ident => is_word(text) && keyword_kind(byte_chars(text)) is None,
        TokenKind::EOF => text.len() == 0,
        k => match token_keyword(k) {
            BoundTokenKeyword::String(s) => byte_chars(text) == s@,
            BoundTokenKeyword::Char(c) => text == seq![c as u8],
            BoundTokenKeyword::CharWithNeededSpace(c) => text == seq![c as u8],
            BoundTokenKeyword::Unbound => false,
        },
    }
}

/// Whether every token stands for the bytes it spans.
pub open spec fn all_spell(bytes: Seq<u8>, tokens: Seq<Token>) -> bool {
    forall|i: int| 0 <= i < tokens.len() ==> token_spells(bytes, #[trigger] tokens[i])
}

/// Whether the word a state is in the middle of is a number or word so far.
pub open spec fn word_so_far(bytes: Seq<u8>, pos: int, state: LexState) -> bool {
    match state {
        LexState::Number(span) => span.start < span.end == pos && all_digits(bytes.subrange(span.start as int, pos)),
        LexState::Ident(span) => span.start < span.end == pos && is_word(bytes.subrange(span.start as int, pos)),
        _ => true,
    }
}

proof fn lemma_mask_spells(n: int, b: int, with_space: bool)
    requires
        n <= 10,
    ensures
        mask_upto(n, b, with_space) matches Some(k) ==> {
            &&& !with_space ==> (token_keyword(k) matches BoundTokenKeyword::Char(c) && c as int == b)
            &&& with_space ==> (token_keyword(k) matches BoundTokenKeyword::CharWithNeededSpace(c) && c as int == b)
        },
    decreases n,
{
    if n > 0 {
        lemma_mask_spells(n - 1, b, with_space);
    }
}

proof fn lemma_keyword_spells(text: Seq<char>)
    ensures
        keyword_kind(text) matches Some(k) ==> (token_keyword(k) matches BoundTokenKeyword::String(s) && s@ == text),
{
    reveal_with_fuel(find_keyword, 6);
}

proof fn lemma_finish_word_spells(bytes: Seq<u8>, pos: int, state: LexState)
    requires
        0 <= pos <= bytes.len(),
        word_so_far(bytes, pos, state),
    ensures
        finish_word(bytes, state) matches Ok(ts) ==> all_spell(bytes, ts),
{
    if let LexState::Ident(span) = state {
        lemma_keyword_spells(byte_chars(bytes.subrange(span.start as int, span.end as int)));
    }
}

proof fn lemma_step_spells(bytes: Seq<u8>, pos: int, state: LexState)
    requires
        0 <= pos < bytes.len() <= usize::MAX,
        word_so_far(bytes, pos, state),
    ensures
        lex_step(bytes, pos, state) matches Ok((next, ts)) ==> {
            &&& word_so_far(bytes, pos + 1, next)
            &&& all_spell(bytes, ts)
        },
{
    let b = bytes[pos];
    lemma_finish_word_spells(bytes, pos, state);
    lemma_mask_spells(10, b as int, false);
    lemma_mask_spells(10, b as int, true);
    let here = at_byte(pos);
    assert(bytes.subrange(pos, pos + 1) =~= seq![b]);
    if let Ok((next, ts)) = lex_step(bytes, pos, state) {
        match state {
            LexState::Number(span) => {
                assert(bytes.subrange(span.start as int, pos + 1) =~= bytes.subrange(span.start as int, pos).push(b));
            },
            LexState::Ident(span) => {
                assert(bytes.subrange(span.start as int, pos + 1) =~= bytes.subrange(span.start as int, pos).push(b));
                assert(bytes.subrange(span.start as int, pos + 1)[0] == bytes.subrange(span.start as int, pos)[0]);
            },
            _ => {},
        }
        if let Ok(fw) = finish_word(bytes, state) {
            assert forall|t: TokenKind| token_spells(bytes, Token { kind: t, span: here })
                implies #[trigger] all_spell(bytes, fw.push(Token { kind: t, span: here })) by {
                let s2 = fw.push(Token { kind: t, span: here });
                assert forall|i: int| 0 <= i < s2.len() implies token_spells(bytes, #[trigger] s2[i]) by {
                    if i < fw.len() {
                        assert(s2[i] == fw[i]);
                    }
                }
            }
        }
    }
}

proof fn lemma_lex_from_spells(bytes: Seq<u8>, pos: int, state: LexState, acc: Seq<Token>)
    requires
        0 <= pos <= bytes.len() <= usize::MAX,
        word_so_far(bytes, pos, state),
        all_spell(bytes, acc),
        lex_from(bytes, pos, state, acc) is Ok,
    ensures
        all_spell(bytes, lex_from(bytes, pos, state, acc)->Ok_0),
    decreases bytes.len() - pos,
{
    let n = bytes.len() as int;
    if pos >= n {
        lemma_finish_word_spells(bytes, pos, state);
        let ts = finish_word(bytes, state)->Ok_0;
        let eof = Token { kind: TokenKind::EOF, span: Span { start: n as usize, end: n as usize } };
        let all = acc + ts.push(eof);
        assert forall|i: int| 0 <= i < all.len() implies token_spells(bytes, #[trigger] all[i]) by {
            if i < acc.len() {
                assert(all[i] == acc[i]);
            } else if i < acc.len() + ts.len() {
                assert(all[i] == ts[i - acc.len()]);
            } else {
                assert(all[i] == eof);
            }
        }
    } else {
        lemma_step_spells(bytes, pos, state);
        let (next, ts) = lex_step(bytes, pos, state)->Ok_0;
        let acc2 = acc + ts;
        assert forall|i: int| 0 <= i < acc2.len() implies token_spells(bytes, #[trigger] acc2[i]) by {
            if i < acc.len() {
                assert(acc2[i] == acc[i]);
            } else {
                assert(acc2[i] == ts[i - acc.len()]);
            }
        }
        lemma_lex_from_spells(bytes, pos + 1, next, acc2);
    }
}

/// Every token of a lexed input stands for the bytes it spans: a number
/// for its digits and their decimal value, an identifier for a word (a
/// letter, then letters and digits) that is no keyword, a keyword or a
/// single character token for its own text, and the end of file token
/// for nothing.
pub proof fn lexed_tokens_spell_input(bytes: Seq<u8>)
    requires
        bytes.len() <= usize::MAX,
        lex_spec(bytes) is Ok,
    ensures
        all_spell(bytes, lex_spec(bytes)->Ok_0),
{
    lemma_lex_from_spells(bytes, 0, LexState::Normal, Seq::empty());
}

/// Whether some token spans byte `k`.
pub open spec fn covered(tokens: Seq<Token>, k: int) -> bool {
    exists|i: int| 0 <= i < tokens.len() && (#[trigger] tokens[i]).span.start <= k < tokens[i].span.end
}

/// Whether a token kind is written as a word: an identifier, a number or a
/// keyword.
pub open spec fn is_word_kind(k: TokenKind) -> bool {
    k is Ident || k is Number || token_keyword(k) is String
}

/// Whether what follows a token in the input is allowed: no letter or
/// digit after a word (words are as long as they can be), and a space
/// after a minus; nothing needs to follow at the end of the input.
pub open spec fn followed_ok(bytes: Seq<u8>, t: Token) -> bool {
    let next = t.span.end as int;
    &&& is_word_kind(t.kind) && next < bytes.len() ==> !is_letter_or_digit(bytes[next])
    &&& t.kind is Minus && next < bytes.len() ==> bytes[next] == 32
}

/// Whether the bytes before `upto` are each spanned by a token or a space.
pub open spec fn spaces_between(bytes: Seq<u8>, tokens: Seq<Token>, upto: int) -> bool {
    forall|k: int| 0 <= k < upto ==> covered(tokens, k) || #[trigger] bytes[k] == 32
}

/// Whether every token is followed as allowed, but for a minus that ends
/// at `pos` while the lexer waits for the space after it.
pub open spec fn followed_so_far(bytes: Seq<u8>, tokens: Seq<Token>, pos: int, state: LexState) -> bool {
    forall|i: int| 0 <= i < tokens.len() ==> followed_ok(bytes, #[trigger] tokens[i])
        || (state is SpaceNeeding && tokens[i].kind is Minus && tokens[i].span.end == pos)
}

proof fn lemma_covered_concat(a: Seq<Token>, b: Seq<Token>, k: int)
    ensures
        covered(a, k) || covered(b, k) ==> covered(a + b, k),
{
    let c = a + b;
    if covered(a, k) {
        let i = choose|i: int| 0 <= i < a.len() && (#[trigger] a[i]).span.start <= k < a[i].span.end;
        assert(c[i] == a[i]);
    } else if covered(b, k) {
        let i = choose|i: int| 0 <= i < b.len() && (#[trigger] b[i]).span.start <= k < b[i].span.end;
        assert(c[a.len() + i] == b[i]);
    }
}

proof fn lemma_only_minus_needs_space(k: TokenKind)
    ensures
        token_keyword(k) is CharWithNeededSpace ==> k is Minus,
        token_keyword(k) is Char ==> !is_word_kind(k) && !(k is Minus),
{
}

proof fn lemma_step_layout(bytes: Seq<u8>, pos: int, state: LexState)
    requires
        0 <= pos < bytes.len() <= usize::MAX,
        word_so_far(bytes, pos, state),
    ensures
        lex_step(bytes, pos, state) matches Ok((next, ts)) ==> {
            &&& forall|k: int| word_start(state, pos) <= k < word_start(next, pos + 1) ==> covered(ts, k) || #[trigger] bytes[k] == 32
            &&& forall|i: int| 0 <= i < ts.len() ==> followed_ok(bytes, #[trigger] ts[i])
                || (next is SpaceNeeding && ts[i].kind is Minus && ts[i].span.end == pos + 1)
            &&& state is SpaceNeeding ==> bytes[pos] == 32
        },
{
    let b = bytes[pos];
    lemma_mask_spells(10, b as int, false);
    lemma_mask_spells(10, b as int, true);
    if let Ok((next, ts)) = lex_step(bytes, pos, state) {
        let here = at_byte(pos);
        let lo = word_start(state, pos);
        let c = classify_spec(b);
        if c is Split || c is Token || c is SpaceNeedingToken {
            assert(!is_letter_or_digit(b));
            let fw = finish_word(bytes, state)->Ok_0;
            if let LexState::Ident(span) = state {
                lemma_keyword_spells(byte_chars(bytes.subrange(span.start as int, span.end as int)));
            }
            assert forall|i: int| 0 <= i < fw.len() implies followed_ok(bytes, #[trigger] fw[i]) by {
                assert(fw[i].span.end == pos);
                assert(bytes[fw[i].span.end as int] == b);
            }
            assert forall|k: int| lo <= k < pos implies covered(fw, k) by {
                assert(fw[0].span.start <= k < fw[0].span.end);
            }
            match c {
                LexTableEntry::Split => {
                    assert(b == 32);
                    assert(ts =~= fw);
                },
                LexTableEntry::Token(t) => {
                    lemma_only_minus_needs_space(t);
                    let s2 = fw.push(Token { kind: t, span: here });
                    assert(ts =~= s2);
                    assert forall|i: int| 0 <= i < s2.len() implies followed_ok(bytes, #[trigger] s2[i]) by {
                        if i < fw.len() {
                            assert(s2[i] == fw[i]);
                        }
                    }
                    assert forall|k: int| lo <= k < pos + 1 implies covered(s2, k) by {
                        let one = seq![Token { kind: t, span: here }];
                        if k < pos {
                            assert(covered(fw, k));
                        } else {
                            assert(one[0].span.start <= k < one[0].span.end);
                            assert(covered(one, k));
                        }
                        lemma_covered_concat(fw, one, k);
                        assert(fw + one =~= s2);
                    }
                },
                LexTableEntry::SpaceNeedingToken(t) => {
                    lemma_only_minus_needs_space(t);
                    let s2 = fw.push(Token { kind: t, span: here });
                    assert(ts =~= s2);
                    assert forall|i: int| 0 <= i < s2.len() implies followed_ok(bytes, #[trigger] s2[i])
                        || (s2[i].kind is Minus && s2[i].span.end == pos + 1) by {
                        if i < fw.len() {
                            assert(s2[i] == fw[i]);
                        }
                    }
                    assert forall|k: int| lo <= k < pos + 1 implies covered(s2, k) by {
                        let one = seq![Token { kind: t, span: here }];
                        if k < pos {
                            assert(covered(fw, k));
                        } else {
                            assert(one[0].span.start <= k < one[0].span.end);
                            assert(covered(one, k));
                        }
                        lemma_covered_concat(fw, one, k);
                        assert(fw + one =~= s2);
                    }
                },
                _ => {},
            }
        }
    }
}

proof fn lemma_lex_from_layout(bytes: Seq<u8>, pos: int, state: LexState, acc: Seq<Token>)
    requires
        0 <= pos <= bytes.len() <= usize::MAX,
        word_so_far(bytes, pos, state),
        state_within(state, pos),
        word_start(state, pos) <= pos,
        spaces_between(bytes, acc, word_start(state, pos)),
        followed_so_far(bytes, acc, pos, state),
        lex_from(bytes, pos, state, acc) is Ok,
    ensures
        spaces_between(bytes, lex_from(bytes, pos, state, acc)->Ok_0, bytes.len() as int),
        forall|i: int| 0 <= i < lex_from(bytes, pos, state, acc)->Ok_0.len()
            ==> followed_ok(bytes, #[trigger] lex_from(bytes, pos, state, acc)->Ok_0[i]),
    decreases bytes.len() - pos,
{
    let n = bytes.len() as int;
    let lo = word_start(state, pos);
    if pos >= n {
        let ts = finish_word(bytes, state)->Ok_0;
        let eof = Token { kind: TokenKind::EOF, span: Span { start: n as usize, end: n as usize } };
        let tail = ts.push(eof);
        let all = acc + tail;
        assert forall|k: int| 0 <= k < n implies covered(all, k) || #[trigger] bytes[k] == 32 by {
            if k < lo {
                lemma_covered_concat(acc, tail, k);
            } else {
                assert(tail[0] == ts[0]);
                assert(tail[0].span.start <= k < tail[0].span.end);
                lemma_covered_concat(acc, tail, k);
            }
        }
        if let LexState::Ident(span) = state {
            lemma_keyword_spells(byte_chars(bytes.subrange(span.start as int, span.end as int)));
        }
        assert forall|i: int| 0 <= i < all.len() implies followed_ok(bytes, #[trigger] all[i]) by {
            if i < acc.len() {
                assert(all[i] == acc[i]);
            } else if i < acc.len() + ts.len() {
                assert(all[i] == ts[i - acc.len()]);
            } else {
                assert(all[i] == eof);
            }
        }
    } else {
        lemma_step_layout(bytes, pos, state);
        lemma_step_shape(bytes, pos, state);
        lemma_step_order(bytes, pos, state);
        lemma_step_spells(bytes, pos, state);
        let (next, ts) = lex_step(bytes, pos, state)->Ok_0;
        let acc2 = acc + ts;
        let lo2 = word_start(next, pos + 1);
        assert forall|k: int| 0 <= k < lo2 implies covered(acc2, k) || #[trigger] bytes[k] == 32 by {
            lemma_covered_concat(acc, ts, k);
        }
        assert forall|i: int| 0 <= i < acc2.len() implies followed_ok(bytes, #[trigger] acc2[i])
            || (next is SpaceNeeding && acc2[i].kind is Minus && acc2[i].span.end == pos + 1) by {
            if i < acc.len() {
                assert(acc2[i] == acc[i]);
                if !followed_ok(bytes, acc[i]) {
                    assert(state is SpaceNeeding && bytes[pos] == 32);
                }
            } else {
                assert(acc2[i] == ts[i - acc.len()]);
            }
        }
        lemma_lex_from_layout(bytes, pos + 1, next, acc2);
    }
}

/// How a lexed input is laid out around its tokens: every byte that no
/// token spans is a space; a word (identifier, number or keyword) is as
/// long as it can be, the byte after it being no letter or digit; and a
/// minus is followed by a space or by the end of the input.
pub proof fn lexed_input_layout(bytes: Seq<u8>)
    requires
        bytes.len() <= usize::MAX,
        lex_spec(bytes) is Ok,
    ensures
        spaces_between(bytes, lex_spec(bytes)->Ok_0, bytes.len() as int),
        forall|i: int| 0 <= i < lex_spec(bytes)->Ok_0.len() ==> followed_ok(bytes, #[trigger] lex_spec(bytes)->Ok_0[i]),
{
    lemma_lex_from_layout(bytes, 0, LexState::Normal, Seq::empty());
}

/// A lexed input is all ASCII, and its tokens have the shape of
/// `lexed_shape`: one end of file token, last, and ordered spans within
/// the input, one token after the other in the order of the input.
pub proof fn lex_output_shape(bytes: Seq<u8>)
    requires
        bytes.len() <= usize::MAX,
        lex_spec(bytes) is Ok,
    ensures
        all_ascii(bytes),
        lexed_shape(lex_spec(bytes)->Ok_0, bytes.len() as int),
{
    lemma_lex_from_shape(bytes, 0, LexState::Normal, Seq::empty());
    lemma_lex_from_order(bytes, 0, LexState::Normal, Seq::empty());
}

/// Whether the bytes are all decimal digits.
pub open spec fn all_digits(bytes: Seq<u8>) -> bool {
    forall|i: int| 0 <= i < bytes.len() ==> 48 <= #[trigger] bytes[i] <= 57
}

/// What a state in the middle of a word knows of the bytes read so far.
pub open spec fn state_wf(bytes: Seq<u8>, pos: int, state: LexState) -> bool {
    match state {
        LexState::Number(span) => span.start < span.end && span.end == pos && all_digits(bytes.subrange(span.start as int, span.end as int)),
        LexState::Ident(span) => span.start < span.end && span.end == pos,
        _ => true,
    }
}

/// A longer run of digits is worth at least as much.
proof fn lemma_digits_value_mono(digits: Seq<u8>, k: int)
    requires
        0 <= k <= digits.len(),
        all_digits(digits),
    ensures
        digits_value(digits.take(k)) <= digits_value(digits),
    decreases digits.len(),
{
    if k < digits.len() {
        let d = digits.drop_last();
        assert(all_digits(d)) by {
            assert forall|i: int| 0 <= i < d.len() implies 48 <= #[trigger] d[i] <= 57 by {
                assert(d[i] == digits[i]);
            }
        }
        lemma_digits_value_mono(d, k);
        assert(d.take(k) =~= digits.take(k));
        assert(48 <= digits[digits.len() - 1] <= 57);
    } else {
        assert(digits.take(k) =~= digits);
    }
}

/// The value of the digits `bytes[start..end]`, `None` when it does not
/// fit in `usize`.
fn parse_number(bytes: &[u8], start: usize, end: usize) -> (r: Option<usize>)
    requires
        start <= end <= bytes@.len(),
        all_digits(bytes@.subrange(start as int, end as int)),
    ensures
        ({
            let v = digits_value(bytes@.subrange(start as int, end as int));
            &&& v <= usize::MAX ==> r == Some(v as usize)
            &&& v > usize::MAX ==> r is None
        }),
{
    let ghost whole = bytes@.subrange(start as int, end as int);
    let mut value: usize = 0;
    let mut k: usize = start;
    while k < end
        invariant
            start <= k <= end <= bytes@.len(),
            whole == bytes@.subrange(start as int, end as int),
            all_digits(whole),
            value == digits_value(bytes@.subrange(start as int, k as int)),
        decreases end - k,
    {
        let ghost pre = bytes@.subrange(start as int, k as int);
        let ghost next = bytes@.subrange(start as int, k + 1);
        proof {
            assert(next.drop_last() =~= pre);
            assert(next.last() == whole[k - start]);
            assert(pre =~= whole.take(k - start));
            assert(next =~= whole.take(k + 1 - start));
            lemma_digits_value_mono(whole, k + 1 - start);
        }
        let d: usize = (bytes[k] - 48) as usize;
        let shifted = match value.checked_mul(10) {
            Some(x) => x,
            None => return None,
        };
        value = match shifted.checked_add(d) {
            Some(x) => x,
            None => return None,
        };
        k = k + 1;
    }
    Some(value)
}

/// Whether the text of `s` is the bytes `bytes[start..end]` read as characters.
fn str_matches_bytes(s: &str, bytes: &[u8], start: usize, end: usize) -> (r: bool)
    requires
        start <= end <= bytes@.len(),
    ensures
        r == (s@ == byte_chars(bytes@.subrange(start as int, end as int))),
{
    let ghost text = byte_chars(bytes@.subrange(start as int, end as int));
    let n = s.unicode_len();
    if n != end - start {
        return false;
    }
    let mut i: usize = 0;
    while i < n
        invariant
            n == s@.len(),
            n == end - start,
            start <= end <= bytes@.len(),
            text == byte_chars(bytes@.subrange(start as int, end as int)),
            i <= n,
            forall|j: int| 0 <= j < i ==> s@[j] == text[j],
        decreases n - i,
    {
        if s.get_char(i) != bytes[start + i] as char {
            assert(s@[i as int] != text[i as int]);
            return false;
        }
        i = i + 1;
    }
    assert(s@ =~= text);
    true
}

/// The keyword kind whose text is `bytes[start..end]`, if any.
fn find_keyword_kind(keyword_map: &Vec<(&'static str, TokenKind)>, bytes: &[u8], start: usize, end: usize) -> (r: Option<TokenKind>)
    requires
        start <= end <= bytes@.len(),
    ensures
        r == find_keyword(keyword_map_view(keyword_map@), byte_chars(bytes@.subrange(start as int, end as int))),
{
    let ghost text = byte_chars(bytes@.subrange(start as int, end as int));
    let ghost view = keyword_map_view(keyword_map@);
    let mut i: usize = 0;
    proof {
        assert(view.skip(0) =~= view);
    }
    while i < keyword_map.len()
        invariant
            i <= keyword_map@.len(),
            view == keyword_map_view(keyword_map@),
            start <= end <= bytes@.len(),
            text == byte_chars(bytes@.subrange(start as int, end as int)),
            find_keyword(view, text) == find_keyword(view.skip(i as int), text),
        decreases keyword_map@.len() - i,
    {
        let entry = keyword_map[i];
        proof {
            assert(view.skip(i as int)[0] == (entry.0@, entry.1));
            assert(view.skip(i as int).drop_first() =~= view.skip(i + 1));
        }
        if str_matches_bytes(entry.0, bytes, start, end) {
            return Some(entry.1);
        }
        i = i + 1;
    }
    None
}

/// The characters of the bytes `bytes[start..end]` as a string.
fn bytes_to_string(bytes: &[u8], start: usize, end: usize) -> (r: String)
    requires
        start <= end <= bytes@.len(),
    ensures
        r@ == byte_chars(bytes@.subrange(start as int, end as int)),
{
    let mut s = String::new();
    let mut k: usize = start;
    while k < end
        invariant
            start <= k <= end <= bytes@.len(),
            s@ == byte_chars(bytes@.subrange(start as int, k as int)),
        decreases end - k,
    {
        push_char(&mut s, bytes[k] as char);
        proof {
            assert(s@ =~= byte_chars(bytes@.subrange(start as int, k + 1)));
        }
        k = k + 1;
    }
    s
}

/// Turns a finished number or word into its token.
fn handle_string_end(
    state: LexState,
    token_vec: &mut Vec<Token>,
    keyword_map: &Vec<(&'static str, TokenKind)>,
    bytes: &[u8],
) -> (r: Result<(), GlobalError>)
    requires
        keyword_map_view(keyword_map@) == keyword_entries(),
        state matches LexState::Number(span) ==> span.start <= span.end <= bytes@.len() && all_digits(bytes@.subrange(span.start as int, span.end as int)),
        state matches LexState::Ident(span) ==> span.start <= span.end <= bytes@.len(),
    ensures
        match finish_word(bytes@, state) {
            Ok(ts) => r is Ok && final(token_vec)@ == old(token_vec)@ + ts,
            Err(e) => r is Err && r->Err_0@ == e,
        },
{
    match state {
        LexState::Number(span) => {
            match parse_number(bytes, span.start, span.end) {
                Some(number) => {
                    let token = Token { kind: TokenKind::Number(number), span };
                    token_vec.push(token);
                    proof {
                        assert(final(token_vec)@ =~= old(token_vec)@ + seq![token]);
                    }
                },
                None => {
                    let lexeme = bytes_to_string(bytes, span.start, span.end);
                    return Err(GlobalError::lex(LexErrorKind::ConversionError("number".to_owned(), lexeme), span));
                },
            }
        },
        LexState::Ident(span) => {
            let kind = match find_keyword_kind(keyword_map, bytes, span.start, span.end) {
                Some(kind) => kind,
                None => TokenKind::Ident,
            };
            let token = Token { kind, span };
            token_vec.push(token);
            proof {
                assert(final(token_vec)@ =~= old(token_vec)@ + seq![token]);
            }
        },
        _ => {
            proof {
                assert(final(token_vec)@ =~= old(token_vec)@ + Seq::<Token>::empty());
            }
        },
    }
    Ok(())
}

/// Reads the byte `bytes[position]` (ASCII, of table entry `lex_entry`)
/// in state `lex_state`: pushes the tokens it completes and gives the next
/// state.
fn lex_transition(
    lex_state: LexState,
    lex_entry: LexTableEntry,
    bytes: &[u8],
    position: usize,
    lexed_tokens: &mut Vec<Token>,
    keyword_map: &Vec<(&'static str, TokenKind)>,
) -> (r: Result<LexState, GlobalError>)
    requires
        position < bytes@.len(),
        bytes@[position as int] < 128,
        lex_entry == classify_spec(bytes@[position as int]),
        keyword_map_view(keyword_map@) == keyword_entries(),
        state_wf(bytes@, position as int, lex_state),
    ensures
        match lex_step(bytes@, position as int, lex_state) {
            Ok((next, ts)) => r == Ok::<LexState, GlobalError>(next) && final(lexed_tokens)@ == old(lexed_tokens)@ + ts,
            Err(e) => r is Err && r->Err_0@ == e,
        },
{
    let next_elem = bytes[position];
    let here = Span { start: position, end: position + 1 };
    proof {
        if let LexState::Number(span) = lex_state {
            assert(bytes@.subrange(span.start as int, position + 1) =~= bytes@.subrange(span.start as int, position as int).push(next_elem));
        }
    }
    let ghost old_tokens = lexed_tokens@;
    match (lex_state, lex_entry) {
        (LexState::Normal, LexTableEntry::Split) => {
            proof { assert(lexed_tokens@ =~= old_tokens + Seq::<Token>::empty()); }
            Ok(LexState::Normal)
        },
        (LexState::Normal, LexTableEntry::Token(token)) => {
            lexed_tokens.push(Token { kind: token, span: here });
            proof { assert(lexed_tokens@ =~= old_tokens + seq![Token { kind: token, span: here }]); }
            Ok(LexState::Normal)
        },
        (LexState::Normal, LexTableEntry::SpaceNeedingToken(token)) => {
            lexed_tokens.push(Token { kind: token, span: here });
            proof { assert(lexed_tokens@ =~= old_tokens + seq![Token { kind: token, span: here }]); }
            Ok(LexState::SpaceNeeding)
        },
        (LexState::Normal, LexTableEntry::Alphabetic) => {
            proof { assert(lexed_tokens@ =~= old_tokens + Seq::<Token>::empty()); }
            Ok(LexState::Ident(here))
        },
        (LexState::Ident(span), LexTableEntry::Alphabetic) => {
            proof { assert(lexed_tokens@ =~= old_tokens + Seq::<Token>::empty()); }
            Ok(LexState::Ident(Span { start: span.start, end: position + 1 }))
        },
        (_, LexTableEntry::Alphabetic) => Err(GlobalError::lex(LexErrorKind::UnexpectedCharacter(next_elem as char), here)),
        (LexState::Normal, LexTableEntry::Numeric) => {
            proof { assert(lexed_tokens@ =~= old_tokens + Seq::<Token>::empty()); }
            Ok(LexState::Number(here))
        },
        (LexState::Ident(span), LexTableEntry::Numeric) => {
            proof { assert(lexed_tokens@ =~= old_tokens + Seq::<Token>::empty()); }
            Ok(LexState::Ident(Span { start: span.start, end: position + 1 }))
        },
        (LexState::Number(span), LexTableEntry::Numeric) => {
            proof { assert(lexed_tokens@ =~= old_tokens + Seq::<Token>::empty()); }
            Ok(LexState::Number(Span { start: span.start, end: position + 1 }))
        },
        (_, LexTableEntry::Numeric) => Err(GlobalError::lex(LexErrorKind::UnexpectedCharacter(next_elem as char), here)),
        (_, LexTableEntry::Undefined) => Err(GlobalError::lex(LexErrorKind::UnknownCharacter(next_elem as char), here)),
        (LexState::SpaceNeeding, LexTableEntry::Split) => {
            proof { assert(lexed_tokens@ =~= old_tokens + Seq::<Token>::empty()); }
            Ok(LexState::Normal)
        },
        (LexState::SpaceNeeding, _) => Err(GlobalError::lex(LexErrorKind::UnexpectedCharacter(next_elem as char), here)),
        (word, LexTableEntry::Split) => {
            match handle_string_end(word, lexed_tokens, keyword_map, bytes) {
                Ok(()) => {},
                Err(e) => return Err(e),
            }
            Ok(LexState::Normal)
        },
        (word, LexTableEntry::Token(token_kind)) => {
            match handle_string_end(word, lexed_tokens, keyword_map, bytes) {
                Ok(()) => {},
                Err(e) => return Err(e),
            }
            let ghost mid = lexed_tokens@;
            lexed_tokens.push(Token { kind: token_kind, span: here });
            proof { assert(lexed_tokens@ =~= old_tokens + (mid.subrange(old_tokens.len() as int, mid.len() as int)).push(Token { kind: token_kind, span: here })); }
            Ok(LexState::Normal)
        },
        (word, LexTableEntry::SpaceNeedingToken(token_kind)) => {
            match handle_string_end(word, lexed_tokens, keyword_map, bytes) {
                Ok(()) => {},
                Err(e) => return Err(e),
            }
            let ghost mid = lexed_tokens@;
            lexed_tokens.push(Token { kind: token_kind, span: here });
            proof { assert(lexed_tokens@ =~= old_tokens + (mid.subrange(old_tokens.len() as int, mid.len() as int)).push(Token { kind: token_kind, span: here })); }
            Ok(LexState::SpaceNeeding)
        },
    }
}

/// tokenization function for transforming string into token vector
/// Assumes ASCII input only.
/// Non-ASCII input will lead to error
///
/// when file does not follow its function you get an LexError
pub fn lex_ascii(input_str: &str) -> (r: Result<Vec<Token>, GlobalError>)
    ensures
        match lex_spec(input_str.spec_bytes()) {
            Ok(ts) => r is Ok && r->Ok_0@ == ts,
            Err(e) => r is Err && r->Err_0@ == e,
        },
        r is Ok ==> all_ascii(input_str.spec_bytes()),
        r matches Ok(ts) ==> lexed_shape(ts@, input_str.spec_bytes().len() as int),
        r matches Ok(ts) ==> all_spell(input_str.spec_bytes(), ts@),
        r matches Ok(ts) ==> spaces_between(input_str.spec_bytes(), ts@, input_str.spec_bytes().len() as int),
        r matches Ok(ts) ==> forall|i: int| 0 <= i < ts@.len() ==> followed_ok(input_str.spec_bytes(), #[trigger] ts@[i]),
        (exists|layout: Seq<Token>| laid_out(input_str.spec_bytes(), layout)) ==> r is Ok,
{
    proof {
        if exists|layout: Seq<Token>| laid_out(input_str.spec_bytes(), layout) {
            let layout = choose|layout: Seq<Token>| laid_out(input_str.spec_bytes(), layout);
            laid_out_input_lexes(input_str.spec_bytes(), layout);
        }
    }
    let bytes = input_str.as_bytes();
    let ghost bs = bytes@;
    let mut lexed_tokens: Vec<Token> = Vec::new();
    let lex_table = LexTable::new();
    let keyword_map = get_keyword_map();
    let mut lex_state = LexState::Normal;
    let mut position: usize = 0;
    // iterate over the bytes of the input
    while position < bytes.len()
        invariant
            bs == bytes@,
            bs == input_str.spec_bytes(),
            position <= bytes@.len(),
            lex_table.wf(),
            keyword_map_view(keyword_map@) == keyword_entries(),
            state_wf(bs, position as int, lex_state),
            lex_spec(bs) == lex_from(bs, position as int, lex_state, lexed_tokens@),
            (exists|layout: Seq<Token>| laid_out(bs, layout)) ==> lex_spec(bs) is Ok,
        decreases bytes@.len() - position,
    {
        let next_elem = bytes[position];
        // return non ASCII characters
        if next_elem >= 128 {
            return Err(GlobalError::lex(LexErrorKind::UnknownCharacter(next_elem as char), Span { start: position, end: position + 1 }));
        }
        let lex_entry = *lex_table.classify(next_elem);
        lex_state = match lex_transition(lex_state, lex_entry, bytes, position, &mut lexed_tokens, &keyword_map) {
            Ok(next) => next,
            Err(e) => return Err(e),
        };
        position = position + 1;
    }
    // handle end state
    match handle_string_end(lex_state, &mut lexed_tokens, &keyword_map, bytes) {
        Ok(()) => {},
        Err(e) => return Err(e),
    }
    // add end of file token
    let len = input_str.len();
    let ghost before_eof = lexed_tokens@;
    lexed_tokens.push(Token { kind: TokenKind::EOF, span: Span { start: len, end: len } });
    proof {
        lex_output_shape(bs);
        lexed_tokens_spell_input(bs);
        lexed_input_layout(bs);
    }
    Ok(lexed_tokens)
}

} // verus!
