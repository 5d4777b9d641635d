//! The lexer accepts every input laid out as tokens: where the bytes can
//! be split into tokens that spell their text, with only spaces between
//! them, words as long as they can be and a space after each minus, lexing
//! succeeds.
use vstd::prelude::*;

use crate::lexer::lex::{
    all_spell, byte_chars, followed_ok, is_letter, is_letter_or_digit, lex_from, lex_spec, lex_step, spaces_between,
    spans_ordered, spans_within, token_spells, LexState,
};
use crate::lexer::lex_table::{classify_gives_back_its_token, classify_spec, letters_digits_and_space_classified, LexTableEntry};
use crate::lexer::token::{token_keyword, BoundTokenKeyword, Token, TokenKind};

verus! {

/// Whether the bytes are laid out as the tokens `ts`: the tokens come in
/// order within the input, each spells its text, every other byte is a
/// space, and each token is followed as allowed.
pub open spec fn laid_out(bytes: Seq<u8>, ts: Seq<Token>) -> bool {
    &&& bytes.len() <= usize::MAX
    &&& spans_ordered(ts)
    &&& spans_within(ts, bytes.len() as int)
    &&& all_spell(bytes, ts)
    &&& spaces_between(bytes, ts, bytes.len() as int)
    &&& forall|i: int| 0 <= i < ts.len() ==> followed_ok(bytes, #[trigger] ts[i])
}

/// Whether a token kind is written as a word read by the lexer's
/// identifier state: an identifier or a keyword.
pub open spec fn is_name_kind(k: TokenKind) -> bool {
    k is Ident || token_keyword(k) is String
}

/// Whether token `t` spans byte `k`.
pub open spec fn spans(t: Token, k: int) -> bool {
    t.span.start <= k < t.span.end
}

/// What the bytes of a token that spells its text are to the lexer.
proof fn lemma_token_bytes(bytes: Seq<u8>, t: Token, k: int)
    requires
        token_spells(bytes, t),
        t.span.start <= k < t.span.end <= bytes.len(),
    ensures
        bytes[k] != 32,
        bytes[k] < 128,
        is_name_kind(t.kind) ==> is_letter_or_digit(bytes[k]) && (k == t.span.start ==> is_letter(bytes[k])),
        t.kind is Number ==> classify_spec(bytes[k]) == LexTableEntry::Numeric,
        token_keyword(t.kind) is Char ==> t.span.end == t.span.start + 1 && classify_spec(bytes[k]) == LexTableEntry::Token(t.kind),
        token_keyword(t.kind) is CharWithNeededSpace ==> t.span.end == t.span.start + 1
            && classify_spec(bytes[k]) == LexTableEntry::SpaceNeedingToken(t.kind),
{
    let text = bytes.subrange(t.span.start as int, t.span.end as int);
    let j = k - t.span.start;
    assert(text[j] == bytes[k]);
    let b = bytes[k];
    letters_digits_and_space_classified(b);
    classify_gives_back_its_token(t.kind);
    reveal_strlit("let");
    reveal_strlit("LOOP");
    reveal_strlit("END");
    reveal_strlit("DO");
    reveal_strlit("print");
    if t.kind is Number {
        assert(48 <= text[j] <= 57);
        assert(b != 32);
    } else if t.kind is Ident {
        assert(is_letter_or_digit(text[j]));
        assert(is_letter(text[0]));
        assert(b != 32);
    } else if token_keyword(t.kind) is String {
        assert(byte_chars(text)[j] == (b as char));
        assert(byte_chars(text).len() == text.len());
        if t.kind is Let {
            assert(j == 0 || j == 1 || j == 2);
        } else if t.kind is Loop {
            assert(j == 0 || j == 1 || j == 2 || j == 3);
        } else if t.kind is End {
            assert(j == 0 || j == 1 || j == 2);
        } else if t.kind is Do {
            assert(j == 0 || j == 1);
        } else {
            assert(j == 0 || j == 1 || j == 2 || j == 3 || j == 4);
        }
    } else {
        assert(text.len() == 1);
    }
}

/// Two tokens in input order that span the same byte are one token.
proof fn lemma_one_token_per_byte(ts: Seq<Token>, i: int, j: int, k: int)
    requires
        spans_ordered(ts),
        0 <= i < ts.len(),
        0 <= j < ts.len(),
        spans(ts[i], k),
        spans(ts[j], k),
    ensures
        i == j,
{
    if i < j {
        assert(ts[i].span.end <= ts[j].span.start);
    } else if j < i {
        assert(ts[j].span.end <= ts[i].span.start);
    }
}

/// Where the lexer stands against the layout: in the normal state no
/// token runs across `pos`; after a minus, `ts[w]` is that minus ending at
/// `pos`; in a word, `ts[w]` is the token the word began, reaching `pos`.
pub open spec fn in_step(ts: Seq<Token>, pos: int, state: LexState, w: int) -> bool {
    match state {
        LexState::Normal => forall|i: int| 0 <= i < ts.len() ==> !((#[trigger] ts[i]).span.start < pos < ts[i].span.end),
        LexState::SpaceNeeding => 0 <= w < ts.len() && ts[w].kind is Minus && ts[w].span.end == pos,
        LexState::Ident(span) => {
            &&& 0 <= w < ts.len()
            &&& ts[w].span.start == span.start < span.end == pos <= ts[w].span.end
            &&& is_name_kind(ts[w].kind)
        },
        LexState::Number(span) => {
            &&& 0 <= w < ts.len()
            &&& ts[w].span.start == span.start < span.end == pos <= ts[w].span.end
            &&& ts[w].kind is Number
        },
    }
}

proof fn lemma_complete(bytes: Seq<u8>, ts: Seq<Token>, pos: int, state: LexState, acc: Seq<Token>, w: int)
    requires
        laid_out(bytes, ts),
        0 <= pos <= bytes.len(),
        in_step(ts, pos, state, w),
    ensures
        lex_from(bytes, pos, state, acc) is Ok,
    decreases bytes.len() - pos,
{
    let n = bytes.len() as int;
    if pos >= n {
        if let LexState::Number(span) = state {
            assert(token_spells(bytes, ts[w]));
        }
    } else {
        let b = bytes[pos];
        letters_digits_and_space_classified(b);
        if state is SpaceNeeding {
            assert(followed_ok(bytes, ts[w]));
        }
        if b == 32 {
            assert forall|i: int| 0 <= i < ts.len() implies !spans(#[trigger] ts[i], pos) by {
                if spans(ts[i], pos) {
                    lemma_token_bytes(bytes, ts[i], pos);
                }
            }
            match state {
                LexState::Number(span) => {
                    assert(!spans(ts[w], pos));
                    assert(token_spells(bytes, ts[w]));
                },
                LexState::Ident(span) => {
                    assert(!spans(ts[w], pos));
                },
                _ => {},
            }
            assert(lex_step(bytes, pos, state) is Ok);
            let (next, tsx) = lex_step(bytes, pos, state)->Ok_0;
            assert(next is Normal);
            assert forall|i: int| 0 <= i < ts.len() implies !((#[trigger] ts[i]).span.start < pos + 1 < ts[i].span.end) by {
                assert(!spans(ts[i], pos));
            }
            lemma_complete(bytes, ts, pos + 1, next, acc + tsx, 0);
        } else {
            assert(crate::lexer::lex::covered(ts, pos) || bytes[pos] == 32);
            let j = choose|j: int| 0 <= j < ts.len() && (#[trigger] ts[j]).span.start <= pos < ts[j].span.end;
            let t = ts[j];
            assert(spans(t, pos));
            assert(token_spells(bytes, t));
            lemma_token_bytes(bytes, t, pos);
            classify_gives_back_its_token(t.kind);
            if token_keyword(t.kind) is Char || token_keyword(t.kind) is CharWithNeededSpace {
                match state {
                    LexState::Number(span) => {
                        if spans(ts[w], pos) {
                            lemma_one_token_per_byte(ts, w, j, pos);
                        }
                        assert(token_spells(bytes, ts[w]));
                    },
                    LexState::Ident(span) => {
                        if spans(ts[w], pos) {
                            lemma_one_token_per_byte(ts, w, j, pos);
                        }
                    },
                    LexState::Normal => {
                        assert(!(t.span.start < pos));
                    },
                    _ => {},
                }
                assert(lex_step(bytes, pos, state) is Ok);
                let (next, tsx) = lex_step(bytes, pos, state)->Ok_0;
                if next is Normal {
                    assert forall|i: int| 0 <= i < ts.len() implies !((#[trigger] ts[i]).span.start < pos + 1 < ts[i].span.end) by {
                        if ts[i].span.start < pos + 1 < ts[i].span.end {
                            lemma_one_token_per_byte(ts, i, j, pos);
                        }
                    }
                    lemma_complete(bytes, ts, pos + 1, next, acc + tsx, 0);
                } else {
                    assert(t.kind is Minus);
                    lemma_complete(bytes, ts, pos + 1, next, acc + tsx, j);
                }
            } else if t.span.start == pos {
                match state {
                    LexState::Number(span) => {
                        if j < w {
                            assert(ts[j].span.end <= ts[w].span.start);
                        }
                        if w < j {
                            assert(ts[w].span.end <= ts[j].span.start);
                        }
                        assert(followed_ok(bytes, ts[w]));
                        assert(false);
                    },
                    LexState::Ident(span) => {
                        if j < w {
                            assert(ts[j].span.end <= ts[w].span.start);
                        }
                        if w < j {
                            assert(ts[w].span.end <= ts[j].span.start);
                        }
                        assert(followed_ok(bytes, ts[w]));
                        assert(false);
                    },
                    _ => {},
                }
                assert(lex_step(bytes, pos, state) is Ok);
                let (next, tsx) = lex_step(bytes, pos, state)->Ok_0;
                lemma_complete(bytes, ts, pos + 1, next, acc + tsx, j);
            } else {
                match state {
                    LexState::Number(span) => {
                        assert(spans(ts[w], pos - 1));
                        assert(spans(t, pos - 1));
                        lemma_one_token_per_byte(ts, w, j, pos - 1);
                    },
                    LexState::Ident(span) => {
                        assert(spans(ts[w], pos - 1));
                        assert(spans(t, pos - 1));
                        lemma_one_token_per_byte(ts, w, j, pos - 1);
                    },
                    LexState::Normal => {
                        assert(!(ts[j].span.start < pos < ts[j].span.end));
                    },
                    _ => {},
                }
                assert(lex_step(bytes, pos, state) is Ok);
                let (next, tsx) = lex_step(bytes, pos, state)->Ok_0;
                lemma_complete(bytes, ts, pos + 1, next, acc + tsx, w);
            }
        }
    }
}

/// Every input laid out as tokens lexes: where the bytes can be split into
/// tokens in input order that spell their text (keywords, identifiers,
/// numbers that fit in `usize`, single character tokens), with only
/// spaces between them, each word as long as it can be and each minus
/// followed by a space, lexing succeeds. So a single character token may
/// follow a number or an identifier directly, and words may be separated
/// by any number of spaces.
pub proof fn laid_out_input_lexes(bytes: Seq<u8>, ts: Seq<Token>)
    requires
        laid_out(bytes, ts),
    ensures
        lex_spec(bytes) is Ok,
{
    lemma_complete(bytes, ts, 0, LexState::Normal, Seq::empty(), 0);
}

} // verus!
