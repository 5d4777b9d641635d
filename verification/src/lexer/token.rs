//! Tokens produced by the lexical analysis: a kind and the span of bytes
//! of the input it was read from.
use vstd::prelude::*;
use vstd::string::StringSliceAdditionalSpecFns;

use crate::text::{slice_str, sliceable, str_slice};

verus! {

/// Span for token start and end, as byte positions in the input.
#[derive(Debug, Clone, Copy, PartialEq, Eq, Structural)]
pub struct Span {
    pub start: usize,
    pub end: usize,
}

/// Token used for the lexing process
#[derive(Debug, Clone, Copy, PartialEq, Eq, Structural)]
pub enum TokenKind {
    // Keyword like Tokens with meaning
    Let,
    Equal,
    Plus,
    Minus,
    Newline,
    Semicolon,
    Loop,
    End,
    Do,
    Print,
    // Tokens
    Ident,
    Number(usize),
    EOF,
}

/// Token given from the lexical analysis
#[derive(Debug, Clone, Copy, PartialEq, Eq, Structural)]
pub struct Token {
    pub kind: TokenKind,
    pub span: Span,
}

impl Token {
    /// The text of the input that the token was read from.
    pub fn lexeme<'a>(&self, input: &'a str) -> (r: &'a str)
        requires
            sliceable(input, self.span.start as int, self.span.end as int),
        ensures
            r.spec_bytes() == input.spec_bytes().subrange(self.span.start as int, self.span.end as int),
            r@ == str_slice(input, self.span.start as int, self.span.end as int),
    {
        let r = slice_str(input, self.span.start, self.span.end);
        proof {
            vstd::utf8::encode_utf8_decode_utf8(r@);
        }
        r
    }
}

/// Tokens that are fixed (keywords and single character tokens)
pub const CONSTANT_TOKENS: [TokenKind; 10] = [
    TokenKind::Let,
    TokenKind::Equal,
    TokenKind::Plus,
    TokenKind::Minus,
    TokenKind::Newline,
    TokenKind::Semicolon,
    TokenKind::Loop,
    TokenKind::End,
    TokenKind::Do,
    TokenKind::Print,
];

/// Non Ident and Number Tokens for iterating over it
pub const KEYWORD_TOKEN: [TokenKind; 5] = [
    TokenKind::Let,
    TokenKind::Loop,
    TokenKind::End,
    TokenKind::Do,
    TokenKind::Print,
];

/// To a TokenKind associated keyword or char
#[derive(Debug, Clone, Copy)]
pub enum BoundTokenKeyword {
    /// no keyword or character: the token kind is read from its content
    Unbound,
    Char(char),
    CharWithNeededSpace(char),
    String(&'static str),
}

/// The keyword or character a token kind is written as.
pub open spec fn token_keyword(token: TokenKind) -> BoundTokenKeyword {
    match token {
        TokenKind::Let => BoundTokenKeyword::String("let"),
        TokenKind::Equal => BoundTokenKeyword::Char('='),
        TokenKind::Plus => BoundTokenKeyword::Char('+'),
        TokenKind::Minus => BoundTokenKeyword::CharWithNeededSpace('-'),
        TokenKind::Newline => BoundTokenKeyword::Char('\n'),
        TokenKind::Semicolon => BoundTokenKeyword::Char(';'),
        TokenKind::Loop => BoundTokenKeyword::String("LOOP"),
        TokenKind::End => BoundTokenKeyword::String("END"),
        TokenKind::Do => BoundTokenKeyword::String("DO"),
        TokenKind::Print => BoundTokenKeyword::String("print"),
        TokenKind::Ident => BoundTokenKeyword::Unbound,
        TokenKind::Number(_) => BoundTokenKeyword::Unbound,
        TokenKind::EOF => BoundTokenKeyword::Unbound,
    }
}

/// A copy of the token kind.
pub fn get_token_kind_clone(token: &TokenKind) -> (r: TokenKind)
    ensures
        r == *token,
{
    match token {
        TokenKind::Let => TokenKind::Let,
        TokenKind::Equal => TokenKind::Equal,
        TokenKind::Plus => TokenKind::Plus,
        TokenKind::Minus => TokenKind::Minus,
        TokenKind::Newline => TokenKind::Newline,
        TokenKind::Semicolon => TokenKind::Semicolon,
        TokenKind::Loop => TokenKind::Loop,
        TokenKind::End => TokenKind::End,
        TokenKind::Do => TokenKind::Do,
        TokenKind::Print => TokenKind::Print,
        TokenKind::Ident => TokenKind::Ident,
        TokenKind::Number(x) => TokenKind::Number(*x),
        TokenKind::EOF => TokenKind::EOF,
    }
}

/// mapping of special to their strings
pub fn get_token_keyword(token: &TokenKind) -> (r: BoundTokenKeyword)
    ensures
        r == token_keyword(*token),
{
    match token {
        TokenKind::Let => BoundTokenKeyword::String("let"),
        TokenKind::Equal => BoundTokenKeyword::Char('='),
        TokenKind::Plus => BoundTokenKeyword::Char('+'),
        TokenKind::Minus => BoundTokenKeyword::CharWithNeededSpace('-'),
        TokenKind::Newline => BoundTokenKeyword::Char('\n'),
        TokenKind::Semicolon => BoundTokenKeyword::Char(';'),
        TokenKind::Loop => BoundTokenKeyword::String("LOOP"),
        TokenKind::End => BoundTokenKeyword::String("END"),
        TokenKind::Do => BoundTokenKeyword::String("DO"),
        TokenKind::Print => BoundTokenKeyword::String("print"),
        TokenKind::Ident => BoundTokenKeyword::Unbound,
        TokenKind::Number(_) => BoundTokenKeyword::Unbound,
        TokenKind::EOF => BoundTokenKeyword::Unbound,
    }
}

/// The keyword kinds with their texts, in the order of `KEYWORD_TOKEN`.
pub open spec fn keyword_entries() -> Seq<(Seq<char>, TokenKind)> {
    seq![
        ("let"@, TokenKind::Let),
        ("LOOP"@, TokenKind::Loop),
        ("END"@, TokenKind::End),
        ("DO"@, TokenKind::Do),
        ("print"@, TokenKind::Print),
    ]
}

/// The keyword a text spells, if any (the first in `entries` with it).
pub open spec fn find_keyword(entries: Seq<(Seq<char>, TokenKind)>, text: Seq<char>) -> Option<TokenKind>
    decreases entries.len(),
{
    if entries.len() == 0 {
        None
    } else if entries[0].0 == text {
        Some(entries[0].1)
    } else {
        find_keyword(entries.drop_first(), text)
    }
}

/// The keyword token kind a text spells, if any.
pub open spec fn keyword_kind(text: Seq<char>) -> Option<TokenKind> {
    find_keyword(keyword_entries(), text)
}

/// Each keyword is read back as the token kind it is written for: the
/// keyword lookup inverts `get_token_keyword` on keywords.
pub proof fn keyword_gives_back_its_kind(k: TokenKind)
    ensures
        token_keyword(k) matches BoundTokenKeyword::String(s) ==> keyword_kind(s@) == Some(k),
{
    reveal_strlit("let");
    reveal_strlit("LOOP");
    reveal_strlit("END");
    reveal_strlit("DO");
    reveal_strlit("print");
    reveal_with_fuel(find_keyword, 6);
    assert("let"@[0] == 'l' && "LOOP"@[0] == 'L' && "END"@[0] == 'E' && "DO"@[0] == 'D' && "print"@[0] == 'p');
}

/// The texts and kinds of a keyword map.
pub open spec fn keyword_map_view(m: Seq<(&'static str, TokenKind)>) -> Seq<(Seq<char>, TokenKind)> {
    Seq::new(m.len(), |i: int| (m[i].0@, m[i].1))
}

/// get keyword token map: each keyword with the token kind it stands for
pub fn get_keyword_map() -> (r: Vec<(&'static str, TokenKind)>)
    ensures
        keyword_map_view(r@) == keyword_entries(),
{
    let mut keyword_map: Vec<(&'static str, TokenKind)> = Vec::new();
    let mut i: usize = 0;
    assert(KEYWORD_TOKEN@ =~= seq![TokenKind::Let, TokenKind::Loop, TokenKind::End, TokenKind::Do, TokenKind::Print]);
    while i < 5
        invariant
            i <= 5,
            KEYWORD_TOKEN@ == seq![TokenKind::Let, TokenKind::Loop, TokenKind::End, TokenKind::Do, TokenKind::Print],
            keyword_map_view(keyword_map@) == keyword_entries().take(i as int),
        decreases 5 - i,
    {
        let x = KEYWORD_TOKEN[i];
        let ghost before = keyword_map@;
        assert(x == keyword_entries()[i as int].1 && token_keyword(x) is String && token_keyword(x)->String_0@ == keyword_entries()[i as int].0) by {
            if i == 0 {
            } else if i == 1 {
            } else if i == 2 {
            } else if i == 3 {
            } else {
            }
        }
        match get_token_keyword(&x) {
            BoundTokenKeyword::String(token_str) => {
                keyword_map.push((token_str, get_token_kind_clone(&x)));
                assert(keyword_map@ == before.push((token_str, x)));
                assert(keyword_entries().len() == 5);
                assert(keyword_map_view(before).len() == before.len());
                assert(before.len() == i);
                assert(keyword_map_view(keyword_map@).len() == i + 1);
                assert(keyword_map_view(keyword_map@)[i as int] == keyword_entries()[i as int]);
                assert forall|j: int| 0 <= j < i implies keyword_map_view(keyword_map@)[j] == keyword_entries()[j] by {
                    assert(keyword_map_view(before)[j] == keyword_entries().take(i as int)[j]);
                }
            },
            _ => {},
        }
        proof {
            assert(keyword_map_view(keyword_map@) =~= keyword_entries().take(i + 1));
        }
        i = i + 1;
    }
    proof {
        assert(keyword_entries().take(5) =~= keyword_entries());
    }
    keyword_map
}

} // verus!
