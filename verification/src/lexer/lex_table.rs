//! Defines LexTable struct for O(1) checking to possible TokenKind mapping
//! - classify method for getting associated type
use vstd::prelude::*;

use crate::lexer::token::{get_token_keyword, get_token_kind_clone, token_keyword, BoundTokenKeyword, TokenKind, CONSTANT_TOKENS};

verus! {

/// What a byte of the input is to the lexer.
#[derive(Debug, Clone, Copy, PartialEq, Eq, Structural)]
pub enum LexTableEntry {
    /// a space: separates words
    Split,
    /// a single character token
    Token(TokenKind),
    /// a single character token that must be followed by a space
    SpaceNeedingToken(TokenKind),
    Alphabetic,
    Numeric,
    Undefined,
}

/// The kind of the last of the first `n` constant tokens written as the
/// character `b` (with `with_space`: one that needs a space after it).
pub open spec fn mask_upto(n: int, b: int, with_space: bool) -> Option<TokenKind>
    decreases n,
{
    if n <= 0 {
        None
    } else {
        let k = CONSTANT_TOKENS@[n - 1];
        match token_keyword(k) {
            BoundTokenKeyword::Char(c) => if !with_space && c as int == b {
                Some(k)
            } else {
                mask_upto(n - 1, b, with_space)
            },
            BoundTokenKeyword::CharWithNeededSpace(c) => if with_space && c as int == b {
                Some(k)
            } else {
                mask_upto(n - 1, b, with_space)
            },
            _ => mask_upto(n - 1, b, with_space),
        }
    }
}

/// The single character token kind written as the byte `b`, if any.
pub open spec fn char_token(b: int) -> Option<TokenKind> {
    mask_upto(10, b, false)
}

/// The token kind written as the byte `b` that needs a space after it, if any.
pub open spec fn space_token(b: int) -> Option<TokenKind> {
    mask_upto(10, b, true)
}

/// What the lexer takes a byte for: letters and digits, the space, the
/// characters of single character tokens, and nothing else (byte 255
/// included).
pub open spec fn classify_spec(b: u8) -> LexTableEntry {
    let c = b as char;
    if b == 255 {
        LexTableEntry::Undefined
    } else if ('a' <= c && c <= 'z') || ('A' <= c && c <= 'Z') {
        LexTableEntry::Alphabetic
    } else if '0' <= c && c <= '9' {
        LexTableEntry::Numeric
    } else if c == ' ' {
        LexTableEntry::Split
    } else {
        match char_token(b as int) {
            Some(token) => LexTableEntry::Token(token),
            None => match space_token(b as int) {
                Some(token) => LexTableEntry::SpaceNeedingToken(token),
                None => LexTableEntry::Undefined,
            },
        }
    }
}

/// Each single character token is classified back as itself: the byte
/// of its character gives its kind, as a token that needs a space after
/// it where it does.
pub proof fn classify_gives_back_its_token(k: TokenKind)
    ensures
        token_keyword(k) matches BoundTokenKeyword::Char(c) ==> classify_spec(c as u8) == LexTableEntry::Token(k),
        token_keyword(k) matches BoundTokenKeyword::CharWithNeededSpace(c) ==> classify_spec(c as u8) == LexTableEntry::SpaceNeedingToken(k),
{
    assert(CONSTANT_TOKENS@ =~= seq![
        TokenKind::Let,
        TokenKind::Equal,
        TokenKind::Plus,
        TokenKind::Minus,
        TokenKind::Newline,
        TokenKind::Semicolon,
        TokenKind::Loop,
        TokenKind::End,
        TokenKind::Do,
        TokenKind::Print,
    ]);
    reveal_with_fuel(mask_upto, 11);
}

/// Every ASCII letter is a letter to the lexer, every decimal digit a
/// digit and the space a separator.
pub proof fn letters_digits_and_space_classified(b: u8)
    ensures
        (97 <= b <= 122 || 65 <= b <= 90) ==> classify_spec(b) == LexTableEntry::Alphabetic,
        48 <= b <= 57 ==> classify_spec(b) == LexTableEntry::Numeric,
        b == 32 ==> classify_spec(b) == LexTableEntry::Split,
{
}

/// LexTable is a O(1) lookup table for what kind token is associated with the byte
///
/// The LexTable is build when crating the new instance and accessed via classify
#[derive(Debug, Clone)]
pub struct LexTable {
    entries: Vec<LexTableEntry>,
}

impl LexTable {
    /// Every byte has its entry.
    pub closed spec fn wf(&self) -> bool {
        &&& self.entries@.len() == 256
        &&& forall|b: u8| #[trigger] self.entries@[b as int] == classify_spec(b)
    }

    /// Creating a new LexTable
    pub fn new() -> (r: Self)
        ensures
            r.wf(),
    {
        let mut entries: Vec<LexTableEntry> = Vec::new();
        let mut k: usize = 0;
        while k < 256
            invariant
                k <= 256,
                entries@.len() == k,
                forall|j: int| 0 <= j < k ==> entries@[j] == LexTableEntry::Undefined,
            decreases 256 - k,
        {
            entries.push(LexTableEntry::Undefined);
            k = k + 1;
        }
        let char_mask = Self::get_char_mask();
        let space_mask = Self::get_char_needing_space_mask();
        let mut i: usize = 0;
        while i < 255
            invariant
                i <= 255,
                entries@.len() == 256,
                char_mask@.len() == 255,
                space_mask@.len() == 255,
                forall|j: int| 0 <= j < 255 ==> char_mask@[j] == char_token(j),
                forall|j: int| 0 <= j < 255 ==> space_mask@[j] == space_token(j),
                forall|j: int| 0 <= j < i ==> entries@[j] == classify_spec(j as u8),
                forall|j: int| i <= j < 256 ==> entries@[j] == LexTableEntry::Undefined,
            decreases 255 - i,
        {
            let b: u8 = i as u8;
            let c: char = b as char;
            let entry = if ('a' <= c && c <= 'z') || ('A' <= c && c <= 'Z') {
                LexTableEntry::Alphabetic
            } else if '0' <= c && c <= '9' {
                LexTableEntry::Numeric
            } else if c == ' ' {
                LexTableEntry::Split
            } else {
                match char_mask[i] {
                    Some(token) => LexTableEntry::Token(token),
                    None => match space_mask[i] {
                        Some(token) => LexTableEntry::SpaceNeedingToken(token),
                        None => LexTableEntry::Undefined,
                    },
                }
            };
            entries.set(i, entry);
            i = i + 1;
        }
        let r = LexTable { entries };
        proof {
            assert forall|b: u8| #[trigger] r.entries@[b as int] == classify_spec(b) by {
                if b == 255 {
                } else {
                    assert(r.entries@[b as int] == classify_spec((b as int) as u8));
                }
            }
        }
        r
    }

    /// The masks of the single character tokens, by the byte they are
    /// written as (`with_space`: those that need a space after them).
    fn get_mask(with_space: bool) -> (r: Vec<Option<TokenKind>>)
        ensures
            r@.len() == 255,
            forall|j: int| 0 <= j < 255 ==> r@[j] == mask_upto(10, j, with_space),
    {
        let mut lex_table: Vec<Option<TokenKind>> = Vec::new();
        let mut k: usize = 0;
        while k < 255
            invariant
                k <= 255,
                lex_table@.len() == k,
                forall|j: int| 0 <= j < k ==> lex_table@[j] is None,
            decreases 255 - k,
        {
            lex_table.push(None);
            k = k + 1;
        }
        assert(CONSTANT_TOKENS@ =~= seq![
            TokenKind::Let,
            TokenKind::Equal,
            TokenKind::Plus,
            TokenKind::Minus,
            TokenKind::Newline,
            TokenKind::Semicolon,
            TokenKind::Loop,
            TokenKind::End,
            TokenKind::Do,
            TokenKind::Print,
        ]);
        let mut i: usize = 0;
        while i < 10
            invariant
                i <= 10,
                lex_table@.len() == 255,
                CONSTANT_TOKENS@ == seq![
                    TokenKind::Let,
                    TokenKind::Equal,
                    TokenKind::Plus,
                    TokenKind::Minus,
                    TokenKind::Newline,
                    TokenKind::Semicolon,
                    TokenKind::Loop,
                    TokenKind::End,
                    TokenKind::Do,
                    TokenKind::Print,
                ],
                forall|j: int| 0 <= j < 255 ==> lex_table@[j] == mask_upto(i as int, j, with_space),
            decreases 10 - i,
        {
            let token = CONSTANT_TOKENS[i];
            let ghost before = lex_table@;
            match get_token_keyword(&token) {
                BoundTokenKeyword::Char(c) => {
                    if !with_space {
                        assert((c as int) < 255) by {
                            if i == 1 {} else if i == 2 {} else if i == 4 {} else if i == 5 {} else {}
                        }
                        lex_table.set(c as usize, Some(get_token_kind_clone(&token)));
                    }
                },
                BoundTokenKeyword::CharWithNeededSpace(c) => {
                    if with_space {
                        assert((c as int) < 255) by {
                            if i == 3 {} else {}
                        }
                        lex_table.set(c as usize, Some(get_token_kind_clone(&token)));
                    }
                },
                _ => {},
            }
            i = i + 1;
        }
        lex_table
    }

    /// get LexTableEntries for char type TokenKinds
    fn get_char_mask() -> (r: Vec<Option<TokenKind>>)
        ensures
            r@.len() == 255,
            forall|j: int| 0 <= j < 255 ==> r@[j] == char_token(j),
    {
        Self::get_mask(false)
    }

    /// get LexTableEntries for char type TokenKinds that need spacing afterwards
    fn get_char_needing_space_mask() -> (r: Vec<Option<TokenKind>>)
        ensures
            r@.len() == 255,
            forall|j: int| 0 <= j < 255 ==> r@[j] == space_token(j),
    {
        Self::get_mask(true)
    }

    /// lookup byte in LexTable
    pub fn classify(&self, byte: u8) -> (r: &LexTableEntry)
        requires
            self.wf(),
        ensures
            *r == classify_spec(byte),
    {
        &self.entries[byte as usize]
    }
}

} // verus!
