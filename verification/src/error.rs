//! Errors of all three phases (lexing, parsing, running) under one type,
//! with the span of the input they refer to.
use vstd::prelude::*;

use vstd::string::StringSliceAdditionalSpecFns;

pub use crate::lexer::token::{Span, TokenKind};
use crate::text::{decimal, push_char, push_decimal, slice_str, sliceable, str_slice};

verus! {

/// number of characters to visualize ahead when showing an error
pub const LOOK_AHEAD: usize = 20;

/// number of characters to visualize afterwards when showing an error
pub const LOOK_AFTER: usize = 20;

/// storing error context occurring
/// Used for managing a global error with a unified api
#[derive(Debug, Clone)]
pub struct GlobalError {
    pub kind: ErrorKind,
    /// span the error is referring for the given input string of the program to interpret
    pub span: Span,
}

#[derive(Debug, Clone, PartialEq)]
pub enum ErrorKind {
    Lex(LexErrorKind),
    Parse(ParseErrorKind),
    Runtime(RuntimeErrorKind),
}

/// Errors that can occur during the tokenization process
#[derive(Debug, Clone, PartialEq)]
pub enum LexErrorKind {
    UnknownCharacter(char),
    UnexpectedCharacter(char),
    /// Conversion error expected first type (first string) and got last string
    ConversionError(String, String),
}

#[derive(Debug, Clone, PartialEq)]
pub enum ParseErrorKind {
    /// NonExpectedToken(expected TokenKinds, gotten TokenKind)
    NonExpectedToken(Vec<TokenKind>, TokenKind),
    /// UnexpectedEOF(expected TokenKinds)
    UnexpectedEOF(Vec<TokenKind>),
    /// Identifier is already used
    /// - String for Identification
    /// - Span: where Identifier was already defined
    IdentifierAlreadyUsed(String, Span),
    /// Identifier  is not known
    /// - String for Identification
    IdentifierNotKnown(String),
    /// Unclosed loop
    UnclosedLoop,
    /// Unexpected End of loop
    UnexpectedEnd,
}

/// Errors that can occur during the interpreting process
#[derive(Debug, Clone, Copy, PartialEq, Eq, Structural)]
pub enum RuntimeErrorKind {
    VariableAlreadyDefined,
    VariableNotFound,
}

/// The runtime error of the given kind at the given span.
pub open spec fn runtime_error(kind: RuntimeErrorKind, span: Span) -> GlobalError {
    GlobalError { kind: ErrorKind::Runtime(kind), span }
}

impl GlobalError {
    pub fn lex(kind: LexErrorKind, span: Span) -> (r: Self)
        ensures
            r == (GlobalError { kind: ErrorKind::Lex(kind), span }),
    {
        Self { kind: ErrorKind::Lex(kind), span }
    }

    pub fn parse(kind: ParseErrorKind, span: Span) -> (r: Self)
        ensures
            r == (GlobalError { kind: ErrorKind::Parse(kind), span }),
    {
        Self { kind: ErrorKind::Parse(kind), span }
    }

    pub fn runtime(kind: RuntimeErrorKind, span: Span) -> (r: Self)
        ensures
            r == runtime_error(kind, span),
    {
        Self { kind: ErrorKind::Runtime(kind), span }
    }
}

// ----------------------------------------------------------------------
// Views: the errors with their strings and token lists as sequences
// ----------------------------------------------------------------------

pub enum LexErrorView {
    UnknownCharacter(char),
    UnexpectedCharacter(char),
    ConversionError(Seq<char>, Seq<char>),
}

pub enum ParseErrorView {
    NonExpectedToken(Seq<TokenKind>, TokenKind),
    UnexpectedEOF(Seq<TokenKind>),
    IdentifierAlreadyUsed(Seq<char>, Span),
    IdentifierNotKnown(Seq<char>),
    UnclosedLoop,
    UnexpectedEnd,
}

pub enum ErrorKindView {
    Lex(LexErrorView),
    Parse(ParseErrorView),
    Runtime(RuntimeErrorKind),
}

pub struct GlobalErrorView {
    pub kind: ErrorKindView,
    pub span: Span,
}

impl View for LexErrorKind {
    type V = LexErrorView;

    open spec fn view(&self) -> LexErrorView {
        match self {
            LexErrorKind::UnknownCharacter(c) => LexErrorView::UnknownCharacter(*c),
            LexErrorKind::UnexpectedCharacter(c) => LexErrorView::UnexpectedCharacter(*c),
            LexErrorKind::ConversionError(a, b) => LexErrorView::ConversionError(a@, b@),
        }
    }
}

impl View for ParseErrorKind {
    type V = ParseErrorView;

    open spec fn view(&self) -> ParseErrorView {
        match self {
            ParseErrorKind::NonExpectedToken(expected, got) => ParseErrorView::NonExpectedToken(expected@, *got),
            ParseErrorKind::UnexpectedEOF(expected) => ParseErrorView::UnexpectedEOF(expected@),
            ParseErrorKind::IdentifierAlreadyUsed(name, span) => ParseErrorView::IdentifierAlreadyUsed(name@, *span),
            ParseErrorKind::IdentifierNotKnown(name) => ParseErrorView::IdentifierNotKnown(name@),
            ParseErrorKind::UnclosedLoop => ParseErrorView::UnclosedLoop,
            ParseErrorKind::UnexpectedEnd => ParseErrorView::UnexpectedEnd,
        }
    }
}

impl View for ErrorKind {
    type V = ErrorKindView;

    open spec fn view(&self) -> ErrorKindView {
        match self {
            ErrorKind::Lex(k) => ErrorKindView::Lex(k@),
            ErrorKind::Parse(k) => ErrorKindView::Parse(k@),
            ErrorKind::Runtime(k) => ErrorKindView::Runtime(*k),
        }
    }
}

impl View for GlobalError {
    type V = GlobalErrorView;

    open spec fn view(&self) -> GlobalErrorView {
        GlobalErrorView { kind: self.kind@, span: self.span }
    }
}

/// The parse error of the given kind at the given span.
pub open spec fn parse_error_view(kind: ParseErrorView, span: Span) -> GlobalErrorView {
    GlobalErrorView { kind: ErrorKindView::Parse(kind), span }
}

/// The lex error of the given kind at the given span.
pub open spec fn lex_error_view(kind: LexErrorView, span: Span) -> GlobalErrorView {
    GlobalErrorView { kind: ErrorKindView::Lex(kind), span }
}

// ----------------------------------------------------------------------
// Messages
// ----------------------------------------------------------------------

/// How a token kind is shown in messages (as `Debug` shows it).
pub open spec fn kind_text(k: TokenKind) -> Seq<char> {
    match k {
        TokenKind::Let => "Let"@,
        TokenKind::Equal => "Equal"@,
        TokenKind::Plus => "Plus"@,
        TokenKind::Minus => "Minus"@,
        TokenKind::Newline => "Newline"@,
        TokenKind::Semicolon => "Semicolon"@,
        TokenKind::Loop => "Loop"@,
        TokenKind::End => "End"@,
        TokenKind::Do => "Do"@,
        TokenKind::Print => "Print"@,
        TokenKind::Ident => "Ident"@,
        TokenKind::Number(n) => "Number("@ + decimal(n as nat) + ")"@,
        TokenKind::EOF => "EOF"@,
    }
}

/// The kinds separated by ", ".
pub open spec fn kinds_joined(ks: Seq<TokenKind>) -> Seq<char>
    decreases ks.len(),
{
    if ks.len() == 0 {
        Seq::empty()
    } else if ks.len() == 1 {
        kind_text(ks[0])
    } else {
        kinds_joined(ks.drop_last()) + ", "@ + kind_text(ks.last())
    }
}

/// How a list of token kinds is shown in messages: `[A, B]`.
pub open spec fn kinds_text(ks: Seq<TokenKind>) -> Seq<char> {
    "["@ + kinds_joined(ks) + "]"@
}

/// The message of a lex error kind.
pub open spec fn lex_kind_text(k: LexErrorView) -> Seq<char> {
    match k {
        LexErrorView::UnknownCharacter(c) => "Unknown Character ("@ + seq![c] + ")"@,
        LexErrorView::UnexpectedCharacter(c) => "Unexpected Character ("@ + seq![c] + ")"@,
        LexErrorView::ConversionError(to, got) => "Conversion Error to "@ + to + " got: "@ + got,
    }
}

/// The message of an error.
pub open spec fn error_text(e: GlobalErrorView) -> Seq<char> {
    match e.kind {
        ErrorKindView::Lex(k) => "Lex error ["@ + decimal(e.span.start as nat) + ".."@ + decimal(e.span.end as nat) + "]: "@ + lex_kind_text(k),
        ErrorKindView::Parse(k) => match k {
            ParseErrorView::NonExpectedToken(expected, got) => "Parsing error: Got non expected token "@ + kind_text(got)
                + ", expected on of these tokens: "@ + kinds_text(expected),
            ParseErrorView::IdentifierAlreadyUsed(name, _) => "Parsing error: Identifier \""@ + name + "\" already in use."@,
            ParseErrorView::UnexpectedEOF(expected) => "Parsing error: Got non unexpected end of file, expected one of these tokens: "@
                + kinds_text(expected),
            ParseErrorView::IdentifierNotKnown(name) => "Parsing error: Identifier not defined: "@ + name,
            ParseErrorView::UnclosedLoop => "Parsing error: Unclosed loop"@,
            ParseErrorView::UnexpectedEnd => "Parsing error: Unexpected loop end"@,
        },
        ErrorKindView::Runtime(k) => match k {
            RuntimeErrorKind::VariableAlreadyDefined => "Runtime error: Variable already defined"@,
            RuntimeErrorKind::VariableNotFound => "Runtime error: Variable not found"@,
        },
    }
}

/// The first byte shown before a span.
pub open spec fn before_start(span: Span) -> int {
    if span.start >= LOOK_AHEAD {
        span.start - LOOK_AHEAD
    } else {
        0
    }
}

/// The byte after the last one shown after a span.
pub open spec fn after_end(span: Span, len: int) -> int {
    if span.end + LOOK_AFTER < len {
        span.end + LOOK_AFTER
    } else {
        len
    }
}

/// Whether the error's span and the text shown around it can be sliced
/// out of the input.
pub open spec fn location_ok(span: Span, input: &str) -> bool {
    let len = input.spec_bytes().len() as int;
    &&& span.end + LOOK_AFTER <= usize::MAX
    &&& sliceable(input, before_start(span), span.start as int)
    &&& sliceable(input, span.start as int, span.end as int)
    &&& sliceable(input, span.end as int, after_end(span, len))
}

/// The input around an error's span, with the span marked.
pub open spec fn location_text(span: Span, input: &str) -> Seq<char> {
    let len = input.spec_bytes().len() as int;
    "..."@ + str_slice(input, before_start(span), span.start as int) + " here >>> "@ + str_slice(input, span.start as int, span.end as int)
        + " <<<"@ + str_slice(input, span.end as int, after_end(span, len)) + "..."@
}

/// Appends how a token kind is shown.
pub fn push_kind(s: &mut String, k: &TokenKind)
    ensures
        final(s)@ == old(s)@ + kind_text(*k),
{
    match k {
        TokenKind::Let => s.append("Let"),
        TokenKind::Equal => s.append("Equal"),
        TokenKind::Plus => s.append("Plus"),
        TokenKind::Minus => s.append("Minus"),
        TokenKind::Newline => s.append("Newline"),
        TokenKind::Semicolon => s.append("Semicolon"),
        TokenKind::Loop => s.append("Loop"),
        TokenKind::End => s.append("End"),
        TokenKind::Do => s.append("Do"),
        TokenKind::Print => s.append("Print"),
        TokenKind::Ident => s.append("Ident"),
        TokenKind::Number(n) => {
            s.append("Number(");
            push_decimal(s, *n);
            s.append(")");
        },
        TokenKind::EOF => s.append("EOF"),
    }
}

/// Appends how a list of token kinds is shown.
pub fn push_kinds(s: &mut String, ks: &Vec<TokenKind>)
    ensures
        final(s)@ == old(s)@ + kinds_text(ks@),
{
    s.append("[");
    let ghost start = s@;
    let mut i: usize = 0;
    while i < ks.len()
        invariant
            i <= ks@.len(),
            s@ == start + kinds_joined(ks@.take(i as int)),
        decreases ks@.len() - i,
    {
        if i > 0 {
            s.append(", ");
        }
        push_kind(s, &ks[i]);
        proof {
            let t = ks@.take(i + 1);
            assert(t.drop_last() =~= ks@.take(i as int));
            assert(t.last() == ks@[i as int]);
            if i == 0 {
                assert(t.len() == 1);
            }
        }
        i = i + 1;
    }
    proof {
        assert(ks@.take(i as int) =~= ks@);
    }
    s.append("]");
}

impl LexErrorKind {
    /// The message of the error kind (what `Display` shows).
    pub fn message(&self) -> (r: String)
        ensures
            r@ == lex_kind_text(self@),
    {
        let mut s = String::new();
        match self {
            LexErrorKind::UnknownCharacter(c) => {
                s.append("Unknown Character (");
                push_char(&mut s, *c);
                s.append(")");
            },
            LexErrorKind::UnexpectedCharacter(c) => {
                s.append("Unexpected Character (");
                push_char(&mut s, *c);
                s.append(")");
            },
            LexErrorKind::ConversionError(to_string, got_str) => {
                s.append("Conversion Error to ");
                s.append(to_string.as_str());
                s.append(" got: ");
                s.append(got_str.as_str());
            },
        }
        s
    }
}

impl GlobalError {
    /// The message of the error (what `Display` shows).
    pub fn message(&self) -> (r: String)
        ensures
            r@ == error_text(self@),
    {
        let mut s = String::new();
        match &self.kind {
            ErrorKind::Lex(lex_error_kind) => {
                s.append("Lex error [");
                push_decimal(&mut s, self.span.start);
                s.append("..");
                push_decimal(&mut s, self.span.end);
                s.append("]: ");
                let m = lex_error_kind.message();
                s.append(m.as_str());
            },
            ErrorKind::Parse(parse_error) => match parse_error {
                ParseErrorKind::NonExpectedToken(token_expect, token_gotten) => {
                    s.append("Parsing error: Got non expected token ");
                    push_kind(&mut s, token_gotten);
                    s.append(", expected on of these tokens: ");
                    push_kinds(&mut s, token_expect);
                },
                ParseErrorKind::IdentifierAlreadyUsed(ident_name, _) => {
                    s.append("Parsing error: Identifier \"");
                    s.append(ident_name.as_str());
                    s.append("\" already in use.");
                },
                ParseErrorKind::UnexpectedEOF(token_expect) => {
                    s.append("Parsing error: Got non unexpected end of file, expected one of these tokens: ");
                    push_kinds(&mut s, token_expect);
                },
                ParseErrorKind::IdentifierNotKnown(ident_str) => {
                    s.append("Parsing error: Identifier not defined: ");
                    s.append(ident_str.as_str());
                },
                ParseErrorKind::UnclosedLoop => s.append("Parsing error: Unclosed loop"),
                ParseErrorKind::UnexpectedEnd => s.append("Parsing error: Unexpected loop end"),
            },
            ErrorKind::Runtime(runtime_error_kind) => match runtime_error_kind {
                RuntimeErrorKind::VariableAlreadyDefined => s.append("Runtime error: Variable already defined"),
                RuntimeErrorKind::VariableNotFound => s.append("Runtime error: Variable not found"),
            },
        }
        s
    }

    /// get the location information about the error
    /// Used for showing the user the specific location where the error occurs
    fn get_location_msg(&self, input_str: &str) -> (r: String)
        requires
            location_ok(self.span, input_str),
        ensures
            r@ == location_text(self.span, input_str),
    {
        let start = self.span.start;
        let end = self.span.end;
        let _ = input_str.as_bytes().len();
        let before = if start >= LOOK_AHEAD { start - LOOK_AHEAD } else { 0 };
        let after = if end + LOOK_AFTER < input_str.len() { end + LOOK_AFTER } else { input_str.len() };
        let str_before = slice_str(input_str, before, start);
        let str_content = slice_str(input_str, start, end);
        let str_after = slice_str(input_str, end, after);
        proof {
            vstd::utf8::encode_utf8_decode_utf8(str_before@);
            vstd::utf8::encode_utf8_decode_utf8(str_content@);
            vstd::utf8::encode_utf8_decode_utf8(str_after@);
        }
        let mut s = String::new();
        s.append("...");
        s.append(str_before);
        s.append(" here >>> ");
        s.append(str_content);
        s.append(" <<<");
        s.append(str_after);
        s.append("...");
        s
    }

    /// Generate error message enriched with input information
    /// Used to better locate message and use ParseError span information
    pub fn generate_error_msg(&self, input_str: &str) -> (r: String)
        requires
            location_ok(self.span, input_str),
        ensures
            r@ == "--- error occurred---\n"@ + location_text(self.span, input_str) + "\n"@ + error_text(self@),
    {
        let mut error_string = String::new();
        error_string.append("--- error occurred---\n");
        let location = self.get_location_msg(input_str);
        error_string.append(location.as_str());
        error_string.append("\n");
        let message = self.message();
        error_string.append(message.as_str());
        error_string
    }
}

} // verus!
