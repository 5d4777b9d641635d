//! Small helpers of the parser.
use vstd::prelude::*;

use crate::error::{parse_error_view, GlobalError, GlobalErrorView, ParseErrorKind, ParseErrorView};
use crate::lexer::token::{Span, TokenKind};

verus! {

/// The error that `got` was read where one of `expected` was needed.
pub open spec fn non_expected(got: TokenKind, expected: Seq<TokenKind>, span: Span) -> GlobalErrorView {
    parse_error_view(ParseErrorView::NonExpectedToken(expected, got), span)
}

/// Small helper function for creating NonExpectedToken Errors
pub fn give_non_expected_token_error(
    got_token_kind: &TokenKind,
    expected_token_kinds: Vec<TokenKind>,
    associated_span: Span,
) -> (r: GlobalError)
    ensures
        r@ == non_expected(*got_token_kind, expected_token_kinds@, associated_span),
{
    GlobalError::parse(ParseErrorKind::NonExpectedToken(expected_token_kinds, *got_token_kind), associated_span)
}

} // verus!
