//! The errors of each stage: their kind, span and message.

use simple_interpreter::error::{ErrorKind, GlobalError, LexErrorKind, ParseErrorKind, RuntimeErrorKind};
use simple_interpreter::lexer::{Span, TokenKind};
use simple_interpreter::{exec_with_output, lex_ascii, parse};

fn lex_err(input: &str) -> GlobalError {
    match lex_ascii(input) {
        Ok(tokens) => panic!("lexed into {:?}", tokens),
        Err(e) => e,
    }
}

fn parse_err(input: &str) -> GlobalError {
    let tokens = lex_ascii(input).unwrap();
    match parse(&tokens, input) {
        Ok(program) => panic!("parsed into {:?}", program),
        Err(e) => e,
    }
}

fn run_err(input: &str) -> (GlobalError, String) {
    let tokens = lex_ascii(input).unwrap();
    let program = parse(&tokens, input).unwrap();
    let mut output = String::new();
    let err = exec_with_output(program, input, &mut output).unwrap_err();
    (err, output)
}

#[test]
fn lex_reports_number_too_large() {
    let err = lex_err("let x = 99999999999999999999999;");
    assert_eq!(
        err.kind,
        ErrorKind::Lex(LexErrorKind::ConversionError(
            "number".to_string(),
            "99999999999999999999999".to_string()
        ))
    );
    assert_eq!(err.span, Span { start: 8, end: 31 });
    assert_eq!(err.message(), "Lex error [8..31]: Conversion Error to number got: 99999999999999999999999");
}

#[test]
fn lex_largest_number_fits() {
    let input = "18446744073709551615";
    let tokens = lex_ascii(input).unwrap();
    assert_eq!(tokens[0].kind, TokenKind::Number(usize::MAX));
}

#[test]
fn lex_minus_needs_a_space_after_it() {
    let err = lex_err("x -1");
    assert_eq!(err.kind, ErrorKind::Lex(LexErrorKind::UnexpectedCharacter('1')));
    assert_eq!(err.span, Span { start: 3, end: 4 });
}

#[test]
fn lex_letter_after_digits_is_unexpected() {
    let err = lex_err("12ab");
    assert_eq!(err.kind, ErrorKind::Lex(LexErrorKind::UnexpectedCharacter('a')));
    assert_eq!(err.span, Span { start: 2, end: 3 });
    assert_eq!(err.message(), "Lex error [2..3]: Unexpected Character (a)");
}

#[test]
fn lex_non_ascii_byte_is_unknown() {
    let err = lex_err("let \u{e9} = 1;");
    assert_eq!(err.kind, ErrorKind::Lex(LexErrorKind::UnknownCharacter('\u{c3}')));
    assert_eq!(err.span, Span { start: 4, end: 5 });
}

#[test]
fn lex_error_message_shows_the_input_around() {
    let input = "let x = 5$;";
    let err = lex_err(input);
    assert_eq!(err.kind, ErrorKind::Lex(LexErrorKind::UnknownCharacter('$')));
    assert_eq!(err.span, Span { start: 9, end: 10 });
    assert_eq!(err.message(), "Lex error [9..10]: Unknown Character ($)");
    assert_eq!(
        err.generate_error_msg(input),
        "--- error occurred---\n...let x = 5 here >>> $ <<<;...\nLex error [9..10]: Unknown Character ($)"
    );
}

#[test]
fn lex_error_kind_messages() {
    assert_eq!(LexErrorKind::UnknownCharacter('#').message(), "Unknown Character (#)");
    assert_eq!(LexErrorKind::UnexpectedCharacter('q').message(), "Unexpected Character (q)");
    assert_eq!(
        LexErrorKind::ConversionError("number".to_string(), "12".to_string()).message(),
        "Conversion Error to number got: 12"
    );
}

#[test]
fn error_message_cuts_long_context() {
    let input = "let abcdefghijklmnopqrstuvwxyz = 1; let abcdefghijklmnopqrstuvwxyz = 2; print q;";
    let err = parse_err(input);
    assert_eq!(
        err.kind,
        ErrorKind::Parse(ParseErrorKind::IdentifierAlreadyUsed(
            "abcdefghijklmnopqrstuvwxyz".to_string(),
            Span { start: 0, end: 30 }
        ))
    );
    assert_eq!(err.span, Span { start: 0, end: 30 });
    assert_eq!(
        err.generate_error_msg(input),
        "--- error occurred---\n... here >>> let abcdefghijklmnopqrstuvwxyz <<< = 1; let abcdefghij...\nParsing error: Identifier \"abcdefghijklmnopqrstuvwxyz\" already in use."
    );
}

#[test]
fn parse_reports_unexpected_token() {
    let err = parse_err("= x 5;");
    assert_eq!(
        err.kind,
        ErrorKind::Parse(ParseErrorKind::NonExpectedToken(
            vec![TokenKind::Let, TokenKind::Loop, TokenKind::Print, TokenKind::Ident],
            TokenKind::Equal
        ))
    );
    assert_eq!(err.span, Span { start: 0, end: 1 });
    assert_eq!(
        err.message(),
        "Parsing error: Got non expected token Equal, expected on of these tokens: [Let, Loop, Print, Ident]"
    );
}

#[test]
fn parse_reports_number_where_name_expected() {
    let err = parse_err("let 5 = 1;");
    assert_eq!(
        err.kind,
        ErrorKind::Parse(ParseErrorKind::NonExpectedToken(vec![TokenKind::Ident], TokenKind::Number(5)))
    );
    assert_eq!(err.span, Span { start: 4, end: 5 });
    assert_eq!(
        err.message(),
        "Parsing error: Got non expected token Number(5), expected on of these tokens: [Ident]"
    );
}

#[test]
fn parse_reports_missing_loop_end() {
    let input = "let x = 1; LOOP x DO print x;";
    let err = parse_err(input);
    assert_eq!(err.kind, ErrorKind::Parse(ParseErrorKind::UnexpectedEnd));
    assert_eq!(err.span, Span { start: 29, end: 29 });
    assert_eq!(err.message(), "Parsing error: Unexpected loop end");
}

#[test]
fn parse_reports_redeclaration() {
    let err = parse_err("let x = 1; let x = 2;");
    assert_eq!(
        err.kind,
        ErrorKind::Parse(ParseErrorKind::IdentifierAlreadyUsed("x".to_string(), Span { start: 0, end: 5 }))
    );
    assert_eq!(err.span, Span { start: 0, end: 5 });
    assert_eq!(err.message(), "Parsing error: Identifier \"x\" already in use.");
}

#[test]
fn parse_reports_unknown_identifier() {
    let input = "x = 1;";
    let err = parse_err(input);
    assert_eq!(err.kind, ErrorKind::Parse(ParseErrorKind::IdentifierNotKnown("x".to_string())));
    assert_eq!(err.span, Span { start: 0, end: 1 });
    assert_eq!(err.message(), "Parsing error: Identifier not defined: x");
    assert_eq!(
        err.generate_error_msg(input),
        "--- error occurred---\n... here >>> x <<< = 1;...\nParsing error: Identifier not defined: x"
    );
}

#[test]
fn parse_reports_missing_statement_end() {
    let err = parse_err("let x = 1 print x;");
    assert_eq!(
        err.kind,
        ErrorKind::Parse(ParseErrorKind::NonExpectedToken(
            vec![TokenKind::Semicolon, TokenKind::Newline],
            TokenKind::Print
        ))
    );
    assert_eq!(err.span, Span { start: 10, end: 15 });
}

#[test]
fn parse_reports_missing_do() {
    let err = parse_err("let x = 1; LOOP x print x; END");
    assert_eq!(
        err.kind,
        ErrorKind::Parse(ParseErrorKind::NonExpectedToken(vec![TokenKind::Do], TokenKind::Print))
    );
    assert_eq!(err.span, Span { start: 18, end: 23 });
}

#[test]
fn parse_errors_on_truncated_input() {
    let err = parse_err("let");
    assert_eq!(
        err.kind,
        ErrorKind::Parse(ParseErrorKind::NonExpectedToken(vec![TokenKind::Ident], TokenKind::EOF))
    );
    assert_eq!(err.span, Span { start: 3, end: 3 });

    let err = parse_err("let x =");
    assert_eq!(
        err.kind,
        ErrorKind::Parse(ParseErrorKind::NonExpectedToken(
            vec![TokenKind::Ident, TokenKind::Number(0)],
            TokenKind::EOF
        ))
    );
    assert_eq!(err.span, Span { start: 7, end: 7 });

    let err = parse_err("LOOP");
    assert_eq!(
        err.kind,
        ErrorKind::Parse(ParseErrorKind::NonExpectedToken(vec![TokenKind::Ident], TokenKind::EOF))
    );

    let err = parse_err("let x; print x");
    assert_eq!(
        err.kind,
        ErrorKind::Parse(ParseErrorKind::NonExpectedToken(
            vec![TokenKind::Semicolon, TokenKind::Newline],
            TokenKind::EOF
        ))
    );
    assert_eq!(err.span, Span { start: 14, end: 14 });

    let err = parse_err("let x = 1; LOOP x DO");
    assert_eq!(err.kind, ErrorKind::Parse(ParseErrorKind::UnexpectedEnd));
}

#[test]
fn parse_reports_stray_loop_end() {
    let err = parse_err("END");
    assert_eq!(
        err.kind,
        ErrorKind::Parse(ParseErrorKind::NonExpectedToken(
            vec![TokenKind::Let, TokenKind::Loop, TokenKind::Print, TokenKind::Ident],
            TokenKind::End
        ))
    );
    assert_eq!(err.span, Span { start: 0, end: 3 });
}

#[test]
fn runtime_reports_variable_not_set() {
    let (err, output) = run_err("let n = 0; LOOP n DO let y = 1; END print y;");
    assert_eq!(err.kind, ErrorKind::Runtime(RuntimeErrorKind::VariableNotFound));
    assert_eq!(err.span, Span { start: 21, end: 26 });
    assert_eq!(err.message(), "Runtime error: Variable not found");
    assert_eq!(output, "");
}

#[test]
fn runtime_reports_variable_defined_twice() {
    let (err, output) = run_err("let n = 2; LOOP n DO let y = 1; END");
    assert_eq!(err.kind, ErrorKind::Runtime(RuntimeErrorKind::VariableAlreadyDefined));
    assert_eq!(err.span, Span { start: 21, end: 31 });
    assert_eq!(err.message(), "Runtime error: Variable already defined");
    assert_eq!(output, "");
}

#[test]
fn runtime_error_keeps_earlier_output() {
    let (err, output) = run_err("let k = 2; print k; let n = 0; LOOP n DO let y = 1; END print y;");
    assert_eq!(err.kind, ErrorKind::Runtime(RuntimeErrorKind::VariableNotFound));
    assert_eq!(output, "2\n");
}

#[test]
fn error_constructors_set_kind_and_span() {
    let span = Span { start: 1, end: 2 };
    let e = GlobalError::lex(LexErrorKind::UnknownCharacter('%'), span);
    assert_eq!(e.kind, ErrorKind::Lex(LexErrorKind::UnknownCharacter('%')));
    assert_eq!(e.span, span);
    let e = GlobalError::parse(ParseErrorKind::UnclosedLoop, span);
    assert_eq!(e.kind, ErrorKind::Parse(ParseErrorKind::UnclosedLoop));
    assert_eq!(e.message(), "Parsing error: Unclosed loop");
    let e = GlobalError::runtime(RuntimeErrorKind::VariableNotFound, span);
    assert_eq!(e.kind, ErrorKind::Runtime(RuntimeErrorKind::VariableNotFound));
    let e = GlobalError::parse(ParseErrorKind::UnexpectedEOF(vec![TokenKind::End, TokenKind::Number(42)]), span);
    assert_eq!(
        e.message(),
        "Parsing error: Got non unexpected end of file, expected one of these tokens: [End, Number(42)]"
    );
}

#[test]
fn parse_error_at_end_of_input_can_be_shown() {
    let input = "let x = 1; LOOP x DO print x;";
    let err = parse_err(input);
    assert_eq!(
        err.generate_error_msg(input),
        "--- error occurred---\n...; LOOP x DO print x; here >>>  <<<...\nParsing error: Unexpected loop end"
    );
}

#[test]
fn runtime_error_can_be_shown() {
    let input = "let n = 0; LOOP n DO let y = 1; END print y;";
    let (err, _) = run_err(input);
    assert_eq!(
        err.generate_error_msg(input),
        "--- error occurred---\n...et n = 0; LOOP n DO  here >>> let y <<< = 1; END print y;...\nRuntime error: Variable not found"
    );
}
