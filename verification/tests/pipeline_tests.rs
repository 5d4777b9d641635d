//! Lexing, parsing and running whole programs, and the parts of each
//! stage that callers use directly.

use simple_interpreter::interpreter::{Interpreter, RuntimeContext};
use simple_interpreter::lexer::{Span, TokenKind};
use simple_interpreter::sem_parser::{ExprKind, Ident, IdentKind, StatementKind};
use simple_interpreter::error::RuntimeErrorKind;
use simple_interpreter::sem_parser::sem_parse_context::ParseContext;
use simple_interpreter::sem_parser::sem_parser::Parser;
use simple_interpreter::{exec_with_output, lex_ascii, parse};

fn run(input: &str) -> String {
    let tokens = lex_ascii(input).unwrap();
    let program = parse(&tokens, input).unwrap();
    let mut output = String::new();
    exec_with_output(program, input, &mut output).unwrap();
    output
}

fn kinds(input: &str) -> Vec<TokenKind> {
    lex_ascii(input).unwrap().iter().map(|t| t.kind).collect()
}

#[test]
fn readme_example_prints_three_times() {
    let output = run("let x = 3;\nLOOP x DO\n    print x;\nEND\n");
    assert_eq!(output, "3\n3\n3\n");
}

#[test]
fn loop_count_is_fixed_when_entered() {
    let output = run("let x = 2; LOOP x DO x = x + 5; print x; END print x;");
    assert_eq!(output, "7\n12\n12\n");
}

#[test]
fn subtraction_left_to_right_saturates() {
    let output = run("let x = 10 - 3 - 9 + 4; print x;");
    assert_eq!(output, "4\n");
}

#[test]
fn output_is_appended_line_by_line() {
    let tokens = lex_ascii("let x = 7; print x; x = x + 1; print x;").unwrap();
    let program = parse(&tokens, "let x = 7; print x; x = x + 1; print x;").unwrap();
    let mut output = String::from("earlier\n");
    exec_with_output(program, "let x = 7; print x; x = x + 1; print x;", &mut output).unwrap();
    assert_eq!(output, "earlier\n7\n8\n");
}

#[test]
fn loop_with_empty_body_runs_once() {
    let output = run("let x = 1; LOOP x DO END print x;");
    assert_eq!(output, "1\n");
}

#[test]
fn loop_body_of_empty_statements_repeats() {
    let output = run("let x = 3; let y = 0; LOOP x DO ; y = y + 2; END print y;");
    assert_eq!(output, "6\n");
}

#[test]
fn interpreter_runs_empty_loop_body_without_fault() {
    let input = "let x = 2; print x; LOOP x DO END print x;";
    let tokens = lex_ascii(input).unwrap();
    let program = parse(&tokens, input).unwrap();
    let mut interpreter = Interpreter::new(&program, input);
    let mut printed = Vec::new();
    loop {
        assert!(!interpreter.next_step_faults());
        let more = interpreter.step().unwrap();
        printed.extend(interpreter.take_printed());
        if !more {
            break;
        }
    }
    assert_eq!(printed, vec![2, 2]);
}

#[test]
fn empty_loop_body_repeated_does_nothing() {
    let output = run("let x = 3; LOOP x DO END print x; LOOP x DO LOOP x DO END END print x;");
    assert_eq!(output, "3\n3\n");
}

#[test]
fn interpreter_reports_fault_of_overflowing_addition() {
    let input = "let x = 18446744073709551615; x = x + 1;";
    let tokens = lex_ascii(input).unwrap();
    let program = parse(&tokens, input).unwrap();
    let mut interpreter = Interpreter::new(&program, input);
    assert!(!interpreter.next_step_faults());
    assert!(interpreter.step().unwrap());
    assert!(interpreter.next_step_faults());
}

#[test]
fn interpreter_runs_to_the_end() {
    let input = "let x = 4; print x;";
    let tokens = lex_ascii(input).unwrap();
    let program = parse(&tokens, input).unwrap();
    let mut interpreter = Interpreter::new(&program, input);
    assert!(!interpreter.next_step_faults());
    assert!(interpreter.step().unwrap());
    assert!(interpreter.step().unwrap());
    assert_eq!(interpreter.take_printed(), vec![4]);
    assert!(!interpreter.step().unwrap());
    assert_eq!(interpreter.take_printed(), Vec::<usize>::new());
}

#[test]
fn runtime_context_stores_variables() {
    let mut context = RuntimeContext::new();
    assert!(!context.contains_variable(&3));
    assert_eq!(context.get_variable(&3), Err(RuntimeErrorKind::VariableNotFound));
    context.add_variable(&3);
    assert!(context.contains_variable(&3));
    assert_eq!(context.get_variable(&3), Ok(0));
    context.set_variable(&3, 42);
    assert_eq!(context.get_variable(&3), Ok(42));
    assert!(!context.contains_variable(&4));
}

#[test]
fn lex_keywords_are_case_sensitive() {
    assert_eq!(
        kinds("LOOP x DO END print let"),
        vec![
            TokenKind::Loop,
            TokenKind::Ident,
            TokenKind::Do,
            TokenKind::End,
            TokenKind::Print,
            TokenKind::Let,
            TokenKind::EOF
        ]
    );
    assert_eq!(kinds("loop Let PRINT"), vec![TokenKind::Ident, TokenKind::Ident, TokenKind::Ident, TokenKind::EOF]);
}

#[test]
fn lex_single_character_tokens() {
    assert_eq!(
        kinds("a=b+c - d;\n"),
        vec![
            TokenKind::Ident,
            TokenKind::Equal,
            TokenKind::Ident,
            TokenKind::Plus,
            TokenKind::Ident,
            TokenKind::Minus,
            TokenKind::Ident,
            TokenKind::Semicolon,
            TokenKind::Newline,
            TokenKind::EOF
        ]
    );
}

#[test]
fn lexed_tokens_follow_the_input_and_end_with_eof() {
    let input = "let x = 12;\nprint x;";
    let tokens = lex_ascii(input).unwrap();
    for pair in tokens.windows(2) {
        assert!(pair[0].span.end <= pair[1].span.start);
    }
    let last = tokens.last().unwrap();
    assert_eq!(last.kind, TokenKind::EOF);
    assert_eq!(last.span, Span { start: input.len(), end: input.len() });
    assert_eq!(tokens.iter().filter(|t| t.kind == TokenKind::EOF).count(), 1);
    assert_eq!(tokens[3].kind, TokenKind::Number(12));
    assert_eq!(tokens[3].span, Span { start: 8, end: 10 });
}

#[test]
fn token_lexeme_is_its_text() {
    let input = "let abc = 42;";
    let tokens = lex_ascii(input).unwrap();
    assert_eq!(tokens[1].lexeme(input), "abc");
    assert_eq!(tokens[3].lexeme(input), "42");
}

#[test]
fn identifiers_are_numbered_in_declaration_order() {
    let input = "let a = 1; let b = 2; print a; print b;";
    let tokens = lex_ascii(input).unwrap();
    let program = parse(&tokens, input).unwrap();
    let a = Ident { ident_number: 0, kind: IdentKind::Variable, span: Span { start: 0, end: 5 } };
    let b = Ident { ident_number: 1, kind: IdentKind::Variable, span: Span { start: 11, end: 16 } };
    assert_eq!(program.statements[2].node, StatementKind::Print { name: a });
    assert_eq!(program.statements[3].node, StatementKind::Print { name: b });
    assert_eq!(program.statements[2].span, Span { start: 22, end: 30 });
    assert_eq!(a.lexeme(input), "let a");
}

#[test]
fn expressions_fold_to_the_left() {
    let input = "let x = 1 - 2 + 3;";
    let tokens = lex_ascii(input).unwrap();
    let program = parse(&tokens, input).unwrap();
    match &program.statements[0].node {
        StatementKind::Let { value: Some(value), .. } => {
            assert_eq!(value.span, Span { start: 8, end: 17 });
            assert_eq!(value.lexeme(input), "1 - 2 + 3");
            match &value.node {
                ExprKind::Binary { left, right, .. } => {
                    assert_eq!(left.lexeme(input), "1 - 2");
                    assert_eq!(right.node, ExprKind::Number(3));
                }
                other => panic!("not a binary expression: {:?}", other),
            }
        }
        other => panic!("not a let statement: {:?}", other),
    }
}

#[test]
fn statements_pretty_print() {
    let input = "let x = 1 + 2; x = x - 1; LOOP x DO END print x; let y;;";
    let tokens = lex_ascii(input).unwrap();
    let program = parse(&tokens, input).unwrap();
    let shown: Vec<String> = program.statements.iter().map(|s| s.pretty_print(input)).collect();
    assert_eq!(
        shown,
        vec![
            "Let let x = 1 + 2".to_string(),
            "Assign let x = x - 1".to_string(),
            "Loop over let x".to_string(),
            "Print let x".to_string(),
            "Let let y".to_string(),
            "Empty".to_string(),
        ]
    );
    assert_eq!(program.statements[2].lexeme(input), "LOOP x DO END");
}

#[test]
fn every_token_spans_its_own_text() {
    let input = "let v1 = 42 - 7;\nprint v1;";
    let tokens = lex_ascii(input).unwrap();
    let texts: Vec<&str> = tokens.iter().map(|t| t.lexeme(input)).collect();
    assert_eq!(texts, vec!["let", "v1", "=", "42", "-", "7", ";", "\n", "print", "v1", ";", ""]);
    assert_eq!(tokens[3].kind, TokenKind::Number(42));
    assert_eq!(tokens[5].kind, TokenKind::Number(7));
}

#[test]
fn variables_are_declared_before_use() {
    let input = "let a = 1;\nlet b = a + 2;\nLOOP b DO\n a = a + b;\nEND\nprint a;";
    let tokens = lex_ascii(input).unwrap();
    let program = parse(&tokens, input).unwrap();
    let mut checked = 0;
    for statement in &program.statements {
        match &statement.node {
            StatementKind::Print { name } => {
                assert!(name.span.end <= statement.span.start);
                checked += 1;
            }
            StatementKind::Loop { var, body } => {
                assert!(var.span.end <= statement.span.start);
                match &body[1].node {
                    StatementKind::Assign { name, .. } => assert!(name.span.end <= body[1].span.start),
                    other => panic!("not an assignment: {:?}", other),
                }
                checked += 1;
            }
            StatementKind::Let { value: Some(value), .. } => {
                if let ExprKind::Binary { left, .. } = &value.node {
                    match &left.node {
                        ExprKind::Ident(id) => {
                            assert_eq!(id.span, Span { start: 0, end: 5 });
                            assert!(id.span.end <= left.span.start);
                            checked += 1;
                        }
                        other => panic!("not an identifier: {:?}", other),
                    }
                }
            }
            _ => {}
        }
    }
    assert_eq!(checked, 3);
}

#[test]
fn parser_position_after_errors() {
    let input = "x y";
    let tokens = lex_ascii(input).unwrap();
    let mut parser = Parser::new(&tokens, input, ParseContext::new());
    assert!(parser.parse_ident().is_err());
    assert_eq!(parser.get_previous_token_end(), 1);

    let input = "= x";
    let tokens = lex_ascii(input).unwrap();
    let mut parser = Parser::new(&tokens, input, ParseContext::new());
    assert!(parser.expect(TokenKind::Ident).is_err());
    assert_eq!(parser.get_previous_token_end(), 0);
    assert!(parser.parse_non_operand_expr().is_err());
    assert_eq!(parser.get_previous_token_end(), 0);
    assert!(parser.parse_statement_end().is_err());
    assert_eq!(parser.get_previous_token_end(), 1);
}

#[test]
fn statement_spans_run_over_their_tokens() {
    let input = "let x = 2;\nLOOP x DO\n  LOOP x DO print x; END\nEND\n";
    let tokens = lex_ascii(input).unwrap();
    let program = parse(&tokens, input).unwrap();
    assert_eq!(program.statements[2].lexeme(input), "LOOP x DO\n  LOOP x DO print x; END\nEND");
    assert_eq!(program.statements[0].lexeme(input), "let x = 2;");
}

#[test]
fn bytes_between_tokens_are_spaces() {
    let input = "let  x =  12 ;";
    let tokens = lex_ascii(input).unwrap();
    let mut covered = vec![false; input.len()];
    for t in &tokens {
        for k in t.span.start..t.span.end {
            covered[k] = true;
        }
    }
    for (k, byte) in input.bytes().enumerate() {
        assert!(covered[k] || byte == b' ');
    }
}
