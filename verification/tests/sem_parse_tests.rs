//! Tests for the parser on whole programs

use simple_interpreter::{
    error::ParseErrorKind,
    lexer::{lex_ascii, ErrorKind, Span},
    sem_parser::{
        parse, BinOp, BinOpKind, Expr, ExprKind, Ident, IdentKind, Program, Statement,
        StatementKind,
    },
};

/// The example program `simple_test.ms`, given inline.
const SIMPLE_TEST_PROGRAM: &str = "let x = 0;\nx = x + 1;\nprint x;";

#[test]
fn sem_parse_tests_test_parsing_simple_test_file() {
    let input_str = SIMPLE_TEST_PROGRAM;
    let lex_vec = lex_ascii(input_str).unwrap();

    let program = match parse(&lex_vec, input_str) {
        Ok(program) => program,
        Err(error) => {
            panic!("program not read in correctly: {:?}", error);
        }
    };

    let ident_x = Ident {
        ident_number: 0,
        kind: IdentKind::Variable,
        span: Span { start: 0, end: 5 },
    };
    let right_parse = Program {
        statements: vec![
            Statement::new(
                StatementKind::Let {
                    name: ident_x,
                    value: Some(Expr::new(ExprKind::Number(0), Span { start: 8, end: 9 })),
                },
                Span { start: 0, end: 10 },
            ),
            Statement::new(StatementKind::Empty, Span { start: 10, end: 11 }),
            Statement::new(
                StatementKind::Assign {
                    name: ident_x,
                    value: Expr::new(
                        ExprKind::Binary {
                            left: Box::new(Expr::new(
                                ExprKind::Ident(ident_x),
                                Span { start: 15, end: 16 },
                            )),
                            op: BinOp::new(BinOpKind::Add, Span { start: 17, end: 18 }),
                            right: Box::new(Expr::new(
                                ExprKind::Number(1),
                                Span { start: 19, end: 20 },
                            )),
                        },
                        Span { start: 15, end: 20 },
                    ),
                },
                Span { start: 11, end: 21 },
            ),
            Statement::new(StatementKind::Empty, Span { start: 21, end: 22 }),
            Statement::new(
                StatementKind::Print { name: ident_x },
                Span { start: 22, end: 30 },
            ),
        ],
    };

    assert_eq!(program, right_parse);
}

#[test]
fn test_parsing_only_assign() {
    let input_str = "x = 1;print x;";
    let lex_vec = lex_ascii(input_str).unwrap();

    match parse(&lex_vec, input_str) {
        Ok(_) => panic!(),
        Err(error) => {
            assert_eq!(
                error.kind,
                ErrorKind::Parse(ParseErrorKind::IdentifierNotKnown("x".to_string()))
            );
        }
    };
}
