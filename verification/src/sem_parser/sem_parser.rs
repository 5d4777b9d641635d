//! The recursive descent parser over the tokens of the lexer.
use vstd::prelude::*;
use vstd::string::StringSliceAdditionalSpecFns;

use crate::error::{GlobalError, ParseErrorKind};
use crate::lexer::token::{Span, Token, TokenKind};
use crate::sem_parser::grammar::{
    body_spec, end_span, expect_spec, loop_spans_to_its_end, statement_spans_its_tokens, expr_rest_spec, expr_spec, ident_spec, input_len, let_spec,
    lexeme_chars, loop_spec, matches_parsed, matches_parsed_at, matches_statement, non_operand_spec, parse_spec,
    prev_end, program_spec, statement_end_spec, statement_spec, at, Parsed,
};
use crate::sem_parser::sem_parse_context::{Bindings, Ident, IdentKind, ParseContext};
use crate::sem_parser::sem_parse_structure::{
    lemma_stmts_model_push, stmt_model, stmts_model, BinOp, BinOpKind, Expr, ExprKind, Program,
    Statement, StatementKind, StatementModel,
};
use crate::sem_parser::sem_parser_helper_func::give_non_expected_token_error;

verus! {

/// Parser for saving information about the current parse state
pub struct Parser<'a> {
    tokens: &'a [Token],
    pos: usize,
    input: &'a str,
    context: ParseContext,
}

impl<'a> Parser<'a> {
    /// The tokens read.
    pub closed spec fn toks(&self) -> Seq<Token> {
        self.tokens@
    }

    /// The index of the next token.
    pub closed spec fn at_pos(&self) -> int {
        self.pos as int
    }

    /// The text the tokens were read from.
    pub closed spec fn input(&self) -> &'a str {
        self.input
    }

    /// The variables declared so far.
    pub closed spec fn ctx(&self) -> Bindings {
        self.context.bindings()
    }

    pub closed spec fn wf(&self) -> bool {
        &&& self.pos <= self.tokens@.len()
        &&& self.tokens@.len() <= usize::MAX
        &&& self.context.wf()
        &&& self.context.bindings().len() + self.tokens@.len() - self.pos <= usize::MAX
    }

    /// Whether `self` reads the same tokens of the same text as `other`.
    pub open spec fn same_source(&self, other: &Self) -> bool {
        &&& self.toks() == other.toks()
        &&& self.input() == other.input()
    }

    pub fn new(tokens: &'a [Token], input: &'a str, context: ParseContext) -> (r: Self)
        requires
            context.wf(),
            context.bindings().len() + tokens@.len() <= usize::MAX,
        ensures
            r.wf(),
            r.toks() == tokens@,
            r.input() == input,
            r.at_pos() == 0,
            r.ctx() == context.bindings(),
    {
        let _ = tokens.len();
        Parser { tokens, pos: 0, input, context }
    }

    pub fn current(&self) -> (r: &Token)
        requires
            0 <= self.at_pos() < self.toks().len(),
        ensures
            *r == self.toks()[self.at_pos()],
    {
        &self.tokens[self.pos]
    }

    /// Retrieve the span of the token before the current
    /// Used to get the end of the last read in token for
    /// creating context information for errors
    pub fn get_previous_token_end(&self) -> (r: usize)
        requires
            self.wf(),
        ensures
            r == prev_end(self.toks(), self.at_pos()),
    {
        if self.pos == 0 {
            return 0;
        }
        self.tokens[self.pos - 1].span.end
    }

    /// Get Current token and advance to the next token
    pub fn bump(&mut self) -> (r: &Token)
        requires
            old(self).wf(),
            old(self).at_pos() < old(self).toks().len(),
        ensures
            final(self).wf(),
            final(self).same_source(old(self)),
            final(self).ctx() == old(self).ctx(),
            final(self).at_pos() == old(self).at_pos() + 1,
            *r == old(self).toks()[old(self).at_pos()],
    {
        let pos = self.pos;
        self.advance_position();
        &self.tokens[pos]
    }

    pub fn peek(&self) -> (r: Option<&Token>)
        ensures
            match r {
                Some(t) => 0 <= self.at_pos() < self.toks().len() && *t == self.toks()[self.at_pos()],
                None => self.at_pos() >= self.toks().len(),
            },
    {
        if self.pos < self.tokens.len() {
            Some(&self.tokens[self.pos])
        } else {
            None
        }
    }

    pub fn advance_position(&mut self)
        requires
            old(self).wf(),
            old(self).at_pos() < old(self).toks().len(),
        ensures
            final(self).wf(),
            final(self).same_source(old(self)),
            final(self).ctx() == old(self).ctx(),
            final(self).at_pos() == old(self).at_pos() + 1,
    {
        self.pos = self.pos + 1;
    }

    /// Consumes next token and compare it to TokenKind
    /// Returns NonExpectedToken error when TokenKinds differ
    /// Used for parsing the next expected token
    pub fn expect(&mut self, kind: TokenKind) -> (r: Result<Token, GlobalError>)
        requires
            old(self).wf(),
            !(expect_spec(old(self).toks(), old(self).at_pos(), kind) is Stuck),
        ensures
            final(self).wf(),
            final(self).same_source(old(self)),
            final(self).ctx() == old(self).ctx(),
            matches_parsed_at(expect_spec(old(self).toks(), old(self).at_pos(), kind), r, final(self).at_pos()),
            r is Err ==> final(self).at_pos() == old(self).at_pos(),
    {
        let token = *self.current();
        if token.kind == kind {
            self.advance_position();
            Ok(token)
        } else if matches!(token.kind, TokenKind::Number(_)) && matches!(kind, TokenKind::Number(_)) {
            self.advance_position();
            Ok(token)
        } else {
            let expected = vec![kind];
            assert(expected@ == seq![kind]);
            let e = GlobalError::parse(ParseErrorKind::NonExpectedToken(expected, token.kind), token.span);
            assert(e@ == crate::sem_parser::sem_parser_helper_func::non_expected(token.kind, seq![kind], token.span));
            Err(e)
        }
    }

    /// Consumes any non Operand TokenKind associated with Expressions
    /// Returns a NonExpectedToken Error when no expected Token is read
    /// Used for Expression parsing
    pub fn parse_non_operand_expr(&mut self) -> (r: Result<Expr, GlobalError>)
        requires
            old(self).wf(),
            !(non_operand_spec(old(self).toks(), old(self).input(), old(self).at_pos(), old(self).ctx()) is Stuck),
        ensures
            final(self).wf(),
            final(self).same_source(old(self)),
            final(self).ctx() == old(self).ctx(),
            matches_parsed(non_operand_spec(old(self).toks(), old(self).input(), old(self).at_pos(), old(self).ctx()), r, final(self).at_pos(), final(self).ctx()),
            r is Ok ==> final(self).at_pos() == old(self).at_pos() + 1,
            r is Err ==> final(self).at_pos() == old(self).at_pos(),
    {
        let token = *self.current();
        match token.kind {
            TokenKind::Ident => {
                let lexeme = token.lexeme(self.input);
                let ident = match self.context.classify(lexeme, token.span) {
                    Ok(ident) => ident,
                    Err(e) => return Err(e),
                };
                self.advance_position();
                Ok(Expr::new(ExprKind::Ident(ident), token.span))
            },
            TokenKind::Number(num) => {
                self.advance_position();
                Ok(Expr::new(ExprKind::Number(num), token.span))
            },
            _ => {
                let expected = vec![TokenKind::Ident, TokenKind::Number(0)];
                assert(expected@ == seq![TokenKind::Ident, TokenKind::Number(0)]);
                Err(give_non_expected_token_error(&token.kind, expected, token.span))
            },
        }
    }

    /// Consumes tokens greedy till final expression is gotten
    /// Used for fast Expression parsing
    pub fn parse_expr(&mut self) -> (r: Result<Expr, GlobalError>)
        requires
            old(self).wf(),
            !(expr_spec(old(self).toks(), old(self).input(), old(self).at_pos(), old(self).ctx()) is Stuck),
        ensures
            final(self).wf(),
            final(self).same_source(old(self)),
            final(self).ctx() == old(self).ctx(),
            matches_parsed(expr_spec(old(self).toks(), old(self).input(), old(self).at_pos(), old(self).ctx()), r, final(self).at_pos(), final(self).ctx()),
            r is Ok ==> final(self).at_pos() > old(self).at_pos(),
    {
        let ghost t0 = self.toks();
        let ghost i0 = self.input();
        let ghost p0 = self.at_pos();
        let ghost c0 = self.ctx();
        let mut expr = match self.parse_non_operand_expr() {
            Ok(e) => e,
            Err(e) => return Err(e),
        };
        let expr_span_start = expr.span.start;
        loop
            invariant
                self.wf(),
                self.toks() == t0,
                self.input() == i0,
                self.ctx() == c0,
                self.toks() == old(self).toks(),
                self.input() == old(self).input(),
                c0 == old(self).ctx(),
                expr.span.start == expr_span_start,
                expr_spec(t0, i0, p0, c0) == expr_rest_spec(t0, i0, self.at_pos(), c0, expr),
                !(expr_spec(t0, i0, p0, c0) is Stuck),
                p0 == old(self).at_pos(),
                self.at_pos() > p0,
            ensures
                self.at_pos() > old(self).at_pos(),
                self.wf(),
                self.toks() == old(self).toks(),
                self.input() == old(self).input(),
                self.ctx() == old(self).ctx(),
                expr_spec(t0, i0, p0, c0) == Parsed::Done(expr, at(self.at_pos(), c0)),
            decreases self.toks().len() - self.at_pos(),
        {
            let op = match self.peek() {
                Some(token) => match token.kind {
                    TokenKind::Plus => BinOp::new(BinOpKind::Add, token.span),
                    TokenKind::Minus => BinOp::new(BinOpKind::Sub, token.span),
                    _ => break,
                },
                None => break,
            };
            self.advance_position();
            let right_expr = match self.parse_non_operand_expr() {
                Ok(e) => e,
                Err(e) => return Err(e),
            };
            let expr_span_end = right_expr.span.end;
            expr = Expr::new(
                ExprKind::Binary { left: Box::new(expr), op, right: Box::new(right_expr) },
                Span { start: expr_span_start, end: expr_span_end },
            );
        }
        Ok(expr)
    }

    /// Consumes next Semicolon or Newline
    /// Returns NonExpectedTokenError when reading any other TokenKind
    pub fn parse_statement_end(&mut self) -> (r: Result<(), GlobalError>)
        requires
            old(self).wf(),
            !(statement_end_spec(old(self).toks(), old(self).at_pos()) is Stuck),
        ensures
            final(self).wf(),
            final(self).same_source(old(self)),
            final(self).ctx() == old(self).ctx(),
            matches_parsed_at(statement_end_spec(old(self).toks(), old(self).at_pos()), r, final(self).at_pos()),
            final(self).at_pos() == old(self).at_pos() + 1,
    {
        let token = *self.bump();
        match token.kind {
            TokenKind::Semicolon | TokenKind::Newline => Ok(()),
            _ => {
                let expected = vec![TokenKind::Semicolon, TokenKind::Newline];
                assert(expected@ == seq![TokenKind::Semicolon, TokenKind::Newline]);
                Err(give_non_expected_token_error(&token.kind, expected, token.span))
            },
        }
    }

    /// Consuming following token as Identifier and looking it up in the Parse Context
    /// Returns Error when not a Ident token
    /// Used for parsing expected Identifier
    pub fn parse_ident(&mut self) -> (r: Result<Ident, GlobalError>)
        requires
            old(self).wf(),
            !(ident_spec(old(self).toks(), old(self).input(), old(self).at_pos(), old(self).ctx()) is Stuck),
        ensures
            final(self).wf(),
            final(self).same_source(old(self)),
            final(self).ctx() == old(self).ctx(),
            matches_parsed(ident_spec(old(self).toks(), old(self).input(), old(self).at_pos(), old(self).ctx()), r, final(self).at_pos(), final(self).ctx()),
    {
        let token = *self.current();
        match token.kind {
            TokenKind::Ident => {
                let lexeme = token.lexeme(self.input);
                let ret = self.context.classify(lexeme, token.span);
                self.advance_position();
                ret
            },
            _ => {
                let expected = vec![TokenKind::Ident];
                assert(expected@ == seq![TokenKind::Ident]);
                Err(give_non_expected_token_error(&token.kind, expected, token.span))
            },
        }
    }

    /// Consumes the next tokens bound to a let statement, from its `let`
    /// token
    /// Return ParseError when not able to parse let statement
    pub fn parse_let(&mut self, let_token_span: Span) -> (r: Result<Statement, GlobalError>)
        requires
            old(self).wf(),
            !(let_spec(old(self).toks(), old(self).input(), old(self).at_pos(), old(self).ctx(), let_token_span) is Stuck),
        ensures
            final(self).wf(),
            final(self).same_source(old(self)),
            matches_statement(let_spec(old(self).toks(), old(self).input(), old(self).at_pos(), old(self).ctx(), let_token_span), r, final(self).at_pos(), final(self).ctx()),
            r is Ok ==> final(self).at_pos() > old(self).at_pos(),
    {
        let ghost p0 = self.at_pos();
        self.advance_position();
        let token = match self.expect(TokenKind::Ident) {
            Ok(t) => t,
            Err(e) => return Err(e),
        };
        let lexeme = token.lexeme(self.input);
        let ident = match self.context.new_ident(
            lexeme,
            IdentKind::Variable,
            Span { start: let_token_span.start, end: token.span.end },
        ) {
            Ok(ident) => ident,
            Err(e) => return Err(e),
        };
        let token = *self.current();
        match token.kind {
            TokenKind::Semicolon | TokenKind::Newline => {
                let new_statement = Statement::new(
                    StatementKind::Let { name: ident, value: None },
                    Span { start: let_token_span.start, end: token.span.end },
                );
                self.advance_position();
                return Ok(new_statement);
            },
            TokenKind::Equal => self.advance_position(),
            _ => {
                let expected = vec![TokenKind::Semicolon, TokenKind::Newline, TokenKind::Equal];
                assert(expected@ == seq![TokenKind::Semicolon, TokenKind::Newline, TokenKind::Equal]);
                return Err(give_non_expected_token_error(&token.kind, expected, token.span));
            },
        }
        let expr = match self.parse_expr() {
            Ok(e) => e,
            Err(e) => return Err(e),
        };
        match self.parse_statement_end() {
            Ok(()) => {},
            Err(e) => return Err(e),
        }
        let end = self.get_previous_token_end();
        Ok(Statement::new(StatementKind::Let { name: ident, value: Some(expr) }, Span { start: let_token_span.start, end }))
    }

    /// Consumes the next tokens bound to a loop statement
    /// Return ParseError when not able to parse loop statement
    pub fn parse_loop(&mut self) -> (r: Result<Statement, GlobalError>)
        requires
            old(self).wf(),
            !(loop_spec(old(self).toks(), old(self).input(), old(self).at_pos(), old(self).ctx()) is Stuck),
        ensures
            final(self).wf(),
            final(self).same_source(old(self)),
            matches_statement(loop_spec(old(self).toks(), old(self).input(), old(self).at_pos(), old(self).ctx()), r, final(self).at_pos(), final(self).ctx()),
            r is Ok ==> final(self).at_pos() > old(self).at_pos(),
            r is Ok ==> old(self).toks()[final(self).at_pos() - 1].kind is End,
            r matches Ok(st) ==> st.span == (Span {
                start: old(self).toks()[old(self).at_pos()].span.start,
                end: old(self).toks()[final(self).at_pos() - 1].span.end,
            }),
        decreases old(self).toks().len() - old(self).at_pos(), 0int,
    {
        proof {
            loop_spans_to_its_end(self.toks(), self.input(), self.at_pos(), self.ctx());
        }
        let ghost t0 = self.toks();
        let ghost i0 = self.input();
        let ghost p0 = self.at_pos();
        let ghost c0 = self.ctx();
        let loop_span = self.current().span;
        self.advance_position();
        let ident = match self.parse_ident() {
            Ok(ident) => ident,
            Err(e) => return Err(e),
        };
        let token = *self.bump();
        match token.kind {
            TokenKind::Do => {},
            _ => {
                let expected = vec![TokenKind::Do];
                assert(expected@ == seq![TokenKind::Do]);
                return Err(give_non_expected_token_error(&token.kind, expected, token.span));
            },
        }
        let mut loop_statements: Vec<Statement> = Vec::new();
        proof {
            assert(stmts_model(loop_statements@) =~= Seq::<StatementModel>::empty());
        }
        loop
            invariant_except_break
                body_spec(t0, i0, p0 + 3, c0, Seq::empty()) == body_spec(t0, i0, self.at_pos(), self.ctx(), stmts_model(loop_statements@)),
            invariant
                self.wf(),
                self.toks() == t0,
                self.input() == i0,
                t0 == old(self).toks(),
                i0 == old(self).input(),
                p0 == old(self).at_pos(),
                c0 == old(self).ctx(),
                self.at_pos() > p0,
                !(body_spec(t0, i0, p0 + 3, c0, Seq::empty()) is Stuck),
                loop_spec(t0, i0, p0, c0) == (match body_spec(t0, i0, p0 + 3, c0, Seq::empty()) {
                    Parsed::Done(body, st) => Parsed::Done(
                        crate::sem_parser::sem_parse_structure::Spanned {
                            node: crate::sem_parser::sem_parse_structure::StatementKindModel::Loop { var: ident, body },
                            span: Span { start: loop_span.start, end: prev_end(t0, st.pos) },
                        },
                        st,
                    ),
                    Parsed::Failed(e, st) => Parsed::Failed(e, st),
                    Parsed::Stuck => Parsed::Stuck,
                }),
            ensures
                self.wf(),
                self.toks() == old(self).toks(),
                self.input() == old(self).input(),
                self.at_pos() > old(self).at_pos(),
                body_spec(t0, i0, p0 + 3, c0, Seq::empty()) == Parsed::Done(stmts_model(loop_statements@), at(self.at_pos(), self.ctx())),
            decreases self.toks().len() - self.at_pos(),
        {
            match self.peek() {
                Some(token) => {
                    if token.kind == TokenKind::End {
                        self.advance_position();
                        break;
                    }
                    let statement = match self.parse_statement() {
                        Ok(st) => st,
                        Err(e) => return Err(e),
                    };
                    proof {
                        lemma_stmts_model_push(loop_statements@, statement);
                    }
                    loop_statements.push(statement);
                },
                None => {
                    let expected = vec![TokenKind::Let, TokenKind::Loop, TokenKind::End, TokenKind::Ident, TokenKind::Print];
                    assert(expected@ == crate::sem_parser::grammar::body_expected());
                    let len = self.input.len();
                    return Err(GlobalError::parse(ParseErrorKind::UnexpectedEOF(expected), Span { start: len, end: len }));
                },
            }
        }
        let end = self.get_previous_token_end();
        Ok(Statement::new(StatementKind::Loop { var: ident, body: loop_statements }, Span { start: loop_span.start, end }))
    }

    /// Decides from the first token what statement it is and parses it
    /// Returns ParseError when invalid statement is read
    /// Used for Recursive Descend Parsing Algorithm
    pub fn parse_statement(&mut self) -> (r: Result<Statement, GlobalError>)
        requires
            old(self).wf(),
            !(statement_spec(old(self).toks(), old(self).input(), old(self).at_pos(), old(self).ctx()) is Stuck),
        ensures
            final(self).wf(),
            final(self).same_source(old(self)),
            matches_statement(statement_spec(old(self).toks(), old(self).input(), old(self).at_pos(), old(self).ctx()), r, final(self).at_pos(), final(self).ctx()),
            r is Ok ==> final(self).at_pos() > old(self).at_pos(),
            r matches Ok(st) ==> st.span == (Span {
                start: old(self).toks()[old(self).at_pos()].span.start,
                end: old(self).toks()[final(self).at_pos() - 1].span.end,
            }),
        decreases old(self).toks().len() - old(self).at_pos(), 1int,
    {
        proof {
            statement_spans_its_tokens(self.toks(), self.input(), self.at_pos(), self.ctx());
        }
        let start_token = *self.current();
        let span = start_token.span;
        match start_token.kind {
            TokenKind::Let => self.parse_let(span),
            TokenKind::Equal | TokenKind::Plus | TokenKind::Minus | TokenKind::Do | TokenKind::End | TokenKind::Number(_) => {
                let expected = vec![TokenKind::Let, TokenKind::Loop, TokenKind::Print, TokenKind::Ident];
                assert(expected@ == seq![TokenKind::Let, TokenKind::Loop, TokenKind::Print, TokenKind::Ident]);
                Err(give_non_expected_token_error(&start_token.kind, expected, span))
            },
            TokenKind::EOF => {
                let len = self.input.len();
                Err(GlobalError::parse(ParseErrorKind::UnexpectedEnd, Span { start: len, end: len }))
            },
            TokenKind::Newline | TokenKind::Semicolon => {
                self.advance_position();
                Ok(Statement::new(StatementKind::Empty, span))
            },
            TokenKind::Loop => self.parse_loop(),
            TokenKind::Print => {
                self.advance_position();
                let ident = match self.parse_ident() {
                    Ok(ident) => ident,
                    Err(e) => return Err(e),
                };
                match self.parse_statement_end() {
                    Ok(()) => {},
                    Err(e) => return Err(e),
                }
                let statement_span = Span { start: span.start, end: self.get_previous_token_end() };
                Ok(Statement::new(StatementKind::Print { name: ident }, statement_span))
            },
            TokenKind::Ident => {
                let ident = match self.parse_ident() {
                    Ok(ident) => ident,
                    Err(e) => return Err(e),
                };
                match self.expect(TokenKind::Equal) {
                    Ok(_) => {},
                    Err(e) => return Err(e),
                }
                let expr = match self.parse_expr() {
                    Ok(e) => e,
                    Err(e) => return Err(e),
                };
                match self.parse_statement_end() {
                    Ok(()) => {},
                    Err(e) => return Err(e),
                }
                let statement_span = Span { start: span.start, end: self.get_previous_token_end() };
                Ok(Statement::new(StatementKind::Assign { name: ident, value: expr }, statement_span))
            },
        }
    }

    /// Consumes all tokens of Parser and parse a program out of it
    /// Returns ParseError when not be able to parse Tokens
    /// Used for Parsing whole file
    pub fn parse_program(&mut self) -> (r: Result<Program, GlobalError>)
        requires
            old(self).wf(),
            !(program_spec(old(self).toks(), old(self).input(), old(self).at_pos(), old(self).ctx(), Seq::empty()) is Stuck),
        ensures
            final(self).wf(),
            final(self).same_source(old(self)),
            match program_spec(old(self).toks(), old(self).input(), old(self).at_pos(), old(self).ctx(), Seq::empty()) {
                Parsed::Done(ss, st) => r is Ok && stmts_model(r->Ok_0.statements@) == ss && final(self).at_pos() == st.pos && final(self).ctx() == st.ctx,
                Parsed::Failed(e, st) => r is Err && r->Err_0@ == e && final(self).at_pos() == st.pos && final(self).ctx() == st.ctx,
                Parsed::Stuck => false,
            },
    {
        let ghost t0 = self.toks();
        let ghost i0 = self.input();
        let ghost p0 = self.at_pos();
        let ghost c0 = self.ctx();
        let mut statements: Vec<Statement> = Vec::new();
        proof {
            assert(stmts_model(statements@) =~= Seq::<StatementModel>::empty());
        }
        while self.current().kind != TokenKind::EOF
            invariant
                self.wf(),
                self.toks() == t0,
                self.input() == i0,
                t0 == old(self).toks(),
                i0 == old(self).input(),
                p0 == old(self).at_pos(),
                c0 == old(self).ctx(),
                program_spec(t0, i0, p0, c0, Seq::empty()) == program_spec(t0, i0, self.at_pos(), self.ctx(), stmts_model(statements@)),
                !(program_spec(t0, i0, p0, c0, Seq::empty()) is Stuck),
            decreases self.toks().len() - self.at_pos(),
        {
            let statement = match self.parse_statement() {
                Ok(st) => st,
                Err(e) => return Err(e),
            };
            proof {
                lemma_stmts_model_push(statements@, statement);
            }
            statements.push(statement);
        }
        Ok(Program { statements })
    }
}

/// Parser for parsing tokens from lexical analysis to simplified AST
///
/// Design choices
/// - parser context also handling semantic analysis of variables (no other semantic analysis needed)
/// - build up parse context for storing information like variables
pub fn parse(input_tokens: &[Token], input_str: &str) -> (r: Result<Program, GlobalError>)
    requires
        !(parse_spec(input_tokens@, input_str) is Stuck),
    ensures
        match parse_spec(input_tokens@, input_str) {
            Parsed::Done(ss, _) => r is Ok && stmts_model(r->Ok_0.statements@) == ss,
            Parsed::Failed(e, _) => r is Err && r->Err_0@ == e,
            Parsed::Stuck => false,
        },
{
    let parse_context = ParseContext::new();
    let _ = input_tokens.len();
    let mut parser: Parser = Parser::new(input_tokens, input_str, parse_context);
    parser.parse_program()
}

} // verus!
