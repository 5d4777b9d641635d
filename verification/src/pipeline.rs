//! What holds of the three stages run one after the other: lexing an
//! input, parsing its tokens and running the program.
use vstd::prelude::*;
use vstd::string::StringSliceAdditionalSpecFns;

use crate::error::{location_ok, LOOK_AFTER};
use crate::interpreter::semantics::{exec_block_error_within, initial_state, program_outcome, stmts_within, Halt};
use crate::lexer::lex::{lex_output_shape, lex_spec};
use crate::sem_parser::grammar::{parse_spec, Parsed};
use crate::sem_parser::scoping::parsed_program_declares_before_use;
use crate::sem_parser::sem_parse_structure::{
    lemma_models_within, lemma_stmts_model, model_within, models_use_declared, stmt_model, stmts_model, Program,
};
use crate::sem_parser::totality::{ascii_span_can_be_shown, input_len, lexed_tokens_ready, ready_tokens_never_stuck};

verus! {

/// Parsing what the lexer produced from an input never gets stuck: on
/// every input that lexes, parsing gives a program or an error, and the
/// message of that error can be generated with the input around it.
pub proof fn lexed_input_never_stuck(input: &str)
    requires
        input.spec_bytes().len() + LOOK_AFTER <= usize::MAX,
        lex_spec(input.spec_bytes()) is Ok,
    ensures
        !(parse_spec(lex_spec(input.spec_bytes())->Ok_0, input) is Stuck),
        parse_spec(lex_spec(input.spec_bytes())->Ok_0, input) matches Parsed::Failed(e, _) ==> location_ok(e.span, input),
{
    let tokens = lex_spec(input.spec_bytes())->Ok_0;
    lex_output_shape(input.spec_bytes());
    lexed_tokens_ready(tokens, input);
    ready_tokens_never_stuck(tokens, input);
    if let Parsed::Failed(e, _) = parse_spec(tokens, input) {
        ascii_span_can_be_shown(input, e.span);
    }
}

/// A runtime error of a program parsed from what the lexer produced can
/// be shown with the input around it, where the end of the input leaves
/// room for the look after.
pub proof fn runtime_errors_can_be_shown(input: &str, program: Program)
    requires
        input.spec_bytes().len() + LOOK_AFTER <= usize::MAX,
        lex_spec(input.spec_bytes()) is Ok,
        parse_spec(lex_spec(input.spec_bytes())->Ok_0, input) matches Parsed::Done(ms, _) && stmts_model(program.statements@) == ms,
    ensures
        program_outcome(program).halt matches Some(Halt::Error(e)) ==> location_ok(e.span, input),
{
    let tokens = lex_spec(input.spec_bytes())->Ok_0;
    let n = input_len(input);
    lex_output_shape(input.spec_bytes());
    lexed_tokens_ready(tokens, input);
    ready_tokens_never_stuck(tokens, input);
    let stmts = program.statements@;
    lemma_stmts_model(stmts);
    lemma_models_within(stmts_model(stmts), n);
    assert(stmts_within(stmts, n)) by {
        assert forall|j: int| 0 <= j < stmts.len() implies model_within(#[trigger] stmt_model(stmts[j]), n) by {
            assert(stmts_model(stmts)[j] == stmt_model(stmts[j]));
        }
    }
    exec_block_error_within(stmts, 0, initial_state(), n);
    if let Some(Halt::Error(e)) = program_outcome(program).halt {
        ascii_span_can_be_shown(input, e.span);
    }
}

/// In the program parsed from what the lexer produced, every variable is
/// declared before it is used: each identifier that a statement assigns,
/// loops over or prints, and each that an expression reads, is bound to a
/// `let` whose text ends before the place of the use.
pub proof fn lexed_programs_declare_before_use(input: &str, program: Program)
    requires
        input.spec_bytes().len() <= usize::MAX,
        lex_spec(input.spec_bytes()) is Ok,
        parse_spec(lex_spec(input.spec_bytes())->Ok_0, input) matches Parsed::Done(ms, _) && stmts_model(program.statements@) == ms,
    ensures
        models_use_declared(stmts_model(program.statements@)),
{
    let tokens = lex_spec(input.spec_bytes())->Ok_0;
    lex_output_shape(input.spec_bytes());
    lexed_tokens_ready(tokens, input);
    parsed_program_declares_before_use(tokens, input);
}

} // verus!
