//! The whole pipeline: from the text of an expression to its program.

use crate::chars::{all_whitespace, is_operator};
use crate::decimal::decimal_value;
use crate::emit::{accumulation, emission, emit, lemma_emission_of_expression, AsmLine};
use crate::error::{CompileError, EmitError};
use crate::eval::{
    accumulator_after, chain_value, lemma_emitted_program_computes_expression,
    lemma_expression_value_is_chain_value, operand, operator,
};
use crate::spacing::{
    expression_words, is_number_word, lemma_lex_blank, lemma_lex_expression, spaced_text,
};
use crate::texts::{is_lexical, lemma_lex_gives_lexical_tokens};
use crate::token::{lex, tokenize, Token};
use vstd::prelude::*;

verus! {

/// The program for the text `s`: the program for its tokens, or the first
/// error on the way. A text that has no tokens fails as one whose tokens are
/// no expression.
pub open spec fn compilation(s: Seq<char>) -> Result<Seq<AsmLine>, CompileError> {
    match lex(s) {
        Err(error) => Err(CompileError::Lex(error)),
        Ok(tokens) => match emission(tokens) {
            Err(error) => Err(CompileError::Emit(error)),
            Ok(program) => Ok(program),
        },
    }
}

/// Compiles the expression `raw` into the program that computes it.
pub fn compile(raw: &str) -> (result: Result<Vec<AsmLine>, CompileError>)
    ensures
        match result {
            Ok(program) => compilation(raw@) == Ok::<Seq<AsmLine>, CompileError>(program@),
            Err(error) => compilation(raw@) == Err::<Seq<AsmLine>, CompileError>(error),
        },
{
    let tokens = match tokenize(raw) {
        Ok(tokens) => tokens,
        Err(error) => {
            return Err(CompileError::Lex(error));
        },
    };
    match emit(tokens) {
        Ok(program) => Ok(program),
        Err(error) => Err(CompileError::Emit(error)),
    }
}

/// A text that is empty, or whitespace alone, has no tokens, and so has no
/// first number: it fails with `ExpectedNumber`.
pub proof fn lemma_blank_text_expects_number(s: Seq<char>)
    requires
        all_whitespace(s),
    ensures
        emission(Seq::empty()) == Err::<Seq<AsmLine>, EmitError>(EmitError::ExpectedNumber),
        compilation(s) == Err::<Seq<AsmLine>, CompileError>(
            CompileError::Emit(EmitError::ExpectedNumber),
        ),
{
    lemma_lex_blank(s);
}

/// Tokens that the lexer gives never fail for their operators' sake.
proof fn lemma_lexical_operators_are_known(tokens: Seq<Token>)
    requires
        forall|i: int| 0 <= i < tokens.len() ==> is_lexical((#[trigger] tokens[i]).token_kind),
    ensures
        accumulation(tokens) != Err::<Seq<AsmLine>, EmitError>(EmitError::UnknownOperator),
    decreases tokens.len(),
{
    if tokens.len() >= 2 {
        let rest = tokens.skip(2);
        assert forall|i: int| 0 <= i < rest.len() implies is_lexical(
            (#[trigger] rest[i]).token_kind,
        ) by {
            assert(rest[i] == tokens[i + 2]);
        }
        lemma_lexical_operators_are_known(rest);
        assert(is_lexical(tokens[0].token_kind));
    }
}

/// No text fails with `UnknownOperator`: every operator that the lexer lets
/// through is one that the emitter knows.
pub proof fn lemma_compile_knows_every_operator(s: Seq<char>)
    ensures
        compilation(s) != Err::<Seq<AsmLine>, CompileError>(
            CompileError::Emit(EmitError::UnknownOperator),
        ),
{
    if let Ok(tokens) = lex(s) {
        lemma_lex_gives_lexical_tokens(s);
        if tokens.len() > 0 {
            let rest = tokens.skip(1);
            assert forall|i: int| 0 <= i < rest.len() implies is_lexical(
                (#[trigger] rest[i]).token_kind,
            ) by {
                assert(rest[i] == tokens[i + 1]);
            }
            lemma_lexical_operators_are_known(rest);
        }
    }
}

/// The numbers that the numerals of `numbers` denote.
pub open spec fn values_of(numbers: Seq<Seq<char>>) -> Seq<int> {
    Seq::new(numbers.len(), |j: int| decimal_value(numbers[j]) as int)
}

/// An expression compiles, whatever whitespace stands around its numbers and
/// operators, and its program leaves in the accumulator the value of the
/// chain that the expression writes down.
pub proof fn lemma_expression_compiles(
    numbers: Seq<Seq<char>>,
    operators: Seq<char>,
    gaps: Seq<Seq<char>>,
)
    requires
        numbers.len() == operators.len() + 1,
        forall|j: int| 0 <= j < numbers.len() ==> is_number_word(#[trigger] numbers[j]),
        forall|j: int| 0 <= j < operators.len() ==> is_operator(#[trigger] operators[j]),
        gaps.len() == numbers.len() + operators.len() + 1,
        forall|i: int| 0 <= i < gaps.len() ==> all_whitespace(#[trigger] gaps[i]),
    ensures
        ({
            let text = spaced_text(expression_words(numbers, operators), gaps);
            &&& compilation(text) is Ok
            &&& accumulator_after(compilation(text)->Ok_0) == chain_value(
                values_of(numbers),
                operators,
            )
        }),
{
    let text = spaced_text(expression_words(numbers, operators), gaps);
    let values = values_of(numbers);
    lemma_lex_expression(numbers, operators, gaps);
    let tokens = lex(text)->Ok_0;
    assert forall|i: int| 0 <= i < tokens.len() && i % 2 == 0 implies (
    #[trigger] tokens[i]).token_kind is NUM by {
        assert(tokens[i] == tokens[2 * (i / 2)]);
        assert(is_number_word(numbers[i / 2]));
    }
    assert forall|i: int| 0 <= i < tokens.len() && i % 2 == 1 implies (
    #[trigger] tokens[i]).token_kind is PUNCT && is_operator(tokens[i].token_kind->op) by {
        assert(tokens[i] == tokens[2 * (i / 2) + 1]);
        assert(is_operator(operators[i / 2]));
    }
    lemma_emission_of_expression(tokens);
    lemma_emitted_program_computes_expression(tokens);
    assert forall|j: int| 0 <= j < values.len() implies operand(tokens[2 * j])
        == #[trigger] values[j] by {
        assert(is_number_word(numbers[j]));
    }
    assert forall|j: int| 0 <= j < operators.len() implies operator(tokens[2 * j + 1])
        == #[trigger] operators[j] by {
        assert(is_operator(operators[j]));
    }
    lemma_expression_value_is_chain_value(tokens, values, operators);
}

} // verus!
