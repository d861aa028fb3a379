//! What an emitted program computes, and that it is the value of the
//! expression it was emitted for.

use crate::emit::{accumulation, addend, emission, AsmLine};
use crate::error::EmitError;
use crate::token::{front_number, Token, TokenKind};
use vstd::prelude::*;

verus! {

/// The accumulator after `line`, which finds it at `acc`.
pub open spec fn step(line: AsmLine, acc: int) -> int {
    match line {
        AsmLine::Load { imm } => imm as int,
        AsmLine::Add { imm } => acc + imm,
        _ => acc,
    }
}

/// The accumulator after the lines of `program`, run in order from an
/// accumulator of 0.
pub open spec fn accumulator_after(program: Seq<AsmLine>) -> int
    decreases program.len(),
{
    if program.len() == 0 {
        0
    } else {
        step(program.last(), accumulator_after(program.drop_last()))
    }
}

/// `left + right` where `op` is `+`, `left - right` where it is `-`.
pub open spec fn apply(op: char, left: int, right: int) -> int {
    if op == '-' {
        left - right
    } else {
        left + right
    }
}

/// The number that `token` holds; 0 where it is no number.
pub open spec fn operand(token: Token) -> int {
    match token.token_kind {
        TokenKind::NUM { val } => val as int,
        _ => 0,
    }
}

/// The symbol that `token` holds; `+` where it is no operator.
pub open spec fn operator(token: Token) -> char {
    match token.token_kind {
        TokenKind::PUNCT { op } => op,
        _ => '+',
    }
}

/// The value of the expression `tokens`, a number followed by pairs of an
/// operator and a number: the operators are applied from left to right, none
/// before another. So the last operator applies to the value of all that
/// stands before it and to the last number.
pub open spec fn expression_value(tokens: Seq<Token>) -> int
    decreases tokens.len(),
{
    if tokens.len() < 3 {
        operand(tokens[0])
    } else {
        let before = tokens.take(tokens.len() - 2);
        apply(
            operator(tokens[tokens.len() - 2]),
            expression_value(before),
            operand(tokens.last()),
        )
    }
}

/// Where a sequence of pairs has its lines, the sequence without its last
/// pair has the same lines without the last, and the last line is that of
/// the last pair.
proof fn lemma_accumulation_last(pairs: Seq<Token>)
    requires
        accumulation(pairs) is Ok,
    ensures
        pairs.len() == 2 * accumulation(pairs)->Ok_0.len(),
        pairs.len() > 0 ==> {
            let adds = accumulation(pairs)->Ok_0;
            let n = pairs.len();
            &&& accumulation(pairs.take(n - 2)) == Ok::<Seq<AsmLine>, EmitError>(adds.drop_last())
            &&& pairs[n - 2].token_kind is PUNCT
            &&& pairs[n - 1].token_kind is NUM
            &&& Ok::<AsmLine, EmitError>(adds.last()) == addend(
                operator(pairs[n - 2]),
                pairs[n - 1].token_kind->val,
            )
        },
    decreases pairs.len(),
{
    if pairs.len() > 0 {
        let n = pairs.len();
        let rest = pairs.skip(2);
        let line = addend(operator(pairs[0]), front_number(pairs.skip(1))->Ok_0)->Ok_0;
        let adds = accumulation(pairs)->Ok_0;
        assert(adds == seq![line] + accumulation(rest)->Ok_0);
        lemma_accumulation_last(rest);
        if rest.len() == 0 {
            assert(pairs.take(n - 2) =~= Seq::<Token>::empty());
            assert(adds.drop_last() =~= Seq::<AsmLine>::empty());
        } else {
            let shorter = pairs.take(n - 2);
            assert(shorter.skip(1)[0] == pairs.skip(1)[0]);
            assert(shorter.skip(2) =~= rest.take(rest.len() - 2));
            assert(adds.drop_last() =~= seq![line] + accumulation(rest)->Ok_0.drop_last());
        }
    }
}

/// The program emitted for an expression leaves the value of the expression
/// in the accumulator.
pub proof fn lemma_emitted_program_computes_expression(tokens: Seq<Token>)
    requires
        emission(tokens) is Ok,
    ensures
        accumulator_after(emission(tokens)->Ok_0) == expression_value(tokens),
{
    let first = front_number(tokens)->Ok_0;
    let adds = accumulation(tokens.skip(1))->Ok_0;
    let opening = seq![
        AsmLine::EntryDirective,
        AsmLine::EntryLabel,
        AsmLine::Load { imm: first as i64 },
    ];
    let program = emission(tokens)->Ok_0;
    assert(program.drop_last() =~= opening + adds);
    lemma_opening_computes_expression(tokens);
}

/// The program for an expression, before its `Return`, leaves the value of
/// the expression in the accumulator.
proof fn lemma_opening_computes_expression(tokens: Seq<Token>)
    requires
        front_number(tokens) is Ok,
        accumulation(tokens.skip(1)) is Ok,
    ensures
        accumulator_after(
            seq![
                AsmLine::EntryDirective,
                AsmLine::EntryLabel,
                AsmLine::Load { imm: front_number(tokens)->Ok_0 as i64 },
            ] + accumulation(tokens.skip(1))->Ok_0,
        ) == expression_value(tokens),
    decreases tokens.len(),
{
    let first = front_number(tokens)->Ok_0;
    let pairs = tokens.skip(1);
    let adds = accumulation(pairs)->Ok_0;
    let opening = seq![
        AsmLine::EntryDirective,
        AsmLine::EntryLabel,
        AsmLine::Load { imm: first as i64 },
    ];
    lemma_accumulation_last(pairs);
    if pairs.len() == 0 {
        assert(opening + adds =~= opening);
        assert(opening.drop_last() =~= seq![AsmLine::EntryDirective, AsmLine::EntryLabel]);
    } else {
        let n = tokens.len();
        let before = tokens.take(n - 2);
        assert(before.skip(1) =~= pairs.take(pairs.len() - 2));
        assert(before[0] == tokens[0]);
        lemma_opening_computes_expression(before);
        assert((opening + adds).drop_last() =~= opening + adds.drop_last());
        assert((opening + adds).last() == adds.last());
        assert(tokens[n - 2] == pairs[pairs.len() - 2]);
        assert(tokens[n - 1] == pairs[pairs.len() - 1]);
    }
}

/// The value of the chain `values[0] op values[1] op ...`, with the
/// operators of `operators` between the values: the operators are applied
/// from left to right, none before another.
pub open spec fn chain_value(values: Seq<int>, operators: Seq<char>) -> int
    recommends
        values.len() == operators.len() + 1,
    decreases operators.len(),
{
    if operators.len() == 0 {
        values[0]
    } else {
        apply(
            operators.last(),
            chain_value(values.drop_last(), operators.drop_last()),
            values.last(),
        )
    }
}

/// The value of an expression is that of the chain of its numbers and
/// operators.
pub proof fn lemma_expression_value_is_chain_value(
    tokens: Seq<Token>,
    values: Seq<int>,
    operators: Seq<char>,
)
    requires
        values.len() == operators.len() + 1,
        tokens.len() == values.len() + operators.len(),
        forall|j: int| 0 <= j < values.len() ==> operand(tokens[2 * j]) == #[trigger] values[j],
        forall|j: int|
            0 <= j < operators.len() ==> operator(tokens[2 * j + 1]) == #[trigger] operators[j],
    ensures
        expression_value(tokens) == chain_value(values, operators),
    decreases operators.len(),
{
    let k = operators.len() as int;
    if k == 0 {
        assert(operand(tokens[2 * 0int]) == values[0]);
    } else {
        let before = tokens.take(tokens.len() - 2);
        let fewer = values.drop_last();
        let earlier = operators.drop_last();
        assert forall|j: int| 0 <= j < fewer.len() implies operand(before[2 * j])
            == #[trigger] fewer[j] by {
            assert(fewer[j] == values[j]);
        }
        assert forall|j: int| 0 <= j < earlier.len() implies operator(before[2 * j + 1])
            == #[trigger] earlier[j] by {
            assert(earlier[j] == operators[j]);
        }
        lemma_expression_value_is_chain_value(before, fewer, earlier);
        assert(operator(tokens[2 * (k - 1) + 1]) == operators[k - 1]);
        assert(operand(tokens[2 * k]) == values[k]);
    }
}

} // verus!
