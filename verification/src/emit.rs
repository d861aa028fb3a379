//! The emitter: from a token sequence to the lines of an assembly program
//! that computes the expression in the accumulator register `a0`.

use crate::chars::is_operator;
use crate::decimal::{decimal_text, push_decimal};
use crate::error::EmitError;
use crate::token::{consume_one_num, front_number, Token, TokenKind, TokenNumType};
use std::collections::VecDeque;
use vstd::prelude::*;

verus! {

/// One line of the emitted program.
#[derive(Clone, Copy, Debug, PartialEq, Eq, Structural)]
pub enum AsmLine {
    /// `.global main`: declares the entry symbol.
    EntryDirective,
    /// `main:`: the entry label.
    EntryLabel,
    /// `li a0, imm`: loads `imm` into the accumulator.
    Load { imm: i64 },
    /// `add a0, a0, imm`: adds `imm` to the accumulator.
    Add { imm: i64 },
    /// `ret`: returns, with the accumulator as the result.
    Return,
}

impl AsmLine {
    /// The text of this line, as the assembler reads it.
    pub open spec fn text(self) -> Seq<char> {
        match self {
            AsmLine::EntryDirective => "  .global main"@,
            AsmLine::EntryLabel => "main:"@,
            AsmLine::Load { imm } => "  li a0, "@ + decimal_text(imm as int),
            AsmLine::Add { imm } => "  add a0, a0, "@ + decimal_text(imm as int),
            AsmLine::Return => "  ret"@,
        }
    }

    /// Writes this line out.
    pub fn render(&self) -> (line: String)
        ensures
            line@ == self.text(),
    {
        match self {
            AsmLine::EntryDirective => "  .global main".to_owned(),
            AsmLine::EntryLabel => "main:".to_owned(),
            AsmLine::Load { imm } => {
                let mut line = "  li a0, ".to_owned();
                push_decimal(&mut line, *imm);
                line
            },
            AsmLine::Add { imm } => {
                let mut line = "  add a0, a0, ".to_owned();
                push_decimal(&mut line, *imm);
                line
            },
            AsmLine::Return => "  ret".to_owned(),
        }
    }
}

/// Writes out the lines of `program`, in order.
pub fn listing(program: &Vec<AsmLine>) -> (lines: Vec<String>)
    ensures
        lines@.len() == program@.len(),
        forall|i: int| 0 <= i < program@.len() ==> (#[trigger] lines@[i])@ == program@[i].text(),
{
    let mut lines: Vec<String> = Vec::new();
    let mut done: usize = 0;
    while done < program.len()
        invariant
            done <= program@.len(),
            lines@.len() == done,
            forall|i: int| 0 <= i < done ==> (#[trigger] lines@[i])@ == program@[i].text(),
        decreases program@.len() - done,
    {
        lines.push(program[done].render());
        done = done + 1;
    }
    lines
}

/// The lines `done`, followed by what `rest` holds; the error of `rest`, if
/// it holds one.
pub open spec fn lines_then(done: Seq<AsmLine>, rest: Result<Seq<AsmLine>, EmitError>) -> Result<
    Seq<AsmLine>,
    EmitError,
> {
    match rest {
        Ok(lines) => Ok(done + lines),
        Err(error) => Err(error),
    }
}

/// What the operator `op` adds to the accumulator for the operand `val`: the
/// operand itself for `+`, its negation for `-`. No line for another symbol.
pub open spec fn addend(op: char, val: TokenNumType) -> Result<AsmLine, EmitError> {
    if op == '+' {
        Ok(AsmLine::Add { imm: val as i64 })
    } else if op == '-' {
        Ok(AsmLine::Add { imm: (-val) as i64 })
    } else {
        Err(EmitError::UnknownOperator)
    }
}

/// The lines for `tokens`, which are to be pairs of an operator and a
/// number: one `Add` for each pair, in order.
///
/// The first pair that is none ends it with an error: `ExpectedOperator`
/// where the operator is not one, else `NotANumber` where the number is
/// missing or not one, else `UnknownOperator`.
pub open spec fn accumulation(tokens: Seq<Token>) -> Result<Seq<AsmLine>, EmitError>
    decreases tokens.len(),
{
    if tokens.len() == 0 {
        Ok(Seq::empty())
    } else {
        match tokens[0].token_kind {
            TokenKind::PUNCT { op } => match front_number(tokens.skip(1)) {
                Err(error) => Err(error),
                Ok(val) => match addend(op, val) {
                    Err(error) => Err(error),
                    Ok(line) => lines_then(seq![line], accumulation(tokens.skip(2))),
                },
            },
            _ => Err(EmitError::ExpectedOperator),
        }
    }
}

/// The program for `tokens`: the entry directive and label, a `Load` of the
/// first number, an `Add` for each operator and the number after it, and
/// `Return`. `ExpectedNumber` where `tokens` does not begin with a number.
pub open spec fn emission(tokens: Seq<Token>) -> Result<Seq<AsmLine>, EmitError> {
    match front_number(tokens) {
        Err(_) => Err(EmitError::ExpectedNumber),
        Ok(first) => match accumulation(tokens.skip(1)) {
            Err(error) => Err(error),
            Ok(adds) => Ok(
                seq![AsmLine::EntryDirective, AsmLine::EntryLabel, AsmLine::Load { imm: first as i64 }]
                    + adds + seq![AsmLine::Return],
            ),
        },
    }
}

/// The program `done`, the lines that `rest` holds and `Return`; the error of
/// `rest` if it holds one.
spec fn closed_by(done: Seq<AsmLine>, rest: Result<Seq<AsmLine>, EmitError>) -> Result<
    Seq<AsmLine>,
    EmitError,
> {
    match rest {
        Ok(lines) => Ok(done + lines + seq![AsmLine::Return]),
        Err(error) => Err(error),
    }
}

/// Moving the first of the remaining lines to those that are done changes
/// nothing.
proof fn lemma_closed_by_push(
    done: Seq<AsmLine>,
    line: AsmLine,
    rest: Result<Seq<AsmLine>, EmitError>,
)
    ensures
        closed_by(done, lines_then(seq![line], rest)) == closed_by(done.push(line), rest),
{
    if let Ok(lines) = rest {
        assert(done + (seq![line] + lines) =~= done.push(line) + lines);
    }
}

/// The line that the operator `op` and the operand `val` give.
fn add_line(op: char, val: TokenNumType) -> (result: Result<AsmLine, EmitError>)
    ensures
        result == addend(op, val),
{
    if op == '+' {
        Ok(AsmLine::Add { imm: val as i64 })
    } else if op == '-' {
        Ok(AsmLine::Add { imm: -(val as i64) })
    } else {
        Err(EmitError::UnknownOperator)
    }
}

/// Emits the program that computes the expression `tokens`.
///
/// The tokens are to be a number, then pairs of an operator and a number.
/// Returns the lines of the program, or the error at the first token that
/// does not fit.
pub fn emit(tokens: VecDeque<Token>) -> (result: Result<Vec<AsmLine>, EmitError>)
    ensures
        match result {
            Ok(lines) => emission(tokens@) == Ok::<Seq<AsmLine>, EmitError>(lines@),
            Err(error) => emission(tokens@) == Err::<Seq<AsmLine>, EmitError>(error),
        },
{
    let mut queue = tokens;
    let mut lines: Vec<AsmLine> = Vec::new();
    lines.push(AsmLine::EntryDirective);
    lines.push(AsmLine::EntryLabel);
    let first = match consume_one_num(&mut queue) {
        Ok(first) => first,
        Err(_) => {
            return Err(EmitError::ExpectedNumber);
        },
    };
    lines.push(AsmLine::Load { imm: first as i64 });
    proof {
        assert(lines@ =~= seq![
            AsmLine::EntryDirective,
            AsmLine::EntryLabel,
            AsmLine::Load { imm: first as i64 },
        ]);
    }
    while queue.len() > 0
        invariant
            emission(tokens@) == closed_by(lines@, accumulation(queue@)),
        decreases queue@.len(),
    {
        let ghost before = queue@;
        let op = match queue.pop_front() {
            Some(Token { token_kind: TokenKind::PUNCT { op }, .. }) => op,
            _ => {
                return Err(EmitError::ExpectedOperator);
            },
        };
        assert(queue@ =~= before.skip(1));
        let val = match consume_one_num(&mut queue) {
            Ok(val) => val,
            Err(error) => {
                return Err(error);
            },
        };
        assert(queue@ =~= before.skip(2));
        let line = match add_line(op, val) {
            Ok(line) => line,
            Err(error) => {
                return Err(error);
            },
        };
        proof {
            lemma_closed_by_push(lines@, line, accumulation(queue@));
        }
        lines.push(line);
    }
    proof {
        assert(lines@ + Seq::<AsmLine>::empty() + seq![AsmLine::Return] =~= lines@.push(
            AsmLine::Return,
        ));
    }
    lines.push(AsmLine::Return);
    Ok(lines)
}

/// Whether `tokens` are an expression: numbers and operators in turn, first
/// and last a number, each operator `+` or `-`.
pub open spec fn is_expression(tokens: Seq<Token>) -> bool {
    &&& tokens.len() % 2 == 1
    &&& forall|i: int|
        0 <= i < tokens.len() && i % 2 == 0 ==> (#[trigger] tokens[i]).token_kind is NUM
    &&& forall|i: int|
        0 <= i < tokens.len() && i % 2 == 1 ==> (#[trigger] tokens[i]).token_kind is PUNCT
            && is_operator(tokens[i].token_kind->op)
}

/// The line for operator `j` of the expression `tokens` and the number after
/// it.
pub open spec fn operation(tokens: Seq<Token>, j: int) -> Result<AsmLine, EmitError> {
    addend(tokens[2 * j + 1].token_kind->op, tokens[2 * j + 2].token_kind->val)
}

/// Whether `pairs` are operators and numbers in turn, first an operator and
/// last a number, each operator `+` or `-`.
spec fn is_pairs(pairs: Seq<Token>) -> bool {
    &&& pairs.len() % 2 == 0
    &&& forall|i: int|
        0 <= i < pairs.len() && i % 2 == 0 ==> (#[trigger] pairs[i]).token_kind is PUNCT
            && is_operator(pairs[i].token_kind->op)
    &&& forall|i: int|
        0 <= i < pairs.len() && i % 2 == 1 ==> (#[trigger] pairs[i]).token_kind is NUM
}

/// The line for pair `j` of `pairs`.
spec fn pair_line(pairs: Seq<Token>, j: int) -> Result<AsmLine, EmitError> {
    addend(pairs[2 * j].token_kind->op, pairs[2 * j + 1].token_kind->val)
}

/// Pairs have their lines if and only if they are operators and numbers in
/// turn; and then there is one line for each pair, in order.
proof fn lemma_accumulation_of_pairs(pairs: Seq<Token>)
    ensures
        accumulation(pairs) is Ok <==> is_pairs(pairs),
        accumulation(pairs) is Ok ==> {
            let adds = accumulation(pairs)->Ok_0;
            &&& 2 * adds.len() == pairs.len()
            &&& forall|j: int|
                0 <= j < adds.len() ==> Ok::<AsmLine, EmitError>(adds[j]) == #[trigger] pair_line(
                    pairs,
                    j,
                )
        },
    decreases pairs.len(),
{
    if pairs.len() == 1 {
        assert(pairs[0].token_kind is PUNCT ==> front_number(pairs.skip(1)) is Err);
    } else if pairs.len() >= 2 {
        let rest = pairs.skip(2);
        lemma_accumulation_of_pairs(rest);
        assert(pairs.skip(1)[0] == pairs[1]);
        if is_pairs(pairs) {
            assert(pairs[0].token_kind is PUNCT);
            assert(pairs[1].token_kind is NUM);
            assert forall|i: int| 0 <= i < rest.len() && i % 2 == 0 implies (
            #[trigger] rest[i]).token_kind is PUNCT && is_operator(rest[i].token_kind->op) by {
                assert(rest[i] == pairs[i + 2]);
            }
            assert forall|i: int| 0 <= i < rest.len() && i % 2 == 1 implies (
            #[trigger] rest[i]).token_kind is NUM by {
                assert(rest[i] == pairs[i + 2]);
            }
            assert(is_pairs(rest));
        }
        if accumulation(pairs) is Ok {
            let adds = accumulation(pairs)->Ok_0;
            let tail = accumulation(rest)->Ok_0;
            assert(adds == seq![pair_line(pairs, 0)->Ok_0] + tail);
            assert forall|i: int| 0 <= i < pairs.len() && i % 2 == 0 implies (
            #[trigger] pairs[i]).token_kind is PUNCT && is_operator(pairs[i].token_kind->op) by {
                if i >= 2 {
                    assert(pairs[i] == rest[i - 2]);
                }
            }
            assert forall|i: int| 0 <= i < pairs.len() && i % 2 == 1 implies (
            #[trigger] pairs[i]).token_kind is NUM by {
                if i >= 2 {
                    assert(pairs[i] == rest[i - 2]);
                }
            }
            assert forall|j: int| 0 <= j < adds.len() implies Ok::<AsmLine, EmitError>(adds[j])
                == #[trigger] pair_line(pairs, j) by {
                if j > 0 {
                    assert(adds[j] == tail[j - 1]);
                    assert(Ok::<AsmLine, EmitError>(tail[j - 1]) == pair_line(rest, j - 1));
                    assert(rest[2 * (j - 1)] == pairs[2 * j]);
                    assert(rest[2 * (j - 1) + 1] == pairs[2 * j + 1]);
                }
            }
        }
    }
}

/// Tokens have a program if and only if they are an expression. The program
/// of an expression with `k` operators has `k + 4` lines: the entry
/// directive, the entry label, a `Load` of the first number, for each
/// operator in order the `Add` of its operation, and `Return`.
pub proof fn lemma_emission_of_expression(tokens: Seq<Token>)
    ensures
        emission(tokens) is Ok <==> is_expression(tokens),
        emission(tokens) is Ok ==> {
            let program = emission(tokens)->Ok_0;
            let k = tokens.len() as int / 2;
            &&& program.len() == k + 4
            &&& program[0] == AsmLine::EntryDirective
            &&& program[1] == AsmLine::EntryLabel
            &&& program[2] == AsmLine::Load { imm: tokens[0].token_kind->val as i64 }
            &&& forall|j: int|
                0 <= j < k ==> Ok::<AsmLine, EmitError>(program[3 + j]) == #[trigger] operation(
                    tokens,
                    j,
                )
            &&& program[k + 3] == AsmLine::Return
        },
{
    if tokens.len() > 0 {
        let pairs = tokens.skip(1);
        lemma_accumulation_of_pairs(pairs);
        if is_expression(tokens) {
            assert(tokens[0].token_kind is NUM);
            assert forall|i: int| 0 <= i < pairs.len() && i % 2 == 0 implies (
            #[trigger] pairs[i]).token_kind is PUNCT && is_operator(pairs[i].token_kind->op) by {
                assert(pairs[i] == tokens[i + 1]);
            }
            assert forall|i: int| 0 <= i < pairs.len() && i % 2 == 1 implies (
            #[trigger] pairs[i]).token_kind is NUM by {
                assert(pairs[i] == tokens[i + 1]);
            }
            assert(is_pairs(pairs));
        }
        if emission(tokens) is Ok {
            let program = emission(tokens)->Ok_0;
            let adds = accumulation(pairs)->Ok_0;
            let k = tokens.len() as int / 2;
            assert forall|i: int| 0 <= i < tokens.len() && i % 2 == 0 implies (
            #[trigger] tokens[i]).token_kind is NUM by {
                if i > 0 {
                    assert(tokens[i] == pairs[i - 1]);
                }
            }
            assert forall|i: int| 0 <= i < tokens.len() && i % 2 == 1 implies (
            #[trigger] tokens[i]).token_kind is PUNCT && is_operator(tokens[i].token_kind->op) by {
                assert(tokens[i] == pairs[i - 1]);
            }
            assert forall|j: int| 0 <= j < k implies Ok::<AsmLine, EmitError>(program[3 + j])
                == #[trigger] operation(tokens, j) by {
                assert(program[3 + j] == adds[j]);
                assert(Ok::<AsmLine, EmitError>(adds[j]) == pair_line(pairs, j));
                assert(pairs[2 * j] == tokens[2 * j + 1]);
                assert(pairs[2 * j + 1] == tokens[2 * j + 2]);
            }
        }
    }
}

} // verus!
