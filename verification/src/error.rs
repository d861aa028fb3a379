//! The ways in which lexing and emission fail.

use vstd::prelude::*;

verus! {

/// Why a text could not be split into tokens.
#[derive(Clone, Copy, Debug, PartialEq, Eq, Structural)]
pub enum LexError {
    /// The character `ch`, at byte offset `loc`, can be part of no token.
    InvalidToken { ch: char, loc: u64 },
    /// The run of digits that begins at byte offset `loc` denotes a number
    /// that a token cannot hold.
    NumberOverflow { loc: u64 },
}

/// Why a token sequence is not an expression.
#[derive(Clone, Copy, Debug, PartialEq, Eq, Structural)]
pub enum EmitError {
    /// The expression does not begin with a number.
    ExpectedNumber,
    /// A token that should be an operator is none.
    ExpectedOperator,
    /// A token was to be consumed as a number, and it is none or is missing.
    NotANumber,
    /// An operator token holds a symbol other than `+` and `-`.
    UnknownOperator,
}

impl EmitError {
    /// The text that describes this error.
    pub open spec fn message_text(self) -> Seq<char> {
        match self {
            EmitError::ExpectedNumber => "expected a number"@,
            EmitError::ExpectedOperator => "expected an operator"@,
            EmitError::NotANumber => "not a number token"@,
            EmitError::UnknownOperator => "unknown operator"@,
        }
    }

    /// Describes this error in words.
    pub fn message(&self) -> (text: &'static str)
        ensures
            text@ == self.message_text(),
    {
        match self {
            EmitError::ExpectedNumber => "expected a number",
            EmitError::ExpectedOperator => "expected an operator",
            EmitError::NotANumber => "not a number token",
            EmitError::UnknownOperator => "unknown operator",
        }
    }
}

/// Why a text could not be compiled.
#[derive(Clone, Copy, Debug, PartialEq, Eq, Structural)]
pub enum CompileError {
    /// The text could not be split into tokens.
    Lex(LexError),
    /// The tokens of the text are not an expression.
    Emit(EmitError),
}

} // verus!
