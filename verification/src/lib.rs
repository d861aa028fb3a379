//! A compiler for chains of integer additions and subtractions, such as
//! `12 + 34 - 5`, to an assembly program that leaves the value of the chain
//! in the accumulator register.
//!
//! The pipeline has two stages. The lexer ([`token::tokenize`]) splits the
//! text into number and operator tokens. The emitter ([`emit::emit`]) walks
//! the tokens once and gives one line of the program for each step;
//! [`compile::compile`] runs the two in turn.
//!
//! Every function states what it returns over a mathematical model of its
//! arguments: [`token::lex`] says what the tokens of a text are,
//! [`emit::emission`] what the program of a token sequence is. The modules
//! [`spacing`], [`texts`], [`eval`] and [`compile`] prove what follows from
//! these definitions: that whitespace between tokens does not matter, that
//! every text is made of its token texts and the gaps between them, and that
//! the emitted program computes the value of the expression.

pub mod chars;
pub mod compile;
pub mod decimal;
pub mod emit;
pub mod error;
pub mod eval;
pub mod spacing;
pub mod texts;
pub mod token;
