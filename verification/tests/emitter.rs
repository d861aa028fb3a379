use exprasm::compile::compile;
use exprasm::emit::{emit, listing, AsmLine};
use exprasm::error::{CompileError, EmitError, LexError};
use exprasm::token::{tokenize, Token, TokenKind};
use std::collections::VecDeque;

fn sequence(kinds: &[TokenKind]) -> VecDeque<Token> {
    kinds.iter().map(|kind| Token::new(*kind, 0, 1)).collect()
}

fn run(program: &[AsmLine]) -> i64 {
    let mut accumulator: i64 = 0;
    for line in program {
        match line {
            AsmLine::Load { imm } => accumulator = *imm,
            AsmLine::Add { imm } => accumulator += *imm,
            _ => {}
        }
    }
    accumulator
}

#[test]
fn three_term_expression_is_emitted_and_evaluates_to_41() {
    let tokens = tokenize("12 + 34 - 5").unwrap();
    let kinds: Vec<TokenKind> = tokens.iter().map(|token| token.token_kind).collect();
    assert_eq!(
        kinds,
        vec![
            TokenKind::NUM { val: 12 },
            TokenKind::PUNCT { op: '+' },
            TokenKind::NUM { val: 34 },
            TokenKind::PUNCT { op: '-' },
            TokenKind::NUM { val: 5 },
        ]
    );
    let program = emit(tokens).unwrap();
    assert_eq!(
        program,
        vec![
            AsmLine::EntryDirective,
            AsmLine::EntryLabel,
            AsmLine::Load { imm: 12 },
            AsmLine::Add { imm: 34 },
            AsmLine::Add { imm: -5 },
            AsmLine::Return,
        ]
    );
    assert_eq!(run(&program), 41);
}

#[test]
fn single_number_is_loaded_and_returned() {
    let tokens = tokenize("5").unwrap();
    assert_eq!(tokens.len(), 1);
    assert_eq!(tokens[0].token_kind, TokenKind::NUM { val: 5 });
    let program = emit(tokens).unwrap();
    assert_eq!(
        program,
        vec![
            AsmLine::EntryDirective,
            AsmLine::EntryLabel,
            AsmLine::Load { imm: 5 },
            AsmLine::Return,
        ]
    );
    assert_eq!(run(&program), 5);
}

#[test]
fn invalid_character_stops_compilation_in_the_lexer() {
    assert_eq!(
        compile("1 * 2"),
        Err(CompileError::Lex(LexError::InvalidToken { ch: '*', loc: 2 }))
    );
}

#[test]
fn trailing_operator_lexes_and_fails_in_the_emitter() {
    let tokens = tokenize("1 +").unwrap();
    let kinds: Vec<TokenKind> = tokens.iter().map(|token| token.token_kind).collect();
    assert_eq!(kinds, vec![TokenKind::NUM { val: 1 }, TokenKind::PUNCT { op: '+' }]);
    let error = emit(tokens).unwrap_err();
    assert_eq!(error, EmitError::NotANumber);
    assert_eq!(error.message(), "not a number token");
    assert_eq!(compile("1 +"), Err(CompileError::Emit(EmitError::NotANumber)));
}

#[test]
fn empty_and_blank_text_expect_a_number() {
    for text in ["", " ", "   \t\n", "\u{3000}\u{A0}"] {
        assert_eq!(tokenize(text).unwrap().len(), 0);
        assert_eq!(compile(text), Err(CompileError::Emit(EmitError::ExpectedNumber)));
    }
    assert_eq!(emit(VecDeque::new()), Err(EmitError::ExpectedNumber));
    assert_eq!(EmitError::ExpectedNumber.message(), "expected a number");
}

#[test]
fn expression_must_begin_with_a_number() {
    assert_eq!(compile("+ 1"), Err(CompileError::Emit(EmitError::ExpectedNumber)));
    assert_eq!(compile("- 1 + 2"), Err(CompileError::Emit(EmitError::ExpectedNumber)));
    assert_eq!(
        emit(sequence(&[TokenKind::EOF, TokenKind::NUM { val: 1 }])),
        Err(EmitError::ExpectedNumber)
    );
}

#[test]
fn number_where_operator_belongs_is_an_error() {
    assert_eq!(compile("1 2"), Err(CompileError::Emit(EmitError::ExpectedOperator)));
    assert_eq!(compile("1 + 2 3"), Err(CompileError::Emit(EmitError::ExpectedOperator)));
    assert_eq!(
        emit(sequence(&[TokenKind::NUM { val: 1 }, TokenKind::EOF])),
        Err(EmitError::ExpectedOperator)
    );
    assert_eq!(EmitError::ExpectedOperator.message(), "expected an operator");
}

#[test]
fn operator_where_number_belongs_is_an_error() {
    assert_eq!(compile("1 + + 2"), Err(CompileError::Emit(EmitError::NotANumber)));
    assert_eq!(compile("1 - -"), Err(CompileError::Emit(EmitError::NotANumber)));
    assert_eq!(
        emit(sequence(&[
            TokenKind::NUM { val: 1 },
            TokenKind::PUNCT { op: '+' },
            TokenKind::EOF,
        ])),
        Err(EmitError::NotANumber)
    );
}

#[test]
fn unknown_operator_is_an_error_once_its_operand_is_read() {
    assert_eq!(
        emit(sequence(&[
            TokenKind::NUM { val: 1 },
            TokenKind::PUNCT { op: '*' },
            TokenKind::NUM { val: 2 },
        ])),
        Err(EmitError::UnknownOperator)
    );
    assert_eq!(
        emit(sequence(&[TokenKind::NUM { val: 1 }, TokenKind::PUNCT { op: '*' }])),
        Err(EmitError::NotANumber)
    );
    assert_eq!(
        emit(sequence(&[
            TokenKind::NUM { val: 1 },
            TokenKind::PUNCT { op: '+' },
            TokenKind::NUM { val: 2 },
            TokenKind::PUNCT { op: '/' },
            TokenKind::NUM { val: 2 },
        ])),
        Err(EmitError::UnknownOperator)
    );
    assert_eq!(EmitError::UnknownOperator.message(), "unknown operator");
}

#[test]
fn first_structural_error_wins() {
    assert_eq!(
        emit(sequence(&[
            TokenKind::NUM { val: 1 },
            TokenKind::NUM { val: 2 },
            TokenKind::PUNCT { op: '*' },
        ])),
        Err(EmitError::ExpectedOperator)
    );
    assert_eq!(compile("1 + 2 3 +"), Err(CompileError::Emit(EmitError::ExpectedOperator)));
    assert_eq!(
        compile("+ 99999999999"),
        Err(CompileError::Lex(LexError::NumberOverflow { loc: 2 }))
    );
}

#[test]
fn subtraction_adds_the_negation() {
    let program = compile("0 - 2147483647 - 0 + 2147483647").unwrap();
    assert_eq!(
        program,
        vec![
            AsmLine::EntryDirective,
            AsmLine::EntryLabel,
            AsmLine::Load { imm: 0 },
            AsmLine::Add { imm: -2147483647 },
            AsmLine::Add { imm: 0 },
            AsmLine::Add { imm: 2147483647 },
            AsmLine::Return,
        ]
    );
    let program = emit(sequence(&[
        TokenKind::NUM { val: -7 },
        TokenKind::PUNCT { op: '-' },
        TokenKind::NUM { val: i32::MIN },
        TokenKind::PUNCT { op: '+' },
        TokenKind::NUM { val: i32::MIN },
    ]))
    .unwrap();
    assert_eq!(
        program,
        vec![
            AsmLine::EntryDirective,
            AsmLine::EntryLabel,
            AsmLine::Load { imm: -7 },
            AsmLine::Add { imm: 2147483648 },
            AsmLine::Add { imm: -2147483648 },
            AsmLine::Return,
        ]
    );
}

#[test]
fn program_has_one_line_for_each_number_and_three_around() {
    for (text, operators) in [("1", 0usize), ("1+2", 1), ("1+2-3", 2), ("9 - 8 - 7 - 6 + 5", 4)] {
        let program = compile(text).unwrap();
        assert_eq!(program.len(), 4 + operators);
        assert_eq!(program[0], AsmLine::EntryDirective);
        assert_eq!(program[1], AsmLine::EntryLabel);
        assert_eq!(program[program.len() - 1], AsmLine::Return);
    }
}

#[test]
fn emitted_program_computes_the_expression_from_left_to_right() {
    let cases: [(&str, i64); 8] = [
        ("5", 5),
        ("12 + 34 - 5", 41),
        ("1 - 2 - 3", -4),
        ("1 - 2 + 3", 2),
        ("10 - 20 + 30 - 40", -20),
        ("2147483647 + 2147483647", 4294967294),
        ("0 - 2147483647 - 2147483647", -4294967294),
        ("0001 + 0002", 3),
    ];
    for (text, value) in cases {
        assert_eq!(run(&compile(text).unwrap()), value, "{}", text);
    }
}

#[test]
fn lines_are_written_as_the_assembler_reads_them() {
    let program = compile("12 + 34 - 5").unwrap();
    assert_eq!(
        listing(&program),
        vec![
            "  .global main",
            "main:",
            "  li a0, 12",
            "  add a0, a0, 34",
            "  add a0, a0, -5",
            "  ret",
        ]
    );
    assert_eq!(listing(&Vec::new()), Vec::<String>::new());
}

#[test]
fn each_line_renders_its_immediate_in_decimal() {
    assert_eq!(AsmLine::EntryDirective.render(), "  .global main");
    assert_eq!(AsmLine::EntryLabel.render(), "main:");
    assert_eq!(AsmLine::Return.render(), "  ret");
    assert_eq!(AsmLine::Load { imm: 0 }.render(), "  li a0, 0");
    assert_eq!(AsmLine::Add { imm: 0 }.render(), "  add a0, a0, 0");
    for imm in [
        0i64,
        1,
        9,
        10,
        11,
        99,
        100,
        101,
        1234567890,
        2147483647,
        2147483648,
        -1,
        -9,
        -10,
        -2147483647,
        -2147483648,
        i64::MAX,
        i64::MIN,
        i64::MIN + 1,
    ] {
        assert_eq!(AsmLine::Load { imm }.render(), format!("  li a0, {}", imm));
        assert_eq!(AsmLine::Add { imm }.render(), format!("  add a0, a0, {}", imm));
    }
}

#[test]
fn zero_is_subtracted_as_zero() {
    assert_eq!(
        listing(&compile("1 - 0").unwrap()),
        vec!["  .global main", "main:", "  li a0, 1", "  add a0, a0, 0", "  ret"]
    );
}

#[test]
fn rendered_numbers_lex_back_to_themselves() {
    for value in [0i32, 1, 9, 10, 4096, 2147483647] {
        let line = AsmLine::Load { imm: value as i64 }.render();
        let digits = &line["  li a0, ".len()..];
        let tokens = tokenize(digits).unwrap();
        assert_eq!(tokens.len(), 1);
        assert_eq!(tokens[0].token_kind, TokenKind::NUM { val: value });
    }
}

#[test]
fn every_error_has_its_message() {
    assert_eq!(EmitError::ExpectedNumber.message(), "expected a number");
    assert_eq!(EmitError::ExpectedOperator.message(), "expected an operator");
    assert_eq!(EmitError::NotANumber.message(), "not a number token");
    assert_eq!(EmitError::UnknownOperator.message(), "unknown operator");
}
