use exprasm::chars::{
    byte_count, classify, is_digit_char, is_operator_char, is_whitespace_char, width_of, CharClass,
};
use exprasm::error::{EmitError, LexError};
use exprasm::token::{consume_one_num, tokenize, Token, TokenKind};
use std::collections::VecDeque;

fn kinds_of(text: &str) -> Vec<TokenKind> {
    tokenize(text).unwrap().into_iter().map(|token| token.token_kind).collect()
}

#[test]
pub fn tokenize_passed() {
    let mut tokens = tokenize("  12 + 34 - 5 ").unwrap();

    assert_eq!(tokens.len(), 5);

    assert_eq!(
        tokens.pop_front().unwrap().token_kind,
        TokenKind::NUM { val: 12 }
    );

    assert_eq!(
        tokens.pop_front().unwrap().token_kind,
        TokenKind::PUNCT { op: '+' }
    );

    assert_eq!(
        tokens.pop_front().unwrap().token_kind,
        TokenKind::NUM { val: 34 }
    );

    assert_eq!(
        tokens.pop_front().unwrap().token_kind,
        TokenKind::PUNCT { op: '-' }
    );

    assert_eq!(
        tokens.pop_front().unwrap().token_kind,
        TokenKind::NUM { val: 5 }
    );
}

#[test]
fn tokens_carry_byte_offset_and_length() {
    let tokens: Vec<Token> = tokenize("  12 + 34 - 5 ").unwrap().into_iter().collect();
    assert_eq!(
        tokens,
        vec![
            Token::new(TokenKind::NUM { val: 12 }, 2, 2),
            Token::new(TokenKind::PUNCT { op: '+' }, 5, 1),
            Token::new(TokenKind::NUM { val: 34 }, 7, 2),
            Token::new(TokenKind::PUNCT { op: '-' }, 10, 1),
            Token::new(TokenKind::NUM { val: 5 }, 12, 1),
        ]
    );
}

#[test]
fn offsets_count_bytes_of_wide_whitespace() {
    let text = "\u{3000}7\u{A0}+\u{2003}\u{85}8";
    let tokens: Vec<Token> = tokenize(text).unwrap().into_iter().collect();
    assert_eq!(
        tokens,
        vec![
            Token::new(TokenKind::NUM { val: 7 }, 3, 1),
            Token::new(TokenKind::PUNCT { op: '+' }, 6, 1),
            Token::new(TokenKind::NUM { val: 8 }, 12, 1),
        ]
    );
    for token in tokens {
        let start = token.loc as usize;
        let end = start + token.len as usize;
        assert!(text.is_char_boundary(start) && text.is_char_boundary(end));
    }
    assert_eq!(&text[3..4], "7");
    assert_eq!(&text[12..13], "8");
}

#[test]
fn single_number_is_one_token() {
    let tokens: Vec<Token> = tokenize("5").unwrap().into_iter().collect();
    assert_eq!(tokens, vec![Token::new(TokenKind::NUM { val: 5 }, 0, 1)]);
}

#[test]
fn digits_without_separator_are_one_number() {
    assert_eq!(kinds_of("1234"), vec![TokenKind::NUM { val: 1234 }]);
    assert_eq!(
        kinds_of("12 34"),
        vec![TokenKind::NUM { val: 12 }, TokenKind::NUM { val: 34 }]
    );
}

#[test]
fn operators_need_no_whitespace() {
    assert_eq!(
        kinds_of("1+2-3"),
        vec![
            TokenKind::NUM { val: 1 },
            TokenKind::PUNCT { op: '+' },
            TokenKind::NUM { val: 2 },
            TokenKind::PUNCT { op: '-' },
            TokenKind::NUM { val: 3 },
        ]
    );
    assert_eq!(
        kinds_of("+-"),
        vec![TokenKind::PUNCT { op: '+' }, TokenKind::PUNCT { op: '-' }]
    );
}

#[test]
fn empty_and_blank_text_have_no_tokens() {
    assert_eq!(tokenize("").unwrap().len(), 0);
    assert_eq!(tokenize("   ").unwrap().len(), 0);
    assert_eq!(tokenize(" \t\r\n\u{B}\u{C}\u{2028}").unwrap().len(), 0);
}

#[test]
fn invalid_character_is_reported_with_its_offset() {
    assert_eq!(
        tokenize("1 * 2").unwrap_err(),
        LexError::InvalidToken { ch: '*', loc: 2 }
    );
    assert_eq!(
        tokenize("\u{3000}x").unwrap_err(),
        LexError::InvalidToken { ch: 'x', loc: 3 }
    );
    assert_eq!(
        tokenize("12a").unwrap_err(),
        LexError::InvalidToken { ch: 'a', loc: 2 }
    );
    assert_eq!(
        tokenize("\u{661}").unwrap_err(),
        LexError::InvalidToken { ch: '\u{661}', loc: 0 }
    );
}

#[test]
fn first_error_in_text_order_wins() {
    assert_eq!(
        tokenize("99999999999 $").unwrap_err(),
        LexError::NumberOverflow { loc: 0 }
    );
    assert_eq!(
        tokenize("$ 99999999999").unwrap_err(),
        LexError::InvalidToken { ch: '$', loc: 0 }
    );
}

#[test]
fn number_range_is_that_of_i32() {
    assert_eq!(kinds_of("2147483647"), vec![TokenKind::NUM { val: i32::MAX }]);
    assert_eq!(
        tokenize("2147483648").unwrap_err(),
        LexError::NumberOverflow { loc: 0 }
    );
    assert_eq!(
        tokenize("1 + 21474836470").unwrap_err(),
        LexError::NumberOverflow { loc: 4 }
    );
    assert_eq!(kinds_of("0"), vec![TokenKind::NUM { val: 0 }]);
}

#[test]
fn leading_zeros_do_not_overflow() {
    let tokens: Vec<Token> = tokenize("00000000000000000000000012").unwrap().into_iter().collect();
    assert_eq!(tokens, vec![Token::new(TokenKind::NUM { val: 12 }, 0, 26)]);
}

#[test]
fn numbers_agree_with_std_parse() {
    for text in ["0", "7", "10", "99", "100", "65535", "2147483646", "2147483647", "000"] {
        let expected: i32 = text.parse().unwrap();
        assert_eq!(kinds_of(text), vec![TokenKind::NUM { val: expected }]);
    }
    for text in ["2147483648", "4294967296", "99999999999999999999999999"] {
        assert!(text.parse::<i32>().is_err());
        assert_eq!(tokenize(text).unwrap_err(), LexError::NumberOverflow { loc: 0 });
    }
}

#[test]
fn whitespace_is_what_std_calls_whitespace() {
    for code in 0..=0x10FFFFu32 {
        if let Some(c) = char::from_u32(code) {
            assert_eq!(is_whitespace_char(c), c.is_whitespace(), "U+{:04X}", code);
            assert_eq!(
                classify(c) == CharClass::Whitespace,
                c.is_whitespace(),
                "U+{:04X}",
                code
            );
        }
    }
}

#[test]
fn classes_of_characters() {
    assert_eq!(classify(' '), CharClass::Whitespace);
    assert_eq!(classify('\u{A0}'), CharClass::Whitespace);
    assert_eq!(classify('0'), CharClass::Digit);
    assert_eq!(classify('9'), CharClass::Digit);
    assert_eq!(classify('+'), CharClass::Operator);
    assert_eq!(classify('-'), CharClass::Operator);
    assert_eq!(classify('*'), CharClass::Other);
    assert_eq!(classify('/'), CharClass::Other);
    assert_eq!(classify(':'), CharClass::Other);
    assert_eq!(classify('\u{200B}'), CharClass::Other);
    for code in 0..=0x10FFFFu32 {
        if let Some(c) = char::from_u32(code) {
            assert_eq!(is_digit_char(c), c.is_ascii_digit());
            assert_eq!(is_operator_char(c), c == '+' || c == '-');
            assert_eq!(classify(c) == CharClass::Operator, c == '+' || c == '-');
            assert_eq!(classify(c) == CharClass::Digit, c.is_ascii_digit());
        }
    }
}

#[test]
fn widths_are_utf8_lengths() {
    for code in 0..=0x10FFFFu32 {
        if let Some(c) = char::from_u32(code) {
            assert_eq!(width_of(c), c.len_utf8() as u64);
        }
    }
    assert_eq!(width_of('a'), 1);
    assert_eq!(width_of('\u{7F}'), 1);
    assert_eq!(width_of('\u{80}'), 2);
    assert_eq!(width_of('\u{7FF}'), 2);
    assert_eq!(width_of('\u{800}'), 3);
    assert_eq!(width_of('\u{FFFF}'), 3);
    assert_eq!(width_of('\u{10000}'), 4);
    assert_eq!(byte_count(""), 0);
    assert_eq!(byte_count("1 + 2"), 5);
    assert_eq!(byte_count("\u{3000}7\u{A0}"), 6);
}

#[test]
fn new_keeps_its_arguments() {
    let token = Token::new(TokenKind::PUNCT { op: '-' }, 17, 1);
    assert_eq!(token.token_kind, TokenKind::PUNCT { op: '-' });
    assert_eq!(token.loc, 17);
    assert_eq!(token.len, 1);
}

#[test]
fn get_num_val_is_some_for_numbers_only() {
    assert_eq!(Token::new(TokenKind::NUM { val: 42 }, 0, 2).get_num_val(), Some(42));
    assert_eq!(Token::new(TokenKind::NUM { val: -3 }, 0, 2).get_num_val(), Some(-3));
    assert_eq!(Token::new(TokenKind::PUNCT { op: '+' }, 0, 1).get_num_val(), None);
    assert_eq!(Token::new(TokenKind::EOF, 0, 0).get_num_val(), None);
}

#[test]
fn consume_one_num_takes_the_front_number() {
    let mut tokens = tokenize("12 + 34").unwrap();
    assert_eq!(consume_one_num(&mut tokens), Ok(12));
    assert_eq!(tokens.len(), 2);
    assert_eq!(tokens[0].token_kind, TokenKind::PUNCT { op: '+' });
}

#[test]
fn consume_one_num_fails_on_other_tokens_and_removes_them() {
    let mut tokens = tokenize("+ 34").unwrap();
    assert_eq!(consume_one_num(&mut tokens), Err(EmitError::NotANumber));
    assert_eq!(tokens.len(), 1);
    assert_eq!(consume_one_num(&mut tokens), Ok(34));
    assert_eq!(tokens.len(), 0);

    let mut tokens: VecDeque<Token> = VecDeque::new();
    tokens.push_back(Token::new(TokenKind::EOF, 0, 0));
    assert_eq!(consume_one_num(&mut tokens), Err(EmitError::NotANumber));
    assert_eq!(tokens.len(), 0);
}

#[test]
fn consume_one_num_fails_on_empty_sequence() {
    let mut tokens: VecDeque<Token> = VecDeque::new();
    assert_eq!(consume_one_num(&mut tokens), Err(EmitError::NotANumber));
    assert_eq!(tokens.len(), 0);
}

#[test]
fn alternating_expression_has_two_tokens_per_operator_and_one_more() {
    let numbers = ["7", "0012", "2147483647", "0", "5"];
    let operators = ['+', '-', '-', '+'];
    for gap in ["", " ", "\t \n", "\u{2003}"] {
        let mut text = String::new();
        text.push_str(gap);
        for (i, number) in numbers.iter().enumerate() {
            if i > 0 {
                text.push(operators[i - 1]);
                text.push_str(gap);
            }
            text.push_str(number);
            text.push_str(gap);
        }
        let kinds = kinds_of(&text);
        assert_eq!(kinds.len(), 2 * operators.len() + 1);
        for (i, number) in numbers.iter().enumerate() {
            assert_eq!(kinds[2 * i], TokenKind::NUM { val: number.parse().unwrap() });
        }
        for (i, op) in operators.iter().enumerate() {
            assert_eq!(kinds[2 * i + 1], TokenKind::PUNCT { op: *op });
        }
    }
}

#[test]
fn whitespace_between_tokens_does_not_change_them() {
    let expected = kinds_of("12+34-5");
    for text in [
        "12 + 34 - 5",
        "  12+34 -5",
        "12\t+\n34\r-\u{A0}5   ",
        "\u{3000}12 +34- 5",
    ] {
        assert_eq!(kinds_of(text), expected);
    }
    assert_eq!(kinds_of("1 2"), kinds_of(" 1   2 "));
    assert_ne!(kinds_of("1 2"), kinds_of("12"));
}

#[test]
fn token_texts_joined_by_spaces_lex_to_the_same_tokens() {
    for text in ["  12 + 34 - 5 ", "007-+3", "1 2 3", "+", "", "\u{2003}9\u{2003}"] {
        let tokens = tokenize(text).unwrap();
        let texts: Vec<&str> = tokens
            .iter()
            .map(|token| &text[token.loc as usize..(token.loc + token.len) as usize])
            .collect();
        let joined = texts.join(" ");
        assert_eq!(kinds_of(&joined), kinds_of(text));
    }
    let tokens = tokenize("007-+3").unwrap();
    assert_eq!(tokens[0].len, 3);
    assert_eq!(tokens[0].token_kind, TokenKind::NUM { val: 7 });
}
