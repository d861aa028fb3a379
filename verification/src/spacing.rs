//! Texts made of words and gaps: how the tokens of a text depend on the words
//! in it, and how little on the whitespace between them.
//!
//! A word is the text of one token: a run of digits, or one operator. A gap
//! is the whitespace before, between and after the words.

use crate::chars::{
    all_digits, all_whitespace, byte_len, is_digit, is_operator, is_whitespace,
    lemma_byte_len_concat, lemma_byte_len_digits, lemma_byte_len_one,
    lemma_leading_digits_exact,
};
use crate::decimal::decimal_value;
use crate::error::LexError;
use crate::token::{followed_by, lex, scan, Token, TokenKind};
use vstd::prelude::*;

verus! {

/// Whether `word` is the text of a number token: one digit or more, which
/// denote a number that a token holds.
pub open spec fn is_number_word(word: Seq<char>) -> bool {
    word.len() > 0 && all_digits(word) && decimal_value(word) <= i32::MAX
}

/// Whether `word` is the text of an operator token.
pub open spec fn is_operator_word(word: Seq<char>) -> bool {
    word.len() == 1 && is_operator(word[0])
}

/// Whether `word` is the text of a token.
pub open spec fn is_word(word: Seq<char>) -> bool {
    is_number_word(word) || is_operator_word(word)
}

/// The kind of the token whose text is `word`.
pub open spec fn word_kind(word: Seq<char>) -> TokenKind {
    if is_operator_word(word) {
        TokenKind::PUNCT { op: word[0] }
    } else {
        TokenKind::NUM { val: decimal_value(word) as i32 }
    }
}

/// The token of `word`, where its text begins at byte `offset`.
pub open spec fn word_token(word: Seq<char>, offset: nat) -> Token {
    Token { token_kind: word_kind(word), loc: offset as u64, len: word.len() as u64 }
}

/// The kinds of the tokens whose texts are `words`.
pub open spec fn word_kinds(words: Seq<Seq<char>>) -> Seq<TokenKind> {
    Seq::new(words.len(), |i: int| word_kind(words[i]))
}

/// The kinds of `tokens`, without the places of their texts.
pub open spec fn kinds(tokens: Seq<Token>) -> Seq<TokenKind> {
    Seq::new(tokens.len(), |i: int| tokens[i].token_kind)
}

/// The text that holds `words` in order, with `gaps[0]` before the first
/// word, `gaps[i]` between word `i - 1` and word `i`, and the last gap after
/// the last word.
pub open spec fn spaced_text(words: Seq<Seq<char>>, gaps: Seq<Seq<char>>) -> Seq<char>
    recommends
        gaps.len() == words.len() + 1,
    decreases words.len(),
{
    if words.len() == 0 {
        gaps[0]
    } else {
        gaps[0] + words[0] + spaced_text(words.skip(1), gaps.skip(1))
    }
}

/// Whether `gaps` keep `words` apart: there is a gap at either end and
/// between any two words, every gap is whitespace, every word is the text of
/// a token, and the gap between two numbers is not empty.
pub open spec fn well_spaced(words: Seq<Seq<char>>, gaps: Seq<Seq<char>>) -> bool {
    &&& gaps.len() == words.len() + 1
    &&& forall|i: int| 0 <= i < gaps.len() ==> all_whitespace(#[trigger] gaps[i])
    &&& forall|i: int| 0 <= i < words.len() ==> is_word(#[trigger] words[i])
    &&& forall|i: int|
        0 < i < words.len() && is_number_word(words[i - 1]) && is_number_word(words[i])
            ==> (#[trigger] gaps[i]).len() > 0
}

/// Whitespace before a text moves its tokens and changes nothing else.
pub proof fn lemma_scan_skips_gap(gap: Seq<char>, rest: Seq<char>, offset: nat)
    requires
        all_whitespace(gap),
    ensures
        scan(gap + rest, offset) == scan(rest, offset + byte_len(gap)),
    decreases gap.len(),
{
    if gap.len() == 0 {
        assert(gap + rest =~= rest);
    } else {
        let first = seq![gap[0]];
        assert(is_whitespace(gap[0]));
        assert((gap + rest).skip(1) =~= gap.skip(1) + rest);
        assert forall|i: int| 0 <= i < gap.skip(1).len() implies is_whitespace(
            #[trigger] gap.skip(1)[i],
        ) by {
            assert(gap.skip(1)[i] == gap[i + 1]);
        }
        lemma_scan_skips_gap(gap.skip(1), rest, offset + byte_len(first));
        lemma_byte_len_concat(first, gap.skip(1));
        assert(first + gap.skip(1) =~= gap);
        lemma_byte_len_one(gap[0]);
    }
}

/// A run of digits that no digit follows is one number, and the rest of the
/// text gives the rest of the tokens; a run that denotes more than a token
/// holds ends the scan.
pub proof fn lemma_scan_digits(word: Seq<char>, rest: Seq<char>, offset: nat)
    requires
        word.len() > 0,
        all_digits(word),
        rest.len() > 0 ==> !is_digit(rest[0]),
    ensures
        scan(word + rest, offset) == if decimal_value(word) <= i32::MAX {
            followed_by(seq![word_token(word, offset)], scan(rest, offset + word.len()))
        } else {
            Err(LexError::NumberOverflow { loc: offset as u64 })
        },
{
    let text = word + rest;
    let n = word.len() as int;
    assert(text[0] == word[0]);
    assert(is_digit(word[0]));
    assert(text.take(n) =~= word);
    if rest.len() > 0 {
        assert(text[n] == rest[0]);
    }
    lemma_leading_digits_exact(text, n);
    assert(text.skip(n) =~= rest);
}

/// An operator is one token, and the rest of the text gives the rest of the
/// tokens.
pub proof fn lemma_scan_operator(word: Seq<char>, rest: Seq<char>, offset: nat)
    requires
        is_operator_word(word),
    ensures
        scan(word + rest, offset) == followed_by(
            seq![word_token(word, offset)],
            scan(rest, offset + 1),
        ),
{
    let text = word + rest;
    assert(text[0] == word[0]);
    assert(text.skip(1) =~= rest);
}

/// A character that is no whitespace, no digit and no operator ends the
/// scan.
pub proof fn lemma_scan_other(c: char, rest: Seq<char>, offset: nat)
    requires
        !is_whitespace(c),
        !is_digit(c),
        !is_operator(c),
    ensures
        scan(seq![c] + rest, offset) == Err::<Seq<Token>, LexError>(
            LexError::InvalidToken { ch: c, loc: offset as u64 },
        ),
{
    assert((seq![c] + rest)[0] == c);
}

/// What is left of well-spaced words and gaps without the first word and the
/// gap before it is well spaced.
proof fn lemma_well_spaced_rest(words: Seq<Seq<char>>, gaps: Seq<Seq<char>>)
    requires
        well_spaced(words, gaps),
        words.len() > 0,
    ensures
        well_spaced(words.skip(1), gaps.skip(1)),
{
    let (w, g) = (words.skip(1), gaps.skip(1));
    assert forall|i: int| 0 <= i < g.len() implies all_whitespace(#[trigger] g[i]) by {
        assert(g[i] == gaps[i + 1]);
    }
    assert forall|i: int| 0 <= i < w.len() implies is_word(#[trigger] w[i]) by {
        assert(w[i] == words[i + 1]);
    }
    assert forall|i: int|
        0 < i < w.len() && is_number_word(w[i - 1]) && is_number_word(w[i]) implies (
    #[trigger] g[i]).len() > 0 by {
        assert(w[i - 1] == words[i]);
        assert(w[i] == words[i + 1]);
        assert(g[i] == gaps[i + 1]);
    }
}

/// A well-spaced text that begins with a digit begins with a number.
pub proof fn lemma_spaced_text_begins_with_digit(words: Seq<Seq<char>>, gaps: Seq<Seq<char>>)
    requires
        well_spaced(words, gaps),
        spaced_text(words, gaps).len() > 0,
        is_digit(spaced_text(words, gaps)[0]),
    ensures
        gaps[0].len() == 0,
        words.len() > 0,
        is_number_word(words[0]),
{
    let text = spaced_text(words, gaps);
    if gaps[0].len() > 0 {
        assert(text[0] == gaps[0][0]);
        assert(is_whitespace(gaps[0][0]));
    } else {
        assert(words.len() > 0);
        assert(is_word(words[0]));
        assert(text[0] == words[0][0]);
    }
}

/// The first word of a well-spaced text gives its first token, which stands
/// after the first gap, and the words after it give the rest.
pub proof fn lemma_scan_first_word(words: Seq<Seq<char>>, gaps: Seq<Seq<char>>, offset: nat)
    requires
        well_spaced(words, gaps),
        words.len() > 0,
    ensures
        well_spaced(words.skip(1), gaps.skip(1)),
        byte_len(words[0]) == words[0].len(),
        spaced_text(words, gaps) == gaps[0] + words[0] + spaced_text(
            words.skip(1),
            gaps.skip(1),
        ),
        scan(spaced_text(words, gaps), offset) == followed_by(
            seq![word_token(words[0], offset + byte_len(gaps[0]))],
            scan(
                spaced_text(words.skip(1), gaps.skip(1)),
                offset + byte_len(gaps[0]) + words[0].len(),
            ),
        ),
{
    let text = spaced_text(words, gaps);
    let word = words[0];
    let rest = spaced_text(words.skip(1), gaps.skip(1));
    let after_gap = offset + byte_len(gaps[0]);
    assert(all_whitespace(gaps[0]));
    assert(is_word(word));
    assert(text =~= gaps[0] + (word + rest));
    lemma_scan_skips_gap(gaps[0], word + rest, offset);
    lemma_well_spaced_rest(words, gaps);
    if is_operator_word(word) {
        lemma_scan_operator(word, rest, after_gap);
        assert(word =~= seq![word[0]]);
        lemma_byte_len_one(word[0]);
    } else {
        if rest.len() > 0 && is_digit(rest[0]) {
            lemma_spaced_text_begins_with_digit(words.skip(1), gaps.skip(1));
            assert(words.skip(1)[0] == words[1]);
            assert(gaps.skip(1)[0] == gaps[1]);
        }
        lemma_scan_digits(word, rest, after_gap);
        lemma_byte_len_digits(word);
    }
}

/// The tokens of a well-spaced text, whose first character stands at byte
/// `offset`, are those of its words, one for each word and in their order.
pub proof fn lemma_scan_spaced_text(words: Seq<Seq<char>>, gaps: Seq<Seq<char>>, offset: nat)
    requires
        well_spaced(words, gaps),
    ensures
        scan(spaced_text(words, gaps), offset) is Ok,
        kinds(scan(spaced_text(words, gaps), offset)->Ok_0) == word_kinds(words),
    decreases words.len(),
{
    let text = spaced_text(words, gaps);
    if words.len() == 0 {
        assert(all_whitespace(gaps[0]));
        lemma_scan_skips_gap(gaps[0], Seq::<char>::empty(), offset);
        assert(gaps[0] + Seq::<char>::empty() =~= gaps[0]);
        assert(kinds(Seq::<Token>::empty()) =~= word_kinds(words));
    } else {
        let rest = spaced_text(words.skip(1), gaps.skip(1));
        let after_word = offset + byte_len(gaps[0]) + words[0].len();
        lemma_scan_first_word(words, gaps, offset);
        lemma_scan_spaced_text(words.skip(1), gaps.skip(1), after_word);
        let tail = scan(rest, after_word)->Ok_0;
        let tokens = scan(text, offset)->Ok_0;
        assert(tokens.len() == tail.len() + 1);
        assert(tail.len() == kinds(tail).len() == words.skip(1).len());
        assert(kinds(tokens) =~= word_kinds(words)) by {
            assert forall|i: int| 0 <= i < tokens.len() implies kinds(tokens)[i] == word_kinds(
                words,
            )[i] by {
                if i > 0 {
                    assert(tokens[i] == tail[i - 1]);
                    assert(kinds(tail)[i - 1] == word_kinds(words.skip(1))[i - 1]);
                    assert(words.skip(1)[i - 1] == words[i]);
                }
            }
        }
    }
}

/// The index in `spaced_text(words, gaps)` at which word `i` begins.
pub open spec fn word_start(words: Seq<Seq<char>>, gaps: Seq<Seq<char>>, i: int) -> nat
    recommends
        gaps.len() == words.len() + 1,
        0 <= i < words.len(),
    decreases i,
{
    if i <= 0 {
        gaps[0].len()
    } else {
        gaps[0].len() + words[0].len() + word_start(words.skip(1), gaps.skip(1), i - 1)
    }
}

/// Token `i` of a well-spaced text is that of word `i`, and it says where the
/// word stands: the text holds the word at `word_start`, the token's `loc`
/// is the byte offset of that place, and its `len` is the length of the word.
/// So the tokens stand in the order of their texts.
pub proof fn lemma_tokens_stand_at_words(
    words: Seq<Seq<char>>,
    gaps: Seq<Seq<char>>,
    offset: nat,
    i: int,
)
    requires
        well_spaced(words, gaps),
        0 <= i < words.len(),
    ensures
        scan(spaced_text(words, gaps), offset) is Ok,
        scan(spaced_text(words, gaps), offset)->Ok_0.len() == words.len(),
        ({
            let text = spaced_text(words, gaps);
            let token = scan(text, offset)->Ok_0[i];
            let start = word_start(words, gaps, i) as int;
            &&& start + words[i].len() <= text.len()
            &&& text.subrange(start, start + words[i].len()) == words[i]
            &&& token == word_token(words[i], offset + byte_len(text.take(start)))
        }),
    decreases i,
{
    let text = spaced_text(words, gaps);
    let rest = spaced_text(words.skip(1), gaps.skip(1));
    let after_word = offset + byte_len(gaps[0]) + words[0].len();
    let start = word_start(words, gaps, i) as int;
    lemma_scan_first_word(words, gaps, offset);
    lemma_scan_spaced_text(words, gaps, offset);
    lemma_scan_spaced_text(words.skip(1), gaps.skip(1), after_word);
    let tokens = scan(text, offset)->Ok_0;
    assert(tokens.len() == kinds(tokens).len());
    if i == 0 {
        assert(text.take(start) =~= gaps[0]);
        assert(text.subrange(start, start + words[0].len()) =~= words[0]);
    } else {
        lemma_tokens_stand_at_words(words.skip(1), gaps.skip(1), after_word, i - 1);
        let inner = word_start(words.skip(1), gaps.skip(1), i - 1) as int;
        let before = gaps[0] + words[0];
        assert(words.skip(1)[i - 1] == words[i]);
        assert(tokens[i] == scan(rest, after_word)->Ok_0[i - 1]);
        assert(text.subrange(start, start + words[i].len()) =~= rest.subrange(
            inner,
            inner + words[i].len(),
        ));
        assert(text.take(start) =~= before + rest.take(inner));
        lemma_byte_len_concat(before, rest.take(inner));
        lemma_byte_len_concat(gaps[0], words[0]);
    }
}

/// However the words of a text are spaced, its tokens are of the same kinds
/// in the same order: whitespace between tokens can be put in, taken out or
/// changed at will, as long as two numbers stay apart.
pub proof fn lemma_whitespace_invariance(
    words: Seq<Seq<char>>,
    gaps: Seq<Seq<char>>,
    other_gaps: Seq<Seq<char>>,
)
    requires
        well_spaced(words, gaps),
        well_spaced(words, other_gaps),
    ensures
        lex(spaced_text(words, gaps)) is Ok,
        lex(spaced_text(words, other_gaps)) is Ok,
        kinds(lex(spaced_text(words, gaps))->Ok_0) == kinds(
            lex(spaced_text(words, other_gaps))->Ok_0,
        ),
{
    lemma_scan_spaced_text(words, gaps, 0);
    lemma_scan_spaced_text(words, other_gaps, 0);
}

/// The words of an expression: the first number, then each operator and the
/// number after it.
pub open spec fn expression_words(numbers: Seq<Seq<char>>, operators: Seq<char>) -> Seq<
    Seq<char>,
> {
    Seq::new(
        numbers.len() + operators.len(),
        |i: int|
            if i % 2 == 0 {
                numbers[i / 2]
            } else {
                seq![operators[i / 2]]
            },
    )
}

/// The tokens of an expression with `k` operators are `2k + 1`: its numbers
/// and operators in turn, first and last a number, each number with its
/// value and each operator with its symbol. That holds whatever whitespace
/// stands around them, and where none does.
pub proof fn lemma_lex_expression(
    numbers: Seq<Seq<char>>,
    operators: Seq<char>,
    gaps: Seq<Seq<char>>,
)
    requires
        numbers.len() == operators.len() + 1,
        forall|j: int| 0 <= j < numbers.len() ==> is_number_word(#[trigger] numbers[j]),
        forall|j: int| 0 <= j < operators.len() ==> is_operator(#[trigger] operators[j]),
        gaps.len() == numbers.len() + operators.len() + 1,
        forall|i: int| 0 <= i < gaps.len() ==> all_whitespace(#[trigger] gaps[i]),
    ensures
        lex(spaced_text(expression_words(numbers, operators), gaps)) is Ok,
        ({
            let tokens = lex(spaced_text(expression_words(numbers, operators), gaps))->Ok_0;
            &&& tokens.len() == 2 * operators.len() + 1
            &&& forall|j: int|
                0 <= j < numbers.len() ==> tokens[2 * j].token_kind == TokenKind::NUM {
                    val: decimal_value(#[trigger] numbers[j]) as i32,
                }
            &&& forall|j: int|
                0 <= j < operators.len() ==> tokens[2 * j + 1].token_kind == TokenKind::PUNCT {
                    op: #[trigger] operators[j],
                }
        }),
{
    let words = expression_words(numbers, operators);
    assert forall|i: int| 0 <= i < words.len() implies is_word(#[trigger] words[i]) by {
        if i % 2 == 0 {
            assert(is_number_word(numbers[i / 2]));
        } else {
            assert(is_operator(operators[i / 2]));
        }
    }
    assert forall|i: int|
        0 < i < words.len() && is_number_word(words[i - 1]) && is_number_word(
            words[i],
        ) implies (#[trigger] gaps[i]).len() > 0 by {
        let odd = if i % 2 == 0 {
            i - 1
        } else {
            i
        };
        assert(is_operator(operators[odd / 2]));
        assert(words[odd][0] == operators[odd / 2]);
        assert(is_digit(words[odd][0]));
    }
    lemma_scan_spaced_text(words, gaps, 0);
    let tokens = lex(spaced_text(words, gaps))->Ok_0;
    assert(tokens.len() == kinds(tokens).len());
    assert forall|j: int| 0 <= j < numbers.len() implies tokens[2 * j].token_kind
        == TokenKind::NUM { val: decimal_value(#[trigger] numbers[j]) as i32 } by {
        assert(kinds(tokens)[2 * j] == word_kinds(words)[2 * j]);
        assert(words[2 * j] == numbers[j]);
        assert(is_number_word(numbers[j]));
        assert(is_digit(numbers[j][0]));
    }
    assert forall|j: int| 0 <= j < operators.len() implies tokens[2 * j + 1].token_kind
        == TokenKind::PUNCT { op: #[trigger] operators[j] } by {
        assert(kinds(tokens)[2 * j + 1] == word_kinds(words)[2 * j + 1]);
        assert(words[2 * j + 1] == seq![operators[j]]);
        assert(is_operator(operators[j]));
    }
}

/// A text of whitespace alone has no tokens.
pub proof fn lemma_lex_blank(s: Seq<char>)
    requires
        all_whitespace(s),
    ensures
        lex(s) == Ok::<Seq<Token>, LexError>(Seq::empty()),
{
    lemma_scan_skips_gap(s, Seq::empty(), 0);
    assert(s + Seq::<char>::empty() =~= s);
}

} // verus!
