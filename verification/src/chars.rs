//! Character classes of the expression language and byte lengths of text.
//!
//! The lexer sorts every character of its input into one of four classes.
//! Token locations are byte offsets into the UTF-8 form of the input, so this
//! module also says how many bytes a character and a run of characters take.

use vstd::prelude::*;
use vstd::utf8::{encode_scalar, encode_utf8};

verus! {

/// The class of a character, as the lexer sees it.
#[derive(Clone, Copy, Debug, PartialEq, Eq, Structural)]
pub enum CharClass {
    /// Skipped between tokens.
    Whitespace,
    /// Part of a number.
    Digit,
    /// `+` or `-`.
    Operator,
    /// Anything else: no token can hold it.
    Other,
}

/// Whether `c` has the Unicode property `White_Space`.
pub open spec fn is_whitespace(c: char) -> bool {
    ||| '\u{9}' <= c <= '\u{D}'
    ||| c == ' '
    ||| c == '\u{85}'
    ||| c == '\u{A0}'
    ||| c == '\u{1680}'
    ||| '\u{2000}' <= c <= '\u{200A}'
    ||| c == '\u{2028}'
    ||| c == '\u{2029}'
    ||| c == '\u{202F}'
    ||| c == '\u{205F}'
    ||| c == '\u{3000}'
}

/// Whether `c` is an ASCII decimal digit.
pub open spec fn is_digit(c: char) -> bool {
    '0' <= c <= '9'
}

/// Whether `c` is one of the two operators.
pub open spec fn is_operator(c: char) -> bool {
    c == '+' || c == '-'
}

/// The class of `c`. The three named classes are disjoint.
pub open spec fn char_class(c: char) -> CharClass {
    if is_whitespace(c) {
        CharClass::Whitespace
    } else if is_digit(c) {
        CharClass::Digit
    } else if is_operator(c) {
        CharClass::Operator
    } else {
        CharClass::Other
    }
}

/// Whether every character of `s` is whitespace.
pub open spec fn all_whitespace(s: Seq<char>) -> bool {
    forall|i: int| 0 <= i < s.len() ==> is_whitespace(#[trigger] s[i])
}

/// Whether every character of `s` is a digit.
pub open spec fn all_digits(s: Seq<char>) -> bool {
    forall|i: int| 0 <= i < s.len() ==> is_digit(#[trigger] s[i])
}

/// The number of bytes that `c` takes in UTF-8.
pub open spec fn utf8_width(c: char) -> nat {
    if c <= '\u{7F}' {
        1
    } else if c <= '\u{7FF}' {
        2
    } else if c <= '\u{FFFF}' {
        3
    } else {
        4
    }
}

/// The number of bytes that `s` takes in UTF-8.
pub open spec fn byte_len(s: Seq<char>) -> nat
    decreases s.len(),
{
    if s.len() == 0 {
        0
    } else {
        byte_len(s.drop_last()) + utf8_width(s.last())
    }
}

/// The number of digits with which `s` begins.
pub open spec fn leading_digits(s: Seq<char>) -> nat
    decreases s.len(),
{
    if s.len() > 0 && is_digit(s[0]) {
        1 + leading_digits(s.skip(1))
    } else {
        0
    }
}

/// Sorts `c` into its class.
pub fn classify(c: char) -> (class: CharClass)
    ensures
        class == char_class(c),
{
    if is_whitespace_char(c) {
        CharClass::Whitespace
    } else if is_digit_char(c) {
        CharClass::Digit
    } else if is_operator_char(c) {
        CharClass::Operator
    } else {
        CharClass::Other
    }
}

/// Decides whether `c` is whitespace.
pub fn is_whitespace_char(c: char) -> (whitespace: bool)
    ensures
        whitespace == is_whitespace(c),
{
    ('\u{9}' <= c && c <= '\u{D}') || c == ' ' || c == '\u{85}' || c == '\u{A0}' || c
        == '\u{1680}' || ('\u{2000}' <= c && c <= '\u{200A}') || c == '\u{2028}' || c
        == '\u{2029}' || c == '\u{202F}' || c == '\u{205F}' || c == '\u{3000}'
}

/// Decides whether `c` is one of the two operators.
pub fn is_operator_char(c: char) -> (operator: bool)
    ensures
        operator == is_operator(c),
{
    c == '+' || c == '-'
}

/// Decides whether `c` is an ASCII decimal digit.
pub fn is_digit_char(c: char) -> (digit: bool)
    ensures
        digit == is_digit(c),
{
    '0' <= c && c <= '9'
}

/// Counts the bytes that `c` takes in UTF-8.
pub fn width_of(c: char) -> (width: u64)
    ensures
        width == utf8_width(c),
        1 <= width <= 4,
{
    if c <= '\u{7F}' {
        1
    } else if c <= '\u{7FF}' {
        2
    } else if c <= '\u{FFFF}' {
        3
    } else {
        4
    }
}

/// Counts the bytes of `text`.
pub fn byte_count(text: &str) -> (count: usize)
    ensures
        count == byte_len(text@),
{
    proof {
        lemma_byte_len_is_encoded_len(text@);
    }
    text.as_bytes().len()
}

/// `utf8_width` is the length of the character's UTF-8 encoding.
pub proof fn lemma_utf8_width_is_encoded_len(c: char)
    ensures
        utf8_width(c) == encode_scalar(c as u32).len(),
{
}

/// `byte_len` is the length of the UTF-8 encoding.
pub proof fn lemma_byte_len_is_encoded_len(s: Seq<char>)
    ensures
        byte_len(s) == encode_utf8(s).len(),
    decreases s.len(),
{
    if s.len() > 0 {
        lemma_byte_len_is_encoded_len(s.drop_last());
        lemma_encode_push(s.drop_last(), s.last());
        assert(s.drop_last().push(s.last()) =~= s);
        lemma_utf8_width_is_encoded_len(s.last());
    }
}

/// Encoding a text with one more character at its end appends that
/// character's encoding.
proof fn lemma_encode_push(s: Seq<char>, c: char)
    ensures
        encode_utf8(s.push(c)) == encode_utf8(s) + encode_scalar(c as u32),
    decreases s.len(),
{
    if s.len() == 0 {
        assert(s.push(c).drop_first() =~= Seq::<char>::empty());
        assert(encode_utf8(s.push(c)) =~= encode_scalar(c as u32) + encode_utf8(
            Seq::<char>::empty(),
        ));
    } else {
        lemma_encode_push(s.drop_first(), c);
        assert(s.push(c).drop_first() =~= s.drop_first().push(c));
        assert(encode_utf8(s.push(c)) =~= encode_scalar(s[0] as u32) + encode_utf8(
            s.drop_first().push(c),
        ));
    }
}

/// A text of one character takes the bytes of that character.
pub proof fn lemma_byte_len_one(c: char)
    ensures
        byte_len(seq![c]) == utf8_width(c),
{
    assert(seq![c].drop_last() =~= Seq::<char>::empty());
    reveal_with_fuel(byte_len, 2);
}

/// The bytes of a text are those of a prefix and those of the rest.
pub proof fn lemma_byte_len_concat(a: Seq<char>, b: Seq<char>)
    ensures
        byte_len(a + b) == byte_len(a) + byte_len(b),
    decreases b.len(),
{
    if b.len() == 0 {
        assert(a + b =~= a);
    } else {
        lemma_byte_len_concat(a, b.drop_last());
        assert((a + b).drop_last() =~= a + b.drop_last());
    }
}

/// The bytes of the first `to` characters of `s` are those of its first
/// `from` characters and those of the characters between, and no more than
/// `s` has.
pub proof fn lemma_byte_len_take(s: Seq<char>, from: int, to: int)
    requires
        0 <= from <= to <= s.len(),
    ensures
        byte_len(s.take(to)) == byte_len(s.take(from)) + byte_len(s.subrange(from, to)),
        byte_len(s.take(to)) <= byte_len(s),
{
    lemma_byte_len_concat(s.take(from), s.subrange(from, to));
    assert(s.take(from) + s.subrange(from, to) =~= s.take(to));
    lemma_byte_len_concat(s.take(to), s.skip(to));
    assert(s.take(to) + s.skip(to) =~= s);
}

/// The bytes of the first `at + 1` characters of `s` are those of its first
/// `at` characters and those of the character after them.
pub proof fn lemma_byte_len_next(s: Seq<char>, at: int)
    requires
        0 <= at < s.len(),
    ensures
        byte_len(s.take(at + 1)) == byte_len(s.take(at)) + utf8_width(s[at]),
        byte_len(s.take(at + 1)) <= byte_len(s),
{
    assert(s.take(at + 1).drop_last() =~= s.take(at));
    lemma_byte_len_take(s, at, at + 1);
}

/// A text has at least one byte for each character.
pub proof fn lemma_len_le_byte_len(s: Seq<char>)
    ensures
        s.len() <= byte_len(s),
    decreases s.len(),
{
    if s.len() > 0 {
        lemma_len_le_byte_len(s.drop_last());
    }
}

/// A run of digits takes one byte for each digit.
pub proof fn lemma_byte_len_digits(s: Seq<char>)
    requires
        all_digits(s),
    ensures
        byte_len(s) == s.len(),
    decreases s.len(),
{
    if s.len() > 0 {
        lemma_byte_len_digits(s.drop_last());
    }
}

/// The leading digits of `s` are digits, and what follows them is none.
pub proof fn lemma_leading_digits(s: Seq<char>)
    ensures
        leading_digits(s) <= s.len(),
        all_digits(s.take(leading_digits(s) as int)),
        leading_digits(s) < s.len() ==> !is_digit(s[leading_digits(s) as int]),
    decreases s.len(),
{
    if s.len() > 0 && is_digit(s[0]) {
        let tail = s.skip(1);
        lemma_leading_digits(tail);
        let n = leading_digits(tail) as int;
        assert forall|i: int| 0 <= i < n + 1 implies is_digit(#[trigger] s.take(n + 1)[i]) by {
            if i > 0 {
                assert(s.take(n + 1)[i] == tail.take(n)[i - 1]);
            }
        }
        if n + 1 < s.len() {
            assert(s[n + 1] == tail[n]);
        }
    }
}

/// A run of `n` digits at the start of `s` that no digit follows is the whole
/// of its leading digits.
pub proof fn lemma_leading_digits_exact(s: Seq<char>, n: int)
    requires
        0 <= n <= s.len(),
        all_digits(s.take(n)),
        n < s.len() ==> !is_digit(s[n]),
    ensures
        leading_digits(s) == n,
    decreases n,
{
    if n > 0 {
        let tail = s.skip(1);
        assert(s[0] == s.take(n)[0]);
        assert forall|i: int| 0 <= i < n - 1 implies is_digit(#[trigger] tail.take(n - 1)[i]) by {
            assert(tail.take(n - 1)[i] == s.take(n)[i + 1]);
        }
        lemma_leading_digits_exact(tail, n - 1);
    }
}

/// A text that begins with `n` digits has at least `n` leading digits.
pub proof fn lemma_leading_digits_at_least(s: Seq<char>, n: int)
    requires
        0 <= n <= s.len(),
        all_digits(s.take(n)),
    ensures
        leading_digits(s) >= n,
    decreases n,
{
    if n > 0 {
        let tail = s.skip(1);
        assert(s[0] == s.take(n)[0]);
        assert forall|i: int| 0 <= i < n - 1 implies is_digit(#[trigger] tail.take(n - 1)[i]) by {
            assert(tail.take(n - 1)[i] == s.take(n)[i + 1]);
        }
        lemma_leading_digits_at_least(tail, n - 1);
    }
}

} // verus!
