//! Tokens and the lexer that produces them.

use crate::chars::{
    all_digits, byte_count, byte_len, char_class, classify, is_digit, is_digit_char,
    leading_digits, lemma_byte_len_digits, lemma_byte_len_next, lemma_byte_len_take,
    lemma_leading_digits,
    lemma_leading_digits_at_least, lemma_leading_digits_exact, lemma_len_le_byte_len,
    utf8_width, width_of, CharClass,
};
use crate::decimal::{
    decimal_value, lemma_decimal_value_prefix, lemma_decimal_value_push, push_digit,
};
use crate::error::{EmitError, LexError};
use std::collections::VecDeque;
use std::str::Chars;
use vstd::prelude::*;
use vstd::std_specs::iter::IteratorSpec;

verus! {

/// The type of the number that a token holds.
pub type TokenNumType = i32;

/// What a token is.
#[derive(Clone, Copy, Debug, PartialEq, Eq, PartialOrd, Ord, Structural)]
pub enum TokenKind {
    /// An operator: `+` or `-`.
    PUNCT { op: char },
    /// A number.
    NUM { val: TokenNumType },
    /// The end of the input. The lexer never produces it: the end of the
    /// token sequence marks the end of the input.
    EOF,
}

/// One token, with the place of its text in the input.
#[derive(Clone, Copy, Debug, PartialEq, Eq, Structural)]
pub struct Token {
    /// What the token is, with the number or the operator that it holds.
    pub token_kind: TokenKind,
    /// The byte offset in the input at which the token's text begins.
    pub loc: u64,
    /// The length of the token's text in bytes.
    pub len: u64,
}

impl Token {
    /// A token of the given kind, whose text begins at byte `loc` and is `len`
    /// bytes long.
    pub fn new(token_kind: TokenKind, loc: u64, len: u64) -> (token: Self)
        ensures
            token == (Token { token_kind, loc, len }),
    {
        Token { token_kind, loc, len }
    }

    /// The number that this token holds, if it is a number.
    pub fn get_num_val(&self) -> (val: Option<TokenNumType>)
        ensures
            val == self.num_val(),
    {
        match self.token_kind {
            TokenKind::NUM { val } => Some(val),
            _ => None,
        }
    }

    /// The number that this token holds, if it is a number.
    pub open spec fn num_val(self) -> Option<TokenNumType> {
        match self.token_kind {
            TokenKind::NUM { val } => Some(val),
            _ => None,
        }
    }
}

/// The tokens `done`, followed by what `rest` holds; the error of `rest`, if
/// it holds one.
pub open spec fn followed_by(done: Seq<Token>, rest: Result<Seq<Token>, LexError>) -> Result<
    Seq<Token>,
    LexError,
> {
    match rest {
        Ok(tokens) => Ok(done + tokens),
        Err(error) => Err(error),
    }
}

/// The tokens of the text `s`, whose first character stands at byte `offset`
/// of the input.
///
/// Whitespace separates tokens and is otherwise skipped. A number token takes
/// all the digits that follow one another, and fails if they denote more
/// than a token holds. An operator is a token of its own. The first
/// character that can begin no token, or the first number that is too large,
/// ends the scan with its error.
pub open spec fn scan(s: Seq<char>, offset: nat) -> Result<Seq<Token>, LexError>
    decreases s.len(),
{
    if s.len() == 0 {
        Ok(Seq::empty())
    } else {
        match char_class(s[0]) {
            CharClass::Whitespace => scan(s.skip(1), offset + utf8_width(s[0])),
            CharClass::Digit => {
                let n = leading_digits(s);
                let value = decimal_value(s.take(n as int));
                if value > i32::MAX {
                    Err(LexError::NumberOverflow { loc: offset as u64 })
                } else {
                    proof {
                        lemma_leading_digits(s);
                    }
                    let token = Token {
                        token_kind: TokenKind::NUM { val: value as i32 },
                        loc: offset as u64,
                        len: n as u64,
                    };
                    followed_by(seq![token], scan(s.skip(n as int), offset + n))
                }
            },
            CharClass::Operator => {
                let token = Token {
                    token_kind: TokenKind::PUNCT { op: s[0] },
                    loc: offset as u64,
                    len: 1,
                };
                followed_by(seq![token], scan(s.skip(1), offset + 1))
            },
            CharClass::Other => Err(LexError::InvalidToken { ch: s[0], loc: offset as u64 }),
        }
    }
}

/// The tokens of the text `s`, in the order of their text, or the first error
/// in it.
pub open spec fn lex(s: Seq<char>) -> Result<Seq<Token>, LexError> {
    scan(s, 0)
}

/// Appending a token to those that are done is the same as putting it before
/// the rest.
proof fn lemma_followed_by_push(
    done: Seq<Token>,
    token: Token,
    rest: Result<Seq<Token>, LexError>,
)
    ensures
        followed_by(done, followed_by(seq![token], rest)) == followed_by(done.push(token), rest),
{
    if let Ok(tokens) = rest {
        assert(done + (seq![token] + tokens) =~= done.push(token) + tokens);
    }
}

/// The digits of a number in the input, as the lexer has read them.
struct NumberRun {
    /// The number that the digits denote, unless it is too large.
    value: Option<TokenNumType>,
    /// How many digits there are.
    len: u64,
    /// The character after the last digit, if there is one.
    next: Option<char>,
}

/// Takes the character at index `at` of `text` from `rest`.
fn advance(rest: &mut Chars<'_>, Ghost(text): Ghost<Seq<char>>, Ghost(at): Ghost<int>) -> (next:
    Option<char>)
    requires
        0 <= at <= text.len(),
        (*old(rest)).obeys_prophetic_iter_laws(),
        (*old(rest)).remaining() == text.skip(at),
    ensures
        (*final(rest)).obeys_prophetic_iter_laws(),
        at < text.len() ==> next == Some(text[at]) && (*final(rest)).remaining() == text.skip(at + 1),
        at == text.len() ==> next is None && (*final(rest)).remaining() == text.skip(at),
{
    broadcast use vstd::string::group_string_axioms;

    proof {
        if at < text.len() {
            assert(text.skip(at).drop_first() =~= text.skip(at + 1));
        }
    }
    rest.next()
}

/// Reads the number that begins with the digit `first`, which stands at index
/// `at` of `text`: takes from `rest` the digits that follow and the
/// character after them.
fn read_number(
    rest: &mut Chars<'_>,
    first: char,
    Ghost(text): Ghost<Seq<char>>,
    Ghost(at): Ghost<int>,
) -> (run: NumberRun)
    requires
        0 <= at < text.len(),
        text.len() <= u64::MAX,
        text[at] == first,
        is_digit(first),
        (*old(rest)).obeys_prophetic_iter_laws(),
        (*old(rest)).remaining() == text.skip(at + 1),
    ensures
        (*final(rest)).obeys_prophetic_iter_laws(),
        ({
            let n = leading_digits(text.skip(at));
            let value = decimal_value(text.skip(at).take(n as int));
            let end = at + n;
            &&& 0 < n
            &&& end <= text.len()
            &&& value > i32::MAX ==> run.value is None
            &&& value <= i32::MAX ==> {
                &&& run.value == Some(value as i32)
                &&& run.len == n
                &&& end < text.len() ==> run.next == Some(text[end]) && (*final(rest)).remaining()
                    == text.skip(end + 1)
                &&& end == text.len() ==> run.next is None
            }
        }),
{
    let ghost here = text.skip(at);
    let mut val: TokenNumType = 0;
    let mut len: u64 = 0;
    let mut digit = first;
    let mut next = Some(first);
    let mut more = true;
    proof {
        lemma_leading_digits(here);
        assert(here[0] == first);
    }
    while more
        invariant
            0 <= at,
            at + len <= text.len() <= u64::MAX,
            here == text.skip(at),
            all_digits(here.take(len as int)),
            0 <= val == decimal_value(here.take(len as int)),
            more ==> at + len < text.len() && digit == text[at + len] && is_digit(digit)
                && (*rest).remaining() == text.skip(at + len + 1),
            !more ==> len > 0 && (at + len < text.len() ==> next == Some(text[at + len])
                && !is_digit(text[at + len]) && (*rest).remaining() == text.skip(at + len + 1)),
            !more ==> (at + len == text.len() ==> next is None),
            (*rest).obeys_prophetic_iter_laws(),
            leading_digits(here) <= here.len(),
        decreases text.len() - at - len, more as int,
    {
        let ghost run = here.take(len + 1);
        proof {
            assert(run =~= here.take(len as int).push(digit));
            lemma_decimal_value_push(here.take(len as int), digit);
            assert(all_digits(run));
        }
        match push_digit(val, digit) {
            None => {
                proof {
                    lemma_leading_digits_at_least(here, len + 1);
                    let n = leading_digits(here) as int;
                    lemma_decimal_value_prefix(here.take(n), len + 1);
                    assert(here.take(n).take(len + 1) =~= run);
                }
                return NumberRun { value: None, len, next };
            },
            Some(extended) => {
                val = extended;
            },
        }
        len = len + 1;
        next = advance(rest, Ghost(text), Ghost(at + len));
        more = false;
        if let Some(d) = next {
            if is_digit_char(d) {
                digit = d;
                more = true;
            }
        }
    }
    proof {
        if at + len < text.len() {
            assert(here[len as int] == text[at + len]);
        }
        lemma_leading_digits_exact(here, len as int);
    }
    NumberRun { value: Some(val), len, next }
}

/// Splits `raw` into its tokens.
///
/// Returns the tokens in the order of their text, each with the byte offset
/// and byte length of its text, or the first error in `raw`.
pub fn tokenize(raw: &str) -> (result: Result<VecDeque<Token>, LexError>)
    ensures
        match result {
            Ok(tokens) => lex(raw@) == Ok::<Seq<Token>, LexError>(tokens@),
            Err(error) => lex(raw@) == Err::<Seq<Token>, LexError>(error),
        },
{
    broadcast use vstd::string::group_string_axioms;

    // No offset passes the number of bytes in `raw`, which a `usize` holds.
    let total = byte_count(raw);
    let mut tokens: VecDeque<Token> = VecDeque::new();
    let mut rest = raw.chars();
    let mut loc: u64 = 0;
    let ghost mut at: int = 0;
    proof {
        assert(raw@.skip(0) =~= raw@);
        assert(raw@.take(0) =~= Seq::<char>::empty());
        assert(followed_by(tokens@, scan(raw@.skip(0), 0)) == scan(raw@, 0)) by {
            if let Ok(all) = scan(raw@, 0) {
                assert(tokens@ + all =~= all);
            }
        }
        lemma_len_le_byte_len(raw@);
    }
    let mut next = advance(&mut rest, Ghost(raw@), Ghost(0));
    loop
        invariant
            0 <= at <= raw@.len() <= total == byte_len(raw@),
            loc == byte_len(raw@.take(at)),
            at < raw@.len() ==> next == Some(raw@[at]) && rest.remaining() == raw@.skip(at + 1),
            at == raw@.len() ==> next is None,
            rest.obeys_prophetic_iter_laws(),
            lex(raw@) == followed_by(tokens@, scan(raw@.skip(at), loc as nat)),
        decreases raw@.len() - at,
    {
        let ch = match next {
            None => {
                assert(raw@.skip(at).len() == 0);
                assert(tokens@ + Seq::<Token>::empty() =~= tokens@);
                return Ok(tokens);
            },
            Some(ch) => ch,
        };
        let ghost here = raw@.skip(at);
        assert(here[0] == ch);
        match classify(ch) {
            CharClass::Whitespace => {
                proof {
                    lemma_byte_len_next(raw@, at);
                    assert(here.skip(1) =~= raw@.skip(at + 1));
                }
                loc = loc + width_of(ch);
                next = advance(&mut rest, Ghost(raw@), Ghost(at + 1));
                proof {
                    at = at + 1;
                }
            },
            CharClass::Digit => {
                let run = read_number(&mut rest, ch, Ghost(raw@), Ghost(at));
                let ghost n = leading_digits(here) as int;
                let val = match run.value {
                    None => {
                        return Err(LexError::NumberOverflow { loc });
                    },
                    Some(val) => val,
                };
                let token = Token::new(TokenKind::NUM { val }, loc, run.len);
                proof {
                    lemma_leading_digits(here);
                    lemma_byte_len_take(raw@, at, at + n);
                    assert(here.take(n) =~= raw@.subrange(at, at + n));
                    lemma_byte_len_digits(here.take(n));
                    assert(here.skip(n) =~= raw@.skip(at + n));
                    lemma_followed_by_push(
                        tokens@,
                        token,
                        scan(raw@.skip(at + n), (loc + run.len) as nat),
                    );
                }
                loc = loc + run.len;
                next = run.next;
                tokens.push_back(token);
                proof {
                    at = at + n;
                }
            },
            CharClass::Operator => {
                let token = Token::new(TokenKind::PUNCT { op: ch }, loc, 1);
                proof {
                    lemma_byte_len_next(raw@, at);
                    assert(here.skip(1) =~= raw@.skip(at + 1));
                    lemma_followed_by_push(
                        tokens@,
                        token,
                        scan(raw@.skip(at + 1), (loc + 1) as nat),
                    );
                }
                loc = loc + 1;
                next = advance(&mut rest, Ghost(raw@), Ghost(at + 1));
                tokens.push_back(token);
                proof {
                    at = at + 1;
                }
            },
            CharClass::Other => {
                return Err(LexError::InvalidToken { ch, loc });
            },
        }
    }
}

/// The number at the front of `tokens`, or the error of there being none.
pub open spec fn front_number(tokens: Seq<Token>) -> Result<TokenNumType, EmitError> {
    if tokens.len() > 0 && tokens[0].num_val() is Some {
        Ok(tokens[0].num_val()->0)
    } else {
        Err(EmitError::NotANumber)
    }
}

/// `tokens` without its first token; `tokens` itself where it is empty.
pub open spec fn without_front(tokens: Seq<Token>) -> Seq<Token> {
    if tokens.len() > 0 {
        tokens.skip(1)
    } else {
        tokens
    }
}

/// Removes the token at the front of `v` and returns the number that it
/// holds.
///
/// Fails if `v` is empty, and if the token removed is not a number.
pub fn consume_one_num(v: &mut VecDeque<Token>) -> (result: Result<TokenNumType, EmitError>)
    ensures
        result == front_number(old(v)@),
        final(v)@ == without_front(old(v)@),
{
    match v.pop_front() {
        None => Err(EmitError::NotANumber),
        Some(token) => {
            assert(v@ =~= old(v)@.skip(1));
            match token.get_num_val() {
                Some(val) => Ok(val),
                None => Err(EmitError::NotANumber),
            }
        },
    }
}

} // verus!
