//! Texts taken apart into token texts and gaps: every text that has tokens is
//! made of the texts of its tokens and the whitespace around them.

use crate::chars::{
    all_whitespace, byte_len, char_class, is_digit, is_operator, is_whitespace, leading_digits,
    lemma_leading_digits, lemma_leading_digits_exact, utf8_width, CharClass,
};
use crate::spacing::{
    is_number_word, is_operator_word, is_word, kinds, lemma_scan_first_word,
    lemma_scan_spaced_text, lemma_spaced_text_begins_with_digit, lemma_tokens_stand_at_words,
    spaced_text, well_spaced, word_kinds, word_start, word_token,
};
use crate::token::{lex, scan, TokenKind};
use vstd::prelude::*;

verus! {

/// The texts of the tokens of `s`, in order: each run of digits that follow
/// one another, and each other character that is not whitespace.
pub open spec fn token_texts(s: Seq<char>) -> Seq<Seq<char>>
    decreases s.len(),
{
    if s.len() == 0 {
        Seq::empty()
    } else {
        match char_class(s[0]) {
            CharClass::Whitespace => token_texts(s.skip(1)),
            CharClass::Digit => {
                let n = leading_digits(s) as int;
                proof {
                    lemma_leading_digits(s);
                }
                seq![s.take(n)] + token_texts(s.skip(n))
            },
            _ => seq![s.take(1)] + token_texts(s.skip(1)),
        }
    }
}

/// The whitespace of `s`: what stands before its first token text, between
/// each two and after the last.
pub open spec fn token_gaps(s: Seq<char>) -> Seq<Seq<char>>
    decreases s.len(),
{
    if s.len() == 0 {
        seq![Seq::empty()]
    } else {
        match char_class(s[0]) {
            CharClass::Whitespace => {
                let gaps = token_gaps(s.skip(1));
                gaps.update(0, seq![s[0]] + gaps[0])
            },
            CharClass::Digit => {
                let n = leading_digits(s) as int;
                proof {
                    lemma_leading_digits(s);
                }
                seq![Seq::empty()] + token_gaps(s.skip(n))
            },
            _ => seq![Seq::empty()] + token_gaps(s.skip(1)),
        }
    }
}

/// The words of `words`, with one space between each two.
pub open spec fn single_spaced(words: Seq<Seq<char>>) -> Seq<char>
    decreases words.len(),
{
    if words.len() == 0 {
        Seq::empty()
    } else if words.len() == 1 {
        words[0]
    } else {
        words[0] + seq![' '] + single_spaced(words.skip(1))
    }
}

/// The gaps of `n` words with one space between each two and nothing at
/// either end.
spec fn single_gaps(n: nat) -> Seq<Seq<char>> {
    Seq::new(
        n + 1,
        |i: int|
            if 0 < i < n {
                seq![' ']
            } else {
                Seq::empty()
            },
    )
}

/// There is one gap more than there are token texts, and a text that begins
/// with a number, with no gap before it, begins with a digit.
proof fn lemma_token_texts_begin(s: Seq<char>)
    ensures
        token_gaps(s).len() == token_texts(s).len() + 1,
        token_gaps(s)[0].len() == 0 && token_texts(s).len() > 0 && is_number_word(
            token_texts(s)[0],
        ) ==> s.len() > 0 && is_digit(s[0]),
    decreases s.len(),
{
    if s.len() > 0 {
        match char_class(s[0]) {
            CharClass::Whitespace => {
                lemma_token_texts_begin(s.skip(1));
            },
            CharClass::Digit => {
                lemma_leading_digits(s);
                lemma_token_texts_begin(s.skip(leading_digits(s) as int));
            },
            _ => {
                lemma_token_texts_begin(s.skip(1));
                assert(token_texts(s)[0] == s.take(1));
                assert(s.take(1)[0] == s[0]);
            },
        }
    }
}

/// One more whitespace character before a text goes into its first gap.
proof fn lemma_spaced_text_grows(words: Seq<Seq<char>>, gaps: Seq<Seq<char>>, c: char)
    requires
        gaps.len() == words.len() + 1,
    ensures
        spaced_text(words, gaps.update(0, seq![c] + gaps[0])) == seq![c] + spaced_text(
            words,
            gaps,
        ),
{
    let grown = gaps.update(0, seq![c] + gaps[0]);
    if words.len() > 0 {
        assert(grown.skip(1) =~= gaps.skip(1));
        let rest = spaced_text(words.skip(1), gaps.skip(1));
        assert((seq![c] + gaps[0]) + words[0] + rest =~= seq![c] + (gaps[0] + words[0] + rest));
    }
}

/// A word and an empty gap before well-spaced words and gaps are well spaced
/// with them, unless the word and the next are numbers with nothing between.
proof fn lemma_well_spaced_with_word(
    word: Seq<char>,
    words: Seq<Seq<char>>,
    gaps: Seq<Seq<char>>,
)
    requires
        well_spaced(words, gaps),
        is_word(word),
        !(is_number_word(word) && words.len() > 0 && is_number_word(words[0]) && gaps[0].len()
            == 0),
    ensures
        well_spaced(seq![word] + words, seq![Seq::<char>::empty()] + gaps),
        spaced_text(seq![word] + words, seq![Seq::<char>::empty()] + gaps) == word + spaced_text(
            words,
            gaps,
        ),
{
    let (w, g) = (seq![word] + words, seq![Seq::<char>::empty()] + gaps);
    assert forall|i: int| 0 <= i < g.len() implies all_whitespace(#[trigger] g[i]) by {
        if i > 0 {
            assert(g[i] == gaps[i - 1]);
        }
    }
    assert forall|i: int| 0 <= i < w.len() implies is_word(#[trigger] w[i]) by {
        if i > 0 {
            assert(w[i] == words[i - 1]);
        }
    }
    assert forall|i: int|
        0 < i < w.len() && is_number_word(w[i - 1]) && is_number_word(w[i]) implies (
    #[trigger] g[i]).len() > 0 by {
        assert(g[i] == gaps[i - 1]);
        assert(w[i] == words[i - 1]);
        if i > 1 {
            assert(w[i - 1] == words[i - 2]);
        }
    }
    assert(w.skip(1) =~= words);
    assert(g.skip(1) =~= gaps);
    assert(g[0] + w[0] + spaced_text(words, gaps) =~= word + spaced_text(words, gaps));
}

/// A text that has tokens, wherever it stands in the input, is its token
/// texts, well spaced by its gaps.
pub proof fn lemma_text_is_spaced(s: Seq<char>, offset: nat)
    requires
        scan(s, offset) is Ok,
    ensures
        well_spaced(token_texts(s), token_gaps(s)),
        spaced_text(token_texts(s), token_gaps(s)) == s,
    decreases s.len(),
{
    if s.len() == 0 {
        assert(token_gaps(s)[0] =~= s);
    } else {
        match char_class(s[0]) {
            CharClass::Whitespace => {
                let rest = s.skip(1);
                lemma_text_is_spaced(rest, offset + utf8_width(s[0]));
                let (w, g) = (token_texts(rest), token_gaps(rest));
                let grown = g.update(0, seq![s[0]] + g[0]);
                lemma_spaced_text_grows(w, g, s[0]);
                assert(seq![s[0]] + rest =~= s);
                assert forall|i: int| 0 <= i < grown.len() implies all_whitespace(
                    #[trigger] grown[i],
                ) by {
                    if i == 0 {
                        assert(all_whitespace(g[0]));
                        assert forall|j: int| 0 <= j < grown[0].len() implies is_whitespace(
                            #[trigger] grown[0][j],
                        ) by {
                            if j > 0 {
                                assert(grown[0][j] == g[0][j - 1]);
                            }
                        }
                    } else {
                        assert(grown[i] == g[i]);
                    }
                }
                assert forall|i: int|
                    0 < i < w.len() && is_number_word(w[i - 1]) && is_number_word(
                        w[i],
                    ) implies (#[trigger] grown[i]).len() > 0 by {
                    assert(grown[i] == g[i]);
                }
            },
            CharClass::Digit => {
                lemma_leading_digits(s);
                let n = leading_digits(s) as int;
                let rest = s.skip(n);
                lemma_text_is_spaced(rest, offset + n as nat);
                lemma_token_texts_begin(rest);
                lemma_well_spaced_with_word(s.take(n), token_texts(rest), token_gaps(rest));
                assert(s.take(n) + rest =~= s);
            },
            CharClass::Operator => {
                let rest = s.skip(1);
                lemma_text_is_spaced(rest, offset + 1);
                assert(s.take(1)[0] == s[0]);
                lemma_well_spaced_with_word(s.take(1), token_texts(rest), token_gaps(rest));
                assert(s.take(1) + rest =~= s);
            },
            CharClass::Other => {},
        }
    }
}

/// Words with one space between each two are well spaced.
proof fn lemma_single_spaced(words: Seq<Seq<char>>)
    requires
        forall|i: int| 0 <= i < words.len() ==> is_word(#[trigger] words[i]),
    ensures
        well_spaced(words, single_gaps(words.len())),
        spaced_text(words, single_gaps(words.len())) == single_spaced(words),
    decreases words.len(),
{
    let gaps = single_gaps(words.len());
    assert forall|i: int| 0 <= i < gaps.len() implies all_whitespace(#[trigger] gaps[i]) by {
        assert forall|j: int| 0 <= j < gaps[i].len() implies is_whitespace(
            #[trigger] gaps[i][j],
        ) by {
            assert(gaps[i][j] == ' ');
        }
    }
    if words.len() == 0 {
        assert(gaps[0] =~= Seq::<char>::empty());
    } else if words.len() == 1 {
        assert(spaced_text(words.skip(1), gaps.skip(1)) == gaps.skip(1)[0]);
        assert(gaps[0] + words[0] + gaps.skip(1)[0] =~= words[0]);
    } else {
        let rest = words.skip(1);
        assert forall|i: int| 0 <= i < rest.len() implies is_word(#[trigger] rest[i]) by {
            assert(rest[i] == words[i + 1]);
        }
        lemma_single_spaced(rest);
        let rest_gaps = single_gaps(rest.len());
        assert(gaps.skip(1) =~= rest_gaps.update(0, seq![' '] + rest_gaps[0]));
        lemma_spaced_text_grows(rest, rest_gaps, ' ');
        assert(spaced_text(rest, gaps.skip(1)) == seq![' '] + single_spaced(rest));
        assert(gaps[0] + words[0] + (seq![' '] + single_spaced(rest)) =~= words[0] + seq![' ']
            + single_spaced(rest));
    }
}

/// The token texts of a text, put together again with one space between each
/// two, give tokens of the same kinds in the same order as the text itself.
pub proof fn lemma_relex_single_spaced(s: Seq<char>)
    requires
        lex(s) is Ok,
    ensures
        lex(single_spaced(token_texts(s))) is Ok,
        kinds(lex(single_spaced(token_texts(s)))->Ok_0) == kinds(lex(s)->Ok_0),
{
    let words = token_texts(s);
    lemma_text_is_spaced(s, 0);
    lemma_scan_spaced_text(words, token_gaps(s), 0);
    lemma_single_spaced(words);
    lemma_scan_spaced_text(words, single_gaps(words.len()), 0);
}

/// Whitespace before a text adds no token text.
proof fn lemma_token_texts_skip_gap(gap: Seq<char>, rest: Seq<char>)
    requires
        all_whitespace(gap),
    ensures
        token_texts(gap + rest) == token_texts(rest),
    decreases gap.len(),
{
    if gap.len() == 0 {
        assert(gap + rest =~= rest);
    } else {
        assert(is_whitespace(gap[0]));
        assert((gap + rest).skip(1) =~= gap.skip(1) + rest);
        assert forall|i: int| 0 <= i < gap.skip(1).len() implies is_whitespace(
            #[trigger] gap.skip(1)[i],
        ) by {
            assert(gap.skip(1)[i] == gap[i + 1]);
        }
        lemma_token_texts_skip_gap(gap.skip(1), rest);
    }
}

/// The token texts of a well-spaced text are its words.
pub proof fn lemma_token_texts_of_spaced_text(words: Seq<Seq<char>>, gaps: Seq<Seq<char>>)
    requires
        well_spaced(words, gaps),
    ensures
        token_texts(spaced_text(words, gaps)) == words,
    decreases words.len(),
{
    let text = spaced_text(words, gaps);
    assert(all_whitespace(gaps[0]));
    if words.len() == 0 {
        lemma_token_texts_skip_gap(gaps[0], Seq::<char>::empty());
        assert(gaps[0] + Seq::<char>::empty() =~= gaps[0]);
        assert(token_texts(text) =~= words);
    } else {
        let word = words[0];
        let rest = spaced_text(words.skip(1), gaps.skip(1));
        let tail = word + rest;
        lemma_scan_first_word(words, gaps, 0);
        lemma_token_texts_of_spaced_text(words.skip(1), gaps.skip(1));
        assert(text =~= gaps[0] + tail);
        lemma_token_texts_skip_gap(gaps[0], tail);
        assert(is_word(word));
        assert(tail[0] == word[0]);
        if is_operator_word(word) {
            assert(tail.take(1) =~= word);
            assert(tail.skip(1) =~= rest);
        } else {
            let n = word.len() as int;
            if rest.len() > 0 {
                assert(tail[n] == rest[0]);
                if is_digit(rest[0]) {
                    lemma_spaced_text_begins_with_digit(words.skip(1), gaps.skip(1));
                    assert(words.skip(1)[0] == words[1]);
                    assert(gaps.skip(1)[0] == gaps[1]);
                }
            }
            assert(tail.take(n) =~= word);
            lemma_leading_digits_exact(tail, n);
            assert(tail.skip(n) =~= rest);
        }
        assert(token_texts(tail) == seq![word] + token_texts(rest));
        assert(seq![word] + words.skip(1) =~= words);
    }
}

/// Putting the token texts of a text together with single spaces settles
/// it: the text so made has the same token texts, making it again from them
/// gives the same text, and so the same tokens at the same places.
pub proof fn lemma_single_spacing_is_idempotent(s: Seq<char>)
    requires
        lex(s) is Ok,
    ensures
        ({
            let settled = single_spaced(token_texts(s));
            &&& token_texts(settled) == token_texts(s)
            &&& single_spaced(token_texts(settled)) == settled
            &&& lex(single_spaced(token_texts(settled))) == lex(settled)
        }),
{
    let words = token_texts(s);
    lemma_text_is_spaced(s, 0);
    lemma_single_spaced(words);
    lemma_token_texts_of_spaced_text(words, single_gaps(words.len()));
}

/// Where a text has tokens, token `i` points at token text `i`: the text
/// holds it at `word_start`, the token's `loc` is the byte offset of that
/// place and its `len` the length of the token text.
pub proof fn lemma_token_texts_are_matched(s: Seq<char>, i: int)
    requires
        lex(s) is Ok,
        0 <= i < lex(s)->Ok_0.len(),
    ensures
        lex(s)->Ok_0.len() == token_texts(s).len(),
        ({
            let word = token_texts(s)[i];
            let start = word_start(token_texts(s), token_gaps(s), i) as int;
            &&& start + word.len() <= s.len()
            &&& s.subrange(start, start + word.len()) == word
            &&& lex(s)->Ok_0[i] == word_token(word, byte_len(s.take(start)))
        }),
{
    let (words, gaps) = (token_texts(s), token_gaps(s));
    lemma_text_is_spaced(s, 0);
    lemma_scan_spaced_text(words, gaps, 0);
    assert(lex(s)->Ok_0.len() == kinds(lex(s)->Ok_0).len());
    lemma_tokens_stand_at_words(words, gaps, 0, i);
}

/// Whether `kind` is one that the lexer gives: a number that is not
/// negative, or one of the two operators.
pub open spec fn is_lexical(kind: TokenKind) -> bool {
    match kind {
        TokenKind::NUM { val } => val >= 0,
        TokenKind::PUNCT { op } => is_operator(op),
        TokenKind::EOF => false,
    }
}

/// Every token of a text is a number that is not negative or one of the two
/// operators: the lexer gives no end marker and no other symbol.
pub proof fn lemma_lex_gives_lexical_tokens(s: Seq<char>)
    requires
        lex(s) is Ok,
    ensures
        forall|i: int|
            0 <= i < lex(s)->Ok_0.len() ==> is_lexical((#[trigger] lex(s)->Ok_0[i]).token_kind),
{
    let (words, gaps) = (token_texts(s), token_gaps(s));
    let tokens = lex(s)->Ok_0;
    lemma_text_is_spaced(s, 0);
    lemma_scan_spaced_text(words, gaps, 0);
    assert(tokens.len() == kinds(tokens).len());
    assert forall|i: int| 0 <= i < tokens.len() implies is_lexical(
        (#[trigger] tokens[i]).token_kind,
    ) by {
        assert(kinds(tokens)[i] == word_kinds(words)[i]);
        assert(is_word(words[i]));
    }
}

} // verus!
