//! Tokens as they are written: the text of each token and of a run of
//! tokens with white space in between, with the proof that scanning what is
//! written gives the tokens back.
use vstd::prelude::*;
use crate::chars::{alphanumeric_char, is_ascii_digit, numeric_char};
use crate::errors::ErrorView;
use crate::lexis::{
    digit_chars, is_decimal_literal, is_whitespace, lemma_lex_len, lemma_lex_writable,
    lemma_run_len, lemma_run_len_is, lex, number_len, plain_digits, prepend, run_len,
    scan_text, splits_as_decimal, string_chars, word_chars, writable, Lexeme,
};
use crate::token::TokenView;

verus! {

/// The characters that spell a token.
pub open spec fn token_text(token: TokenView) -> Seq<char> {
    match token {
        TokenView::ObjectStart => seq!['{'],
        TokenView::ObjectEnd => seq!['}'],
        TokenView::ArrayStart => seq!['['],
        TokenView::ArrayEnd => seq![']'],
        TokenView::String(s) => seq!['"'] + s + seq!['"'],
        TokenView::Number(n) => n,
        TokenView::Bool(b) => if b {
            seq!['t', 'r', 'u', 'e']
        } else {
            seq!['f', 'a', 'l', 's', 'e']
        },
        TokenView::Comma => seq![','],
        TokenView::Colon => seq![':'],
        TokenView::WhiteSpace => seq![' '],
        TokenView::Null => seq!['n', 'u', 'l', 'l'],
    }
}

/// Two tokens that would run into one another if nothing stood between
/// them: a word or a number behind a word, a number behind a number.
pub open spec fn needs_gap(token: TokenView, next: TokenView) -> bool {
    match token {
        TokenView::Bool(_) | TokenView::Null => next is Bool || next is Null || next is Number,
        TokenView::Number(_) => next is Number,
        _ => false,
    }
}

/// A run of white space, possibly empty.
pub open spec fn is_blank(gap: Seq<char>) -> bool {
    forall|i: int| 0 <= i < gap.len() ==> is_whitespace(#[trigger] gap[i])
}

/// `gaps` can stand around `tokens`: one blank gap before each token and one
/// behind the last, none empty where two tokens would run into one another,
/// and every token can be spelt.
pub open spec fn layout_fits(tokens: Seq<TokenView>, gaps: Seq<Seq<char>>) -> bool {
    &&& gaps.len() == tokens.len() + 1
    &&& forall|i: int| 0 <= i < gaps.len() ==> is_blank(#[trigger] gaps[i])
    &&& forall|i: int| 0 <= i < tokens.len() ==> writable(#[trigger] tokens[i])
    &&& forall|i: int|
        0 <= i < tokens.len() - 1 && needs_gap(tokens[i], tokens[i + 1]) ==> (#[trigger] gaps[i
            + 1]).len() > 0
}

/// The text of `tokens` with `gaps` around them.
pub open spec fn written(tokens: Seq<TokenView>, gaps: Seq<Seq<char>>) -> Seq<char>
    decreases tokens.len(),
{
    if tokens.len() == 0 {
        gaps[0]
    } else {
        gaps[0] + token_text(tokens[0]) + written(tokens.skip(1), gaps.skip(1))
    }
}

/// What may stand behind a token's text without being read into it: behind
/// a word no alphanumeric character, behind a number neither a numeric
/// character nor a dot.
pub open spec fn ends_before(token: TokenView, behind: Seq<char>) -> bool {
    match token {
        TokenView::Bool(_) | TokenView::Null => behind.len() == 0 || !alphanumeric_char(behind[0]),
        TokenView::Number(_) => behind.len() == 0 || (!numeric_char(behind[0]) && behind[0]
            != '.'),
        _ => true,
    }
}

/// Where every character of `s` is in the class and `behind` is empty or
/// starts outside it, the run at the front of `s + behind` is `s`.
pub proof fn lemma_run_over(s: Seq<char>, behind: Seq<char>, class: spec_fn(char) -> bool)
    requires
        forall|i: int| 0 <= i < s.len() ==> class(#[trigger] s[i]),
        behind.len() == 0 || !class(behind[0]),
    ensures
        run_len(s + behind, class) == s.len(),
{
    let whole = s + behind;
    assert forall|i: int| 0 <= i < s.len() implies class(#[trigger] whole[i]) by {
        assert(whole[i] == s[i]);
    }
    if behind.len() > 0 {
        assert(whole[s.len() as int] == behind[0]);
    }
    lemma_run_len_is(whole, class, s.len());
}

/// A number in decimal form is written with digits and dots alone, and
/// starts with a digit.
pub proof fn lemma_decimal_is_plain(text: Seq<char>)
    requires
        is_decimal_literal(text),
    ensures
        plain_digits(text),
        text.len() > 0,
        is_ascii_digit(text[0]),
{
    let whole = choose|whole: int| splits_as_decimal(text, whole);
    assert forall|i: int| 0 <= i < text.len() implies is_ascii_digit(#[trigger] text[i]) || text[i]
        == '.' by {
        if i < whole {
        } else if i == whole {
        } else {
        }
    }
}

/// A number in decimal form, followed by neither a numeric character nor a
/// dot, is read as a whole.
pub proof fn lemma_number_len_of_decimal(text: Seq<char>, behind: Seq<char>)
    requires
        is_decimal_literal(text),
        behind.len() == 0 || (!numeric_char(behind[0]) && behind[0] != '.'),
    ensures
        1 + number_len((text + behind).skip(1)) == text.len(),
{
    let whole = choose|whole: int| splits_as_decimal(text, whole);
    let tail = (text + behind).skip(1);
    let first = text.subrange(1, whole);
    assert forall|i: int| 0 <= i < first.len() implies digit_chars()(#[trigger] first[i]) by {
        assert(first[i] == text[i + 1]);
        assert(is_ascii_digit(text[i + 1]));
    }
    if whole == text.len() {
        assert(tail =~= first + behind);
        lemma_run_over(first, behind, digit_chars());
        if behind.len() > 0 {
            assert(tail[whole - 1] == behind[0]);
        }
    } else {
        let fraction = text.subrange(whole + 1, text.len() as int);
        let after_whole = text.subrange(whole, text.len() as int) + behind;
        assert(tail =~= first + after_whole);
        assert(after_whole[0] == '.');
        lemma_run_over(first, after_whole, digit_chars());
        assert(tail[whole - 1] == '.');
        assert(tail[whole] == text[whole + 1]);
        assert(is_ascii_digit(text[whole + 1]));
        assert(tail.skip(whole) =~= fraction + behind);
        assert forall|i: int| 0 <= i < fraction.len() implies digit_chars()(
            #[trigger] fraction[i],
        ) by {
            assert(fraction[i] == text[whole + 1 + i]);
            assert(is_ascii_digit(text[whole + 1 + i]));
        }
        lemma_run_over(fraction, behind, digit_chars());
    }
}

/// The text of a token, followed by what does not run into it, is read as
/// that token.
pub proof fn lemma_lex_token(token: TokenView, behind: Seq<char>)
    requires
        writable(token),
        ends_before(token, behind),
    ensures
        token_text(token).len() > 0,
        lex(token_text(token) + behind) == Ok::<Lexeme, ErrorView>(
            Lexeme { token, len: token_text(token).len() },
        ),
{
    let text = token_text(token);
    let s = text + behind;
    match token {
        TokenView::String(inner) => {
            let closing = seq!['"'] + behind;
            assert(s.skip(1) =~= inner + closing);
            assert forall|i: int| 0 <= i < inner.len() implies string_chars()(
                #[trigger] inner[i],
            ) by {}
            lemma_run_over(inner, closing, string_chars());
            assert(s.subrange(1, 1 + inner.len() as int) =~= inner);
        },
        TokenView::Number(n) => {
            lemma_decimal_is_plain(n);
            lemma_number_len_of_decimal(n, behind);
            assert(s.take(n.len() as int) =~= n);
            assert(s[0] == n[0]);
        },
        TokenView::Bool(b) => {
            let word = text.skip(1);
            assert(s.skip(1) =~= word + behind);
            assert forall|i: int| 0 <= i < word.len() implies word_chars()(#[trigger] word[i]) by {
                assert(word[i] == text[i + 1]);
            }
            lemma_run_over(word, behind, word_chars());
            assert(s.take(text.len() as int) =~= text);
            assert(s[0] == text[0]);
            assert(text.len() == if b { 4int } else { 5int });
            assert(text[0] != 'n');
            if b {
                assert(text[0] != 'f');
            } else {
                assert(text[0] != 't');
            }
        },
        TokenView::Null => {
            let word = text.skip(1);
            assert(s.skip(1) =~= word + behind);
            assert forall|i: int| 0 <= i < word.len() implies word_chars()(#[trigger] word[i]) by {
                assert(word[i] == text[i + 1]);
            }
            lemma_run_over(word, behind, word_chars());
            assert(s.take(text.len() as int) =~= text);
            assert(s[0] == text[0]);
            assert(text[0] != 't' && text[0] != 'f');
        },
        _ => {
            assert(s[0] == text[0]);
        },
    }
}

/// White space in front of a text changes nothing in its tokens.
pub proof fn lemma_scan_blank(gap: Seq<char>, behind: Seq<char>)
    requires
        is_blank(gap),
    ensures
        scan_text(gap + behind) == scan_text(behind),
    decreases gap.len(),
{
    let s = gap + behind;
    if gap.len() == 0 {
        assert(s =~= behind);
    } else {
        assert(s[0] == gap[0]);
        assert(is_whitespace(gap[0]));
        assert(s.skip(1) =~= gap.skip(1) + behind);
        assert(is_blank(gap.skip(1))) by {
            assert forall|i: int| 0 <= i < gap.skip(1).len() implies is_whitespace(
                #[trigger] gap.skip(1)[i],
            ) by {
                assert(gap.skip(1)[i] == gap[i + 1]);
            }
        }
        lemma_scan_blank(gap.skip(1), behind);
        lemma_prepend_nothing(scan_text(behind));
    }
}

/// Nothing in front of a result leaves it as it is.
pub proof fn lemma_prepend_nothing(rest: Result<Seq<TokenView>, ErrorView>)
    ensures
        prepend(Seq::empty(), rest) == rest,
{
    if let Ok(tokens) = rest {
        assert(Seq::<TokenView>::empty() + tokens =~= tokens);
    }
}

/// The text of tokens that can be spelt, laid out with gaps that fit, scans
/// to exactly these tokens.
pub proof fn lemma_scan_written(tokens: Seq<TokenView>, gaps: Seq<Seq<char>>)
    requires
        layout_fits(tokens, gaps),
    ensures
        scan_text(written(tokens, gaps)) == Ok::<Seq<TokenView>, ErrorView>(tokens),
    decreases tokens.len(),
{
    if tokens.len() == 0 {
        lemma_scan_blank(gaps[0], Seq::empty());
        assert(gaps[0] + Seq::<char>::empty() =~= gaps[0]);
        assert(tokens =~= Seq::empty());
    } else {
        let token = tokens[0];
        let text = token_text(token);
        let others = tokens.skip(1);
        let other_gaps = gaps.skip(1);
        let behind = written(others, other_gaps);
        assert(layout_fits(others, other_gaps)) by {
            assert forall|i: int| 0 <= i < other_gaps.len() implies is_blank(
                #[trigger] other_gaps[i],
            ) by {
                assert(other_gaps[i] == gaps[i + 1]);
            }
            assert forall|i: int| 0 <= i < others.len() implies writable(#[trigger] others[i]) by {
                assert(others[i] == tokens[i + 1]);
            }
            assert forall|i: int|
                0 <= i < others.len() - 1 && needs_gap(others[i], others[i + 1]) implies (
            #[trigger] other_gaps[i + 1]).len() > 0 by {
                assert(others[i] == tokens[i + 1] && others[i + 1] == tokens[i + 2]);
                assert(other_gaps[i + 1] == gaps[i + 1 + 1]);
            }
        }
        lemma_scan_written(others, other_gaps);
        assert(writable(token));
        assert(ends_before(token, behind)) by {
            let gap = gaps[1];
            assert(other_gaps[0] == gap);
            assert(is_blank(gap));
            if gap.len() > 0 {
                assert(behind[0] == gap[0]);
                assert(is_whitespace(gap[0]));
            } else if others.len() > 0 {
                let next = others[0];
                assert(next == tokens[1]);
                assert(writable(next));
                assert(gaps[0int + 1].len() == 0);
                assert(!needs_gap(tokens[0int], tokens[0int + 1]));
                lemma_first_char(next);
                assert(behind[0] == token_text(next)[0]);
            } else {
                assert(behind =~= Seq::empty());
            }
        }
        lemma_lex_token(token, behind);
        assert(written(tokens, gaps) =~= gaps[0] + (text + behind));
        lemma_scan_blank(gaps[0], text + behind);
        assert((text + behind).skip(text.len() as int) =~= behind);
        assert(seq![token] + others =~= tokens);
    }
}

/// How the text of a token that can be spelt begins: a word with a letter,
/// a number with a digit, and everything else with a character that is
/// neither alphanumeric nor a dot.
pub proof fn lemma_first_char(token: TokenView)
    requires
        writable(token),
    ensures
        token_text(token).len() > 0,
        token_text(token)[0] != '.',
        !(token is Bool || token is Null || token is Number) ==> !alphanumeric_char(
            token_text(token)[0],
        ),
        !(token is Number) ==> !numeric_char(token_text(token)[0]),
{
    if let TokenView::Number(n) = token {
        lemma_decimal_is_plain(n);
    }
}

/// A token that is read from a text, white space aside, spans exactly the
/// characters that spell it, and what stands behind it does not run into it.
pub proof fn lemma_lex_spells(s: Seq<char>)
    requires
        s.len() > 0,
        lex(s) is Ok,
        !(lex(s)->Ok_0.token is WhiteSpace),
    ensures
        lex(s)->Ok_0.len <= s.len(),
        token_text(lex(s)->Ok_0.token) == s.take(lex(s)->Ok_0.len as int),
        lex(s)->Ok_0.token is Bool || lex(s)->Ok_0.token is Null ==> lex(s)->Ok_0.len == s.len()
            || !alphanumeric_char(s[lex(s)->Ok_0.len as int]),
        lex(s)->Ok_0.token is Number ==> lex(s)->Ok_0.len == s.len() || !numeric_char(
            s[lex(s)->Ok_0.len as int],
        ),
{
    let lexeme = lex(s)->Ok_0;
    let tail = s.skip(1);
    lemma_lex_len(s);
    match lexeme.token {
        TokenView::String(inner) => {
            lemma_run_len(tail, string_chars());
            assert(s[lexeme.len - 1] == tail[inner.len() as int]);
            assert(!string_chars()(tail[inner.len() as int]));
            assert(token_text(lexeme.token) =~= s.take(lexeme.len as int));
        },
        TokenView::Number(text) => {
            let whole = run_len(tail, digit_chars());
            lemma_run_len(tail, digit_chars());
            if number_len(tail) == whole {
                if whole < tail.len() {
                    assert(s[lexeme.len as int] == tail[whole as int]);
                }
            } else {
                let fraction = tail.skip(whole as int + 1);
                lemma_run_len(fraction, digit_chars());
                let more = run_len(fraction, digit_chars());
                if more < fraction.len() {
                    assert(s[lexeme.len as int] == fraction[more as int]);
                }
            }
        },
        TokenView::Bool(_) | TokenView::Null => {
            let more = run_len(tail, word_chars());
            lemma_run_len(tail, word_chars());
            if more < tail.len() {
                assert(s[lexeme.len as int] == tail[more as int]);
            }
        },
        _ => {
            assert(token_text(lexeme.token) =~= s.take(1));
        },
    }
}

/// Whatever scans is the text of its tokens, each of which can be spelt,
/// laid out with gaps that fit: the scanner accepts nothing else.
pub proof fn lemma_scanned_is_written(s: Seq<char>) -> (gaps: Seq<Seq<char>>)
    requires
        scan_text(s) is Ok,
    ensures
        layout_fits(scan_text(s)->Ok_0, gaps),
        written(scan_text(s)->Ok_0, gaps) == s,
    decreases s.len(),
{
    let tokens = scan_text(s)->Ok_0;
    if s.len() == 0 {
        let gaps = seq![Seq::<char>::empty()];
        assert(written(tokens, gaps) =~= s);
        gaps
    } else {
        let lexeme = lex(s)->Ok_0;
        lemma_lex_len(s);
        let rest = s.skip(lexeme.len as int);
        let others = scan_text(rest)->Ok_0;
        let other_gaps = lemma_scanned_is_written(rest);
        if lexeme.token is WhiteSpace {
            let gaps = other_gaps.update(0, seq![s[0]] + other_gaps[0]);
            assert(tokens =~= others);
            assert(gaps.skip(1) =~= other_gaps.skip(1));
            assert(is_blank(gaps[0])) by {
                assert(is_blank(other_gaps[0]));
                assert forall|i: int| 0 <= i < gaps[0].len() implies is_whitespace(
                    #[trigger] gaps[0][i],
                ) by {
                    if i > 0 {
                        assert(gaps[0][i] == other_gaps[0][i - 1]);
                    }
                }
            }
            assert(layout_fits(tokens, gaps)) by {
                assert forall|i: int| 0 <= i < gaps.len() implies is_blank(#[trigger] gaps[i]) by {
                    if i > 0 {
                        assert(gaps[i] == other_gaps[i]);
                    }
                }
                assert forall|i: int|
                    0 <= i < tokens.len() - 1 && needs_gap(
                        tokens[i],
                        tokens[i + 1],
                    ) implies (#[trigger] gaps[i + 1]).len() > 0 by {
                    assert(gaps[i + 1] == other_gaps[i + 1]);
                }
            }
            assert(s =~= seq![s[0]] + rest);
            assert(written(tokens, gaps) =~= seq![s[0]] + written(others, other_gaps));
            gaps
        } else {
            let token = lexeme.token;
            let gaps = seq![Seq::<char>::empty()] + other_gaps;
            lemma_lex_writable(s);
            lemma_lex_spells(s);
            assert(tokens =~= seq![token] + others);
            assert(tokens.skip(1) =~= others);
            assert(gaps.skip(1) =~= other_gaps);
            assert(s =~= s.take(lexeme.len as int) + rest);
            assert(written(tokens, gaps) =~= token_text(token) + written(others, other_gaps));
            assert(layout_fits(tokens, gaps)) by {
                assert forall|i: int| 0 <= i < gaps.len() implies is_blank(#[trigger] gaps[i]) by {
                    if i > 0 {
                        assert(gaps[i] == other_gaps[i - 1]);
                    }
                }
                assert forall|i: int| 0 <= i < tokens.len() implies writable(
                    #[trigger] tokens[i],
                ) by {
                    if i > 0 {
                        assert(tokens[i] == others[i - 1]);
                    }
                }
                assert forall|i: int|
                    0 <= i < tokens.len() - 1 && needs_gap(
                        tokens[i],
                        tokens[i + 1],
                    ) implies (#[trigger] gaps[i + 1]).len() > 0 by {
                    assert(gaps[i + 1] == other_gaps[i]);
                    assert(tokens[i + 1] == others[i]);
                    if i > 0 {
                        assert(tokens[i] == others[i - 1]);
                        assert(other_gaps[i - 1 + 1].len() > 0);
                    } else if other_gaps[0].len() == 0 {
                        lemma_first_char(others[0]);
                        lemma_starts_word(others[0]);
                        assert(rest[0] == token_text(others[0])[0]);
                        assert(s[lexeme.len as int] == rest[0]);
                    }
                }
            }
            gaps
        }
    }
}

/// The text of a word starts with an alphanumeric character, that of a
/// number in decimal form with a numeric one.
pub proof fn lemma_starts_word(token: TokenView)
    requires
        writable(token),
    ensures
        token is Bool || token is Null || token is Number ==> alphanumeric_char(
            token_text(token)[0],
        ),
        token is Number ==> numeric_char(token_text(token)[0]),
{
    if let TokenView::Number(n) = token {
        lemma_decimal_is_plain(n);
    }
}

} // verus!
