//! What the scanner recognises, stated on sequences of characters.
use vstd::prelude::*;
use crate::chars::{alphabetic_char, alphanumeric_char, is_ascii_digit, numeric_char};
use crate::errors::ErrorView;
use crate::token::TokenView;

verus! {

/// One recognised token and the number of characters it spans.
pub struct Lexeme {
    pub token: TokenView,
    pub len: nat,
}

/// The number of leading characters of `s` that belong to `class`.
pub open spec fn run_len(s: Seq<char>, class: spec_fn(char) -> bool) -> nat
    decreases s.len(),
{
    if s.len() == 0 || !class(s[0]) {
        0
    } else {
        1 + run_len(s.skip(1), class)
    }
}

/// The characters skipped between tokens.
pub open spec fn is_whitespace(c: char) -> bool {
    c == ' ' || c == '\t' || c == '\n' || c == '\r'
}

/// The class of characters that may stand inside a string.
pub open spec fn string_chars() -> spec_fn(char) -> bool {
    |c: char| c != '"'
}

/// The class of characters that continue an identifier.
pub open spec fn word_chars() -> spec_fn(char) -> bool {
    |c: char| alphanumeric_char(c)
}

/// The class of characters that continue a number.
pub open spec fn digit_chars() -> spec_fn(char) -> bool {
    |c: char| numeric_char(c)
}

/// The length of the longest front of `s` made of a run of numeric
/// characters and then, only where a dot is directly followed by a numeric
/// character, that dot and the run behind it.
pub open spec fn number_len(s: Seq<char>) -> nat {
    let whole = run_len(s, digit_chars());
    if whole + 1 < s.len() && s[whole as int] == '.' && numeric_char(s[whole as int + 1]) {
        whole + 1 + run_len(s.skip(whole as int + 1), digit_chars())
    } else {
        whole
    }
}

/// A number's text is accepted where it is written with the digits `0` to
/// `9` and dots alone.
pub open spec fn plain_digits(text: Seq<char>) -> bool {
    forall|i: int| 0 <= i < text.len() ==> is_ascii_digit(#[trigger] text[i]) || text[i] == '.'
}

/// `text` is `whole` digits `0` to `9`, at least one, and then either
/// nothing or a dot and at least one more such digit.
pub open spec fn splits_as_decimal(text: Seq<char>, whole: int) -> bool {
    &&& 1 <= whole <= text.len()
    &&& forall|i: int| 0 <= i < whole ==> is_ascii_digit(#[trigger] text[i])
    &&& whole == text.len() || {
        &&& whole + 1 < text.len()
        &&& text[whole] == '.'
        &&& forall|i: int| whole < i < text.len() ==> is_ascii_digit(#[trigger] text[i])
    }
}

/// The shape of an accepted number: one or more of the digits `0` to `9`,
/// optionally followed by a dot and one or more such digits.
pub open spec fn is_decimal_literal(text: Seq<char>) -> bool {
    exists|whole: int| splits_as_decimal(text, whole)
}

/// The string that starts at the opening quote `s[0]`: it ends at the next
/// double quote, whatever precedes it, and holds the characters in between
/// as they stand.
pub open spec fn lex_string(s: Seq<char>) -> Result<Lexeme, ErrorView> {
    let inner = run_len(s.skip(1), string_chars());
    if 1 + inner >= s.len() {
        Err(ErrorView::UnterminatedString)
    } else {
        Ok(Lexeme { token: TokenView::String(s.subrange(1, 1 + inner as int)), len: inner + 2 })
    }
}

/// The identifier that starts at `s[0]`: the longest run of alphanumeric
/// characters, which must spell `true`, `false` or `null`.
pub open spec fn lex_ident(s: Seq<char>) -> Result<Lexeme, ErrorView> {
    let len = 1 + run_len(s.skip(1), word_chars());
    let word = s.take(len as int);
    if word == seq!['t', 'r', 'u', 'e'] {
        Ok(Lexeme { token: TokenView::Bool(true), len })
    } else if word == seq!['f', 'a', 'l', 's', 'e'] {
        Ok(Lexeme { token: TokenView::Bool(false), len })
    } else if word == seq!['n', 'u', 'l', 'l'] {
        Ok(Lexeme { token: TokenView::Null, len })
    } else {
        Err(ErrorView::UnknowIdent(word))
    }
}

/// The number that starts at `s[0]`.
pub open spec fn lex_number(s: Seq<char>) -> Result<Lexeme, ErrorView> {
    let len = 1 + number_len(s.skip(1));
    let text = s.take(len as int);
    if plain_digits(text) {
        Ok(Lexeme { token: TokenView::Number(text), len })
    } else {
        Err(ErrorView::MalformedNumber(text))
    }
}

/// The token at the front of a non-empty `s`.
pub open spec fn lex(s: Seq<char>) -> Result<Lexeme, ErrorView>
    recommends
        s.len() > 0,
{
    let c = s[0];
    if c == '{' {
        Ok(Lexeme { token: TokenView::ObjectStart, len: 1 })
    } else if c == '}' {
        Ok(Lexeme { token: TokenView::ObjectEnd, len: 1 })
    } else if c == '[' {
        Ok(Lexeme { token: TokenView::ArrayStart, len: 1 })
    } else if c == ']' {
        Ok(Lexeme { token: TokenView::ArrayEnd, len: 1 })
    } else if c == ',' {
        Ok(Lexeme { token: TokenView::Comma, len: 1 })
    } else if c == ':' {
        Ok(Lexeme { token: TokenView::Colon, len: 1 })
    } else if c == '"' {
        lex_string(s)
    } else if is_whitespace(c) {
        Ok(Lexeme { token: TokenView::WhiteSpace, len: 1 })
    } else if alphabetic_char(c) {
        lex_ident(s)
    } else if numeric_char(c) {
        lex_number(s)
    } else {
        Err(ErrorView::UnsupportedChar(c))
    }
}

/// `tokens` in front of what `rest` gives, or the error of `rest`.
pub open spec fn prepend(tokens: Seq<TokenView>, rest: Result<Seq<TokenView>, ErrorView>) -> Result<
    Seq<TokenView>,
    ErrorView,
> {
    match rest {
        Ok(more) => Ok(tokens + more),
        Err(e) => Err(e),
    }
}

/// The tokens of a whole text, white space left out, or the first lexical
/// error in it.
pub open spec fn scan_text(s: Seq<char>) -> Result<Seq<TokenView>, ErrorView>
    decreases s.len(),
    via scan_text_decreases
{
    if s.len() == 0 {
        Ok(Seq::empty())
    } else {
        match lex(s) {
            Err(e) => Err(e),
            Ok(lexeme) => prepend(
                if lexeme.token is WhiteSpace {
                    Seq::empty()
                } else {
                    seq![lexeme.token]
                },
                scan_text(s.skip(lexeme.len as int)),
            ),
        }
    }
}

#[via_fn]
proof fn scan_text_decreases(s: Seq<char>) {
    if s.len() > 0 {
        lemma_lex_len(s);
    }
}

/// A run stays inside the sequence, holds only characters of the class, and
/// stops at the end or before a character outside the class.
pub proof fn lemma_run_len(s: Seq<char>, class: spec_fn(char) -> bool)
    ensures
        run_len(s, class) <= s.len(),
        forall|i: int| 0 <= i < run_len(s, class) ==> class(#[trigger] s[i]),
        run_len(s, class) < s.len() ==> !class(s[run_len(s, class) as int]),
    decreases s.len(),
{
    if s.len() == 0 || !class(s[0]) {
    } else {
        let tail = s.skip(1);
        lemma_run_len(tail, class);
        assert forall|i: int| 0 <= i < run_len(s, class) implies class(#[trigger] s[i]) by {
            if i > 0 {
                assert(s[i] == tail[i - 1]);
            }
        }
        if run_len(s, class) < s.len() {
            assert(s[run_len(s, class) as int] == tail[run_len(tail, class) as int]);
        }
    }
}

/// The run is the only length with the properties of `lemma_run_len`.
pub proof fn lemma_run_len_is(s: Seq<char>, class: spec_fn(char) -> bool, n: nat)
    requires
        n <= s.len(),
        forall|i: int| 0 <= i < n ==> class(#[trigger] s[i]),
        n < s.len() ==> !class(s[n as int]),
    ensures
        run_len(s, class) == n,
    decreases s.len(),
{
    if n == 0 {
    } else {
        let tail = s.skip(1);
        assert(class(s[0]));
        assert forall|i: int| 0 <= i < n - 1 implies class(#[trigger] tail[i]) by {
            assert(tail[i] == s[i + 1]);
        }
        if n - 1 < tail.len() {
            assert(tail[n - 1] == s[n as int]);
        }
        lemma_run_len_is(tail, class, (n - 1) as nat);
    }
}

/// A number's length stays inside the sequence.
pub proof fn lemma_number_len(s: Seq<char>)
    ensures
        number_len(s) <= s.len(),
{
    let whole = run_len(s, digit_chars());
    lemma_run_len(s, digit_chars());
    if whole + 1 < s.len() {
        lemma_run_len(s.skip(whole as int + 1), digit_chars());
    }
}

/// Every token spans at least one character and none beyond the end.
pub proof fn lemma_lex_len(s: Seq<char>)
    requires
        s.len() > 0,
    ensures
        lex(s) matches Ok(lexeme) ==> 1 <= lexeme.len <= s.len(),
{
    lemma_run_len(s.skip(1), string_chars());
    lemma_run_len(s.skip(1), word_chars());
    lemma_number_len(s.skip(1));
}

/// The tokens that a text can spell: a string without a double quote, a
/// number in decimal form, and everything else but white space.
pub open spec fn writable(token: TokenView) -> bool {
    match token {
        TokenView::String(s) => forall|i: int| 0 <= i < s.len() ==> s[i] != '"',
        TokenView::Number(n) => is_decimal_literal(n),
        TokenView::WhiteSpace => false,
        _ => true,
    }
}

/// Every token that is read from a text is white space or can be spelt.
pub proof fn lemma_lex_writable(s: Seq<char>)
    requires
        s.len() > 0,
    ensures
        lex(s) matches Ok(lexeme) ==> lexeme.token is WhiteSpace || writable(lexeme.token),
{
    if let Ok(lexeme) = lex(s) {
        match lexeme.token {
            TokenView::String(inner) => {
                let tail = s.skip(1);
                lemma_run_len(tail, string_chars());
                assert forall|i: int| 0 <= i < inner.len() implies inner[i] != '"' by {
                    assert(inner[i] == tail[i]);
                    assert(string_chars()(tail[i]));
                }
            },
            TokenView::Number(text) => {
                let tail = s.skip(1);
                let whole = run_len(tail, digit_chars());
                lemma_run_len(tail, digit_chars());
                lemma_number_len(tail);
                assert forall|i: int| 0 <= i < text.len() implies text[i] == s[i] by {}
                assert forall|i: int| 0 <= i < whole + 1 implies is_ascii_digit(
                    #[trigger] text[i],
                ) by {
                    if i > 0 {
                        assert(text[i] == tail[i - 1]);
                        assert(digit_chars()(tail[i - 1]));
                    }
                }
                if number_len(tail) != whole {
                    let fraction = tail.skip(whole as int + 1);
                    lemma_run_len(fraction, digit_chars());
                    assert(text[whole as int + 1] == tail[whole as int]);
                    assert forall|i: int| whole + 1 < i < text.len() implies is_ascii_digit(
                        #[trigger] text[i],
                    ) by {
                        assert(text[i] == fraction[i - whole - 2]);
                        assert(digit_chars()(fraction[i - whole - 2]));
                    }
                    assert(text[whole as int + 2] == fraction[0]);
                }
                assert(splits_as_decimal(text, whole as int + 1));
            },
            _ => {},
        }
    }
}

/// The tokens of a text hold no white space, its strings no double quote,
/// and its numbers are in decimal form.
pub proof fn lemma_scan_text_writable(s: Seq<char>)
    ensures
        scan_text(s) matches Ok(tokens) ==> forall|i: int|
            0 <= i < tokens.len() ==> writable(#[trigger] tokens[i]),
    decreases s.len(),
{
    if s.len() > 0 {
        if let Ok(lexeme) = lex(s) {
            lemma_lex_len(s);
            lemma_lex_writable(s);
            lemma_scan_text_writable(s.skip(lexeme.len as int));
        }
    }
}

} // verus!
