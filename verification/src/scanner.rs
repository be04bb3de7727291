//! The scanner: from characters to tokens.
use vstd::prelude::*;
use crate::chars::{alphanumeric_char, is_ascii_digit, numeric_char};
use crate::errors::{ErrorView, JsonError};
use crate::lexis::{
    digit_chars, lemma_lex_len, lemma_run_len_is, lemma_scan_text_writable, lex, lex_ident,
    lex_number, lex_string, number_len, plain_digits, prepend, run_len, scan_text,
    string_chars, word_chars, writable, Lexeme,
};
use crate::token::{token_views, Token, TokenView};

verus! {

/// A cursor over the characters of one input.
#[derive(Debug)]
pub struct Scanner {
    chars: Vec<char>,
    start: usize,
    current: usize,
}

/// The mathematical value of a [`Scanner`].
pub struct ScannerView {
    /// The whole input.
    pub chars: Seq<char>,
    /// Where the lexeme being recognised begins.
    pub start: nat,
    /// The next character to read.
    pub current: nat,
}

impl View for Scanner {
    type V = ScannerView;

    closed spec fn view(&self) -> ScannerView {
        ScannerView { chars: self.chars@, start: self.start as nat, current: self.current as nat }
    }
}

/// What a scanning step gave, against what the text holds: on success the
/// token and the number of characters passed, on failure the error.
pub open spec fn lexes_as(
    outcome: Result<Token, JsonError>,
    passed: int,
    expected: Result<Lexeme, ErrorView>,
) -> bool {
    match expected {
        Ok(lexeme) => outcome matches Ok(token) && token@ == lexeme.token && passed == lexeme.len,
        Err(e) => outcome matches Err(error) && error@ == e,
    }
}

/// The value of what a scan returns.
pub open spec fn scanned_view(outcome: Result<Vec<Token>, JsonError>) -> Result<
    Seq<TokenView>,
    ErrorView,
> {
    match outcome {
        Ok(tokens) => Ok(token_views(tokens@)),
        Err(error) => Err(error@),
    }
}

/// Scanning has no memory: two scans of the same text from the same place
/// give equal tokens, or equal errors.  `first_outcome` and `second_outcome`
/// stand for what `Scanner::scan` returned on `first` and on `second`.
pub proof fn lemma_scan_twice(
    first: Scanner,
    second: Scanner,
    first_outcome: Result<Vec<Token>, JsonError>,
    second_outcome: Result<Vec<Token>, JsonError>,
)
    requires
        first@.chars == second@.chars,
        first@.current == second@.current,
        scanned_view(first_outcome) == scan_text(first.unread()),
        scanned_view(second_outcome) == scan_text(second.unread()),
    ensures
        scanned_view(first_outcome) == scanned_view(second_outcome),
{
}

impl Scanner {
    /// The cursor invariant: `start <= current <= length`.
    pub open spec fn wf(&self) -> bool {
        self@.start <= self@.current <= self@.chars.len()
    }

    /// A scanner at the beginning of `input`.
    pub fn new(input: String) -> (scanner: Scanner)
        ensures
            scanner@ == (ScannerView { chars: input@, start: 0, current: 0 }),
            scanner.wf(),
    {
        broadcast use vstd::string::axiom_spec_iter;

        let mut chars: Vec<char> = Vec::new();
        let text = input.as_str();
        for c in it: text.chars()
            invariant
                it.seq() == text@,
                chars@ == it.seq().take(it.index()),
        {
            chars.push(c);
        }
        assert(chars@ =~= input@);
        Scanner { chars, start: 0, current: 0 }
    }

    /// The text from the cursor on.
    pub open spec fn unread(&self) -> Seq<char> {
        self@.chars.skip(self@.current as int)
    }

    /// The text from the start of the current lexeme on.
    pub open spec fn from_start(&self) -> Seq<char> {
        self@.chars.skip(self@.start as int)
    }

    /// The same input and lexeme start as `before`.
    pub open spec fn continues(&self, before: &Scanner) -> bool {
        &&& self@.chars == before@.chars
        &&& self@.start == before@.start
    }

    /// Scans the text from the cursor to the end: all its tokens but white
    /// space, in order, or the first lexical error.
    pub fn scan(&mut self) -> (outcome: Result<Vec<Token>, JsonError>)
        requires
            old(self).wf(),
        ensures
            scanned_view(outcome) == scan_text(old(self).unread()),
            outcome matches Ok(tokens) ==> forall|i: int|
                0 <= i < tokens@.len() ==> writable((#[trigger] tokens@[i])@),
            final(self)@.chars == old(self)@.chars,
            final(self).wf(),
            outcome is Ok ==> final(self)@.current == final(self)@.chars.len(),
    {
        let mut tokens: Vec<Token> = Vec::new();
        let ghost whole = self.unread();
        assert(token_views(tokens@) =~= Seq::empty());
        assert(scan_text(whole) == prepend(token_views(tokens@), scan_text(self.unread()))) by {
            let r = scan_text(whole);
            assert(r matches Ok(ts) ==> Seq::<TokenView>::empty() + ts =~= ts);
        }
        while !self.is_end()
            invariant
                self.wf(),
                self@.chars == old(self)@.chars,
                whole == old(self).unread(),
                scan_text(whole) == prepend(token_views(tokens@), scan_text(self.unread())),
            decreases self@.chars.len() - self@.current,
        {
            let ghost rest = self.unread();
            let ghost seen = token_views(tokens@);
            let token = match self.scan_token() {
                Ok(token) => token,
                Err(error) => {
                    return Err(error);
                },
            };
            proof {
                let lexeme = lex(rest)->Ok_0;
                lemma_lex_len(rest);
                assert(rest.skip(lexeme.len as int) =~= self.unread());
            }
            if token == Token::WhiteSpace {
                proof {
                    let r = scan_text(self.unread());
                    assert(r matches Ok(ts) ==> Seq::<TokenView>::empty() + ts =~= ts);
                }
            } else {
                proof {
                    let r = scan_text(self.unread());
                    assert(token_views(tokens@.push(token)) =~= seen + seq![token@]);
                    assert(r matches Ok(ts) ==> seen + (seq![token@] + ts) =~= (seen + seq![token@])
                        + ts);
                }
                tokens.push(token);
            }
        }
        proof {
            assert(scan_text(self.unread()) == Ok::<Seq<TokenView>, ErrorView>(Seq::empty()));
            assert(token_views(tokens@) + Seq::<TokenView>::empty() =~= token_views(tokens@));
            lemma_scan_text_writable(whole);
            assert forall|i: int| 0 <= i < tokens@.len() implies writable(
                (#[trigger] tokens@[i])@,
            ) by {
                assert(token_views(tokens@)[i] == tokens@[i]@);
            }
        }
        Ok(tokens)
    }

    /// Scans one token at the cursor, where a new lexeme starts.  At the end
    /// of the input there is no character to read: the step fails and the
    /// cursor stays where it is.
    pub fn scan_token(&mut self) -> (outcome: Result<Token, JsonError>)
        requires
            old(self).wf(),
        ensures
            final(self)@.chars == old(self)@.chars,
            final(self)@.start == old(self)@.current,
            final(self).wf(),
            old(self)@.current >= old(self)@.chars.len() ==> (outcome matches Err(error) && error@
                == ErrorView::UnexpectedEndOfInput && final(self)@.current == old(self)@.current),
            old(self)@.current < old(self)@.chars.len() ==> lexes_as(
                outcome,
                final(self)@.current - old(self)@.current,
                lex(old(self).unread()),
            ),
    {
        self.start = self.current;
        let cur_ch = match self.advance() {
            Some(ch) => ch,
            None => {
                return Err(JsonError::UnexpectedEndOfInput);
            },
        };
        match cur_ch {
            '{' => Ok(Token::ObjectStart),
            '}' => Ok(Token::ObjectEnd),
            '[' => Ok(Token::ArrayStart),
            ']' => Ok(Token::ArrayEnd),
            ',' => Ok(Token::Comma),
            ':' => Ok(Token::Colon),
            '"' => self.scan_string(),
            ' ' | '\t' | '\n' | '\r' => Ok(Token::WhiteSpace),
            _ => {
                if cur_ch.is_alphabetic() {
                    return self.scan_ident();
                }
                if cur_ch.is_numeric() {
                    return self.scan_number();
                }
                Err(JsonError::UnsupportedChar(cur_ch))
            },
        }
    }

    /// Scans the rest of a string whose opening quote has just been read.
    fn scan_string(&mut self) -> (outcome: Result<Token, JsonError>)
        requires
            old(self).wf(),
            old(self)@.start + 1 == old(self)@.current,
        ensures
            final(self).continues(old(self)),
            final(self).wf(),
            lexes_as(
                outcome,
                final(self)@.current - old(self)@.start,
                lex_string(old(self).from_start()),
            ),
    {
        let mut next = self.peek();
        while next.is_some() && next.unwrap() != '"'
            invariant
                self.wf(),
                self.continues(old(self)),
                self@.start + 1 <= self@.current,
                next == self.peek_spec(),
                forall|i: int| self@.start + 1 <= i < self@.current ==> self@.chars[i] != '"',
            decreases self@.chars.len() - self@.current,
        {
            self.advance();
            next = self.peek();
        }
        proof {
            let inner = (self@.current - self@.start - 1) as nat;
            lemma_run_len_is(self.from_start().skip(1), string_chars(), inner);
        }
        if self.is_end() {
            return Err(JsonError::UnterminatedString);
        }
        self.advance();
        let text = self.lexeme(self.start + 1, self.current - 1);
        proof {
            assert(text@ =~= self.from_start().subrange(1, self@.current - self@.start - 1));
        }
        Ok(Token::String(text))
    }

    /// Scans the rest of a number whose first character has just been read.
    fn scan_number(&mut self) -> (outcome: Result<Token, JsonError>)
        requires
            old(self).wf(),
            old(self)@.start + 1 == old(self)@.current,
        ensures
            final(self).continues(old(self)),
            final(self).wf(),
            lexes_as(
                outcome,
                final(self)@.current - old(self)@.start,
                lex_number(old(self).from_start()),
            ),
    {
        proof {
            assert(self.from_start().skip(1) =~= self.unread());
        }
        self.peek_number();
        let text = self.lexeme(self.start, self.current);
        proof {
            assert(text@ =~= self.from_start().take(self@.current - self@.start));
        }
        if self.is_plain(self.start, self.current) {
            Ok(Token::Number(text))
        } else {
            Err(JsonError::MalformedNumber(text))
        }
    }

    /// Moves the cursor over a run of numeric characters and then, only
    /// where a dot is directly followed by a numeric character, over that
    /// dot and the run behind it.
    fn peek_number(&mut self)
        requires
            old(self).wf(),
        ensures
            final(self).continues(old(self)),
            final(self).wf(),
            final(self)@.current == old(self)@.current + number_len(old(self).unread()),
    {
        let ghost text = self.unread();
        self.skip_numeric();
        let ghost whole = (self@.current - old(self)@.current) as nat;
        match self.peek() {
            Some('.') => {},
            _ => {
                return ;
            },
        }
        match self.peek_next() {
            Some(v) => {
                if !v.is_numeric() {
                    return ;
                }
                self.advance();
                proof {
                    assert(text.skip(whole as int + 1) =~= self.unread());
                }
                self.skip_numeric();
            },
            None => {},
        }
    }

    /// Moves the cursor over a run of numeric characters.
    fn skip_numeric(&mut self)
        requires
            old(self).wf(),
        ensures
            final(self).continues(old(self)),
            final(self).wf(),
            final(self)@.current == old(self)@.current + run_len(
                old(self).unread(),
                digit_chars(),
            ),
    {
        let mut next = self.peek();
        while next.is_some() && next.unwrap().is_numeric()
            invariant
                self.wf(),
                self.continues(old(self)),
                old(self)@.current <= self@.current,
                next == self.peek_spec(),
                forall|i: int|
                    old(self)@.current <= i < self@.current ==> numeric_char(
                        self@.chars[i],
                    ),
            decreases self@.chars.len() - self@.current,
        {
            self.advance();
            next = self.peek();
        }
        proof {
            let n = (self@.current - old(self)@.current) as nat;
            assert forall|i: int| 0 <= i < n implies digit_chars()(
                #[trigger] old(self).unread()[i],
            ) by {
                assert(old(self).unread()[i] == self@.chars[old(self)@.current + i]);
            }
            lemma_run_len_is(old(self).unread(), digit_chars(), n);
        }
    }

    /// Scans the rest of an identifier whose first character has just been
    /// read.
    fn scan_ident(&mut self) -> (outcome: Result<Token, JsonError>)
        requires
            old(self).wf(),
            old(self)@.start + 1 == old(self)@.current,
        ensures
            final(self).continues(old(self)),
            final(self).wf(),
            lexes_as(
                outcome,
                final(self)@.current - old(self)@.start,
                lex_ident(old(self).from_start()),
            ),
    {
        let mut next = self.peek();
        while next.is_some() && next.unwrap().is_alphanumeric()
            invariant
                self.wf(),
                self.continues(old(self)),
                self@.start + 1 <= self@.current,
                next == self.peek_spec(),
                forall|i: int|
                    self@.start + 1 <= i < self@.current ==> alphanumeric_char(
                        self@.chars[i],
                    ),
            decreases self@.chars.len() - self@.current,
        {
            self.advance();
            next = self.peek();
        }
        proof {
            let n = (self@.current - self@.start - 1) as nat;
            let tail = self.from_start().skip(1);
            assert forall|i: int| 0 <= i < n implies word_chars()(#[trigger] tail[i]) by {
                assert(tail[i] == self@.chars[self@.start + 1 + i]);
            }
            lemma_run_len_is(tail, word_chars(), n);
            assert(self@.chars.subrange(self@.start as int, self@.current as int)
                =~= self.from_start().take(self@.current - self@.start));
            reveal_strlit("true");
            reveal_strlit("false");
            reveal_strlit("null");
            assert("true"@ =~= seq!['t', 'r', 'u', 'e']);
            assert("false"@ =~= seq!['f', 'a', 'l', 's', 'e']);
            assert("null"@ =~= seq!['n', 'u', 'l', 'l']);
        }
        if self.lexeme_is("true") {
            Ok(Token::Bool(true))
        } else if self.lexeme_is("false") {
            Ok(Token::Bool(false))
        } else if self.lexeme_is("null") {
            Ok(Token::Null)
        } else {
            Err(JsonError::UnknowIdent(self.lexeme(self.start, self.current)))
        }
    }

    /// Whether the characters from the lexeme's start to the cursor spell
    /// `word`.
    fn lexeme_is(&self, word: &str) -> (same: bool)
        requires
            self.wf(),
        ensures
            same == (self@.chars.subrange(self@.start as int, self@.current as int) == word@),
    {
        let n = word.unicode_len();
        if self.current - self.start != n {
            return false;
        }
        let ghost text = self@.chars.subrange(self@.start as int, self@.current as int);
        let mut i: usize = 0;
        while i < n
            invariant
                self.wf(),
                i <= n,
                n == word@.len(),
                n == self@.current - self@.start,
                text == self@.chars.subrange(self@.start as int, self@.current as int),
                forall|k: int| 0 <= k < i ==> text[k] == word@[k],
            decreases n - i,
        {
            if self.chars[self.start + i] != word.get_char(i) {
                assert(text[i as int] != word@[i as int]);
                return false;
            }
            i += 1;
        }
        assert(text =~= word@);
        true
    }

    /// Whether the characters from `from` up to `to` are digits `0` to `9`
    /// and dots alone.
    fn is_plain(&self, from: usize, to: usize) -> (plain: bool)
        requires
            from <= to <= self@.chars.len(),
        ensures
            plain == plain_digits(self@.chars.subrange(from as int, to as int)),
    {
        let ghost text = self@.chars.subrange(from as int, to as int);
        let mut i: usize = from;
        while i < to
            invariant
                from <= i <= to <= self@.chars.len(),
                text == self@.chars.subrange(from as int, to as int),
                forall|k: int|
                    0 <= k < i - from ==> is_ascii_digit(#[trigger] text[k])
                        || text[k] == '.',
            decreases to - i,
        {
            let c = self.chars[i];
            if !(('0' <= c && c <= '9') || c == '.') {
                assert(text[i - from] == c);
                return false;
            }
            i += 1;
        }
        true
    }

    /// The characters from `from` up to `to`, as a string.
    fn lexeme(&self, from: usize, to: usize) -> (text: String)
        requires
            from <= to <= self@.chars.len(),
        ensures
            text@ == self@.chars.subrange(from as int, to as int),
    {
        let mut text = String::new();
        let mut i: usize = from;
        while i < to
            invariant
                from <= i <= to <= self@.chars.len(),
                text@ == self@.chars.subrange(from as int, i as int),
            decreases to - i,
        {
            text.push(self.chars[i]);
            i += 1;
            assert(text@ =~= self@.chars.subrange(from as int, i as int));
        }
        text
    }

    /// The character under the cursor, if any.
    pub open spec fn peek_spec(&self) -> Option<char> {
        if self@.current < self@.chars.len() {
            Some(self@.chars[self@.current as int])
        } else {
            None
        }
    }

    /// Reads the character under the cursor and moves past it; at the end
    /// nothing is read and nothing moves.
    fn advance(&mut self) -> (read: Option<char>)
        ensures
            final(self).continues(old(self)),
            read == old(self).peek_spec(),
            final(self)@.current == old(self)@.current + if read is Some {
                1nat
            } else {
                0nat
            },
    {
        if self.is_end() {
            return None;
        }
        assert(self.current < self.chars.len());
        self.current += 1;
        Some(self.chars[self.current - 1])
    }

    /// The character under the cursor, if any.
    fn peek(&self) -> (next: Option<char>)
        ensures
            next == self.peek_spec(),
    {
        if self.is_end() {
            return None;
        }
        Some(self.chars[self.current])
    }

    /// The character behind the one under the cursor, if any.
    fn peek_next(&self) -> (next: Option<char>)
        ensures
            next == if self@.current + 1 < self@.chars.len() {
                Some(self@.chars[self@.current as int + 1])
            } else {
                None
            },
    {
        if self.is_end() {
            return None;
        }
        assert(self.current < self.chars.len());
        if self.current + 1 >= self.chars.len() {
            return None;
        }
        Some(self.chars[self.current + 1])
    }

    /// Whether the cursor has passed the last character.
    fn is_end(&self) -> (end: bool)
        ensures
            end == (self@.current >= self@.chars.len()),
    {
        self.current >= self.chars.len()
    }
}

} // verus!
