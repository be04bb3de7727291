//! What can go wrong while scanning or parsing.
use vstd::prelude::*;
use vstd::std_specs::cmp::PartialEqSpecImpl;
use crate::token::{Token, TokenType, TokenView};

verus! {

/// The first violation that stopped a scan or a parse.
#[derive(Debug)]
pub enum JsonError {
    /// A character that starts no token.
    UnsupportedChar(char),
    /// A string whose closing quote is missing.
    UnterminatedString,
    /// A structural violation: a document that starts with neither `{` nor
    /// `[`, a token that starts no value, or tokens that end too early.
    InvalidJson,
    /// A word other than `true`, `false` and `null`.
    UnknowIdent(String),
    /// An object key that is not a string.
    ExpectedString,
    /// A required token was missing: the category asked for and the token
    /// found in its place.
    ExpectToken(TokenType, Token),
    /// A number written with digits other than `0` to `9`.
    MalformedNumber(String),
    /// A character was asked for behind the end of the input.
    UnexpectedEndOfInput,
}

/// The mathematical value of a [`JsonError`].
pub enum ErrorView {
    UnsupportedChar(char),
    UnterminatedString,
    InvalidJson,
    UnknowIdent(Seq<char>),
    ExpectedString,
    ExpectToken(TokenType, TokenView),
    MalformedNumber(Seq<char>),
    UnexpectedEndOfInput,
}

impl View for JsonError {
    type V = ErrorView;

    open spec fn view(&self) -> ErrorView {
        match self {
            JsonError::UnsupportedChar(c) => ErrorView::UnsupportedChar(*c),
            JsonError::UnterminatedString => ErrorView::UnterminatedString,
            JsonError::InvalidJson => ErrorView::InvalidJson,
            JsonError::UnknowIdent(s) => ErrorView::UnknowIdent(s@),
            JsonError::ExpectedString => ErrorView::ExpectedString,
            JsonError::ExpectToken(expected, found) => ErrorView::ExpectToken(*expected, found@),
            JsonError::MalformedNumber(s) => ErrorView::MalformedNumber(s@),
            JsonError::UnexpectedEndOfInput => ErrorView::UnexpectedEndOfInput,
        }
    }
}

impl PartialEq for JsonError {
    fn eq(&self, other: &JsonError) -> (same: bool) {
        match (self, other) {
            (JsonError::UnsupportedChar(a), JsonError::UnsupportedChar(b)) => *a == *b,
            (JsonError::UnterminatedString, JsonError::UnterminatedString) => true,
            (JsonError::InvalidJson, JsonError::InvalidJson) => true,
            (JsonError::UnknowIdent(a), JsonError::UnknowIdent(b)) => *a == *b,
            (JsonError::ExpectedString, JsonError::ExpectedString) => true,
            (JsonError::ExpectToken(a, found_a), JsonError::ExpectToken(b, found_b)) => *a == *b
                && *found_a == *found_b,
            (JsonError::MalformedNumber(a), JsonError::MalformedNumber(b)) => *a == *b,
            (JsonError::UnexpectedEndOfInput, JsonError::UnexpectedEndOfInput) => true,
            _ => false,
        }
    }
}

impl PartialEqSpecImpl for JsonError {
    open spec fn obeys_eq_spec() -> bool {
        true
    }

    open spec fn eq_spec(&self, other: &JsonError) -> bool {
        self@ == other@
    }
}

} // verus!
