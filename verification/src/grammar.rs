//! What the parser accepts, stated on sequences of tokens.
//!
//! ```text
//! document := object | array
//! object   := '{' ( member (',' member)* )? '}'
//! member   := STRING ':' value
//! array    := '[' ( value (',' value)* )? ']'
//! value    := object | array | STRING | NUMBER | BOOL | NULL
//! ```
use vstd::prelude::*;
use crate::errors::ErrorView;
use crate::token::{TokenType, TokenView};
use crate::value::ValueView;

verus! {

/// A value read from the front of a run of tokens, and the tokens behind it.
pub struct Parsed {
    pub value: ValueView,
    pub rest: Seq<TokenView>,
}

/// What asking for a token of category `kind` gives when `found` is next:
/// the token itself where it is of that category, else an error that names
/// both.  The categories that no rule ever asks for are refused outright.
pub open spec fn expect_token(kind: TokenType, found: TokenView) -> Result<TokenView, ErrorView> {
    match kind {
        TokenType::ObjectStart | TokenType::ArrayStart | TokenType::Bool => Err(
            ErrorView::InvalidJson,
        ),
        _ => if found.kind() == Some(kind) {
            Ok(found)
        } else {
            Err(ErrorView::ExpectToken(kind, found))
        },
    }
}

/// What asking for a token of category `kind` gives at the front of
/// `tokens`; running out of tokens is a structural error.
pub open spec fn expect_next(kind: TokenType, tokens: Seq<TokenView>) -> Result<
    TokenView,
    ErrorView,
> {
    if tokens.len() == 0 {
        Err(ErrorView::InvalidJson)
    } else {
        expect_token(kind, tokens[0])
    }
}

/// The key that a token gives: only a string is one.
pub open spec fn key_of(token: TokenView) -> Result<Seq<char>, ErrorView> {
    match token {
        TokenView::String(key) => Ok(key),
        _ => Err(ErrorView::ExpectedString),
    }
}

/// `value := object | array | STRING | NUMBER | BOOL | NULL`
pub open spec fn parse_value(tokens: Seq<TokenView>) -> Result<Parsed, ErrorView>
    decreases tokens.len(), 0int,
{
    if tokens.len() == 0 {
        Err(ErrorView::InvalidJson)
    } else {
        let rest = tokens.skip(1);
        match tokens[0] {
            TokenView::String(s) => Ok(Parsed { value: ValueView::JString(s), rest }),
            TokenView::Number(n) => Ok(Parsed { value: ValueView::Number(n), rest }),
            TokenView::Bool(b) => Ok(Parsed { value: ValueView::Boolean(b), rest }),
            TokenView::Null => Ok(Parsed { value: ValueView::Null, rest }),
            TokenView::ObjectStart => parse_object(rest),
            TokenView::ArrayStart => parse_array(rest),
            _ => Err(ErrorView::InvalidJson),
        }
    }
}

/// The rest of an object whose `{` has been read: `}` at once, or members.
pub open spec fn parse_object(tokens: Seq<TokenView>) -> Result<Parsed, ErrorView>
    decreases tokens.len(), 2int,
{
    if tokens.len() > 0 && tokens[0] is ObjectEnd {
        Ok(Parsed { value: ValueView::Object(Map::empty()), rest: tokens.skip(1) })
    } else {
        parse_member(tokens, Map::empty())
    }
}

/// `member := STRING ':' value`, added to the members read so far; a key
/// read before is overwritten.  Then what may follow a member.
///
/// A value always spans at least one token (`lemma_parse_value_advances`);
/// the comparison of lengths says so where the definition needs it.
pub open spec fn parse_member(tokens: Seq<TokenView>, members: Map<Seq<char>, ValueView>) -> Result<
    Parsed,
    ErrorView,
>
    decreases tokens.len(), 1int,
{
    if tokens.len() == 0 {
        Err(ErrorView::InvalidJson)
    } else {
        match key_of(tokens[0]) {
            Err(e) => Err(e),
            Ok(key) => match expect_next(TokenType::Colon, tokens.skip(1)) {
                Err(e) => Err(e),
                Ok(_) => match parse_value(tokens.skip(2)) {
                    Err(e) => Err(e),
                    Ok(parsed) => if parsed.rest.len() < tokens.len() {
                        parse_member_end(parsed.rest, members.insert(key, parsed.value))
                    } else {
                        Err(ErrorView::InvalidJson)
                    },
                },
            },
        }
    }
}

/// What may follow a member: `}` ends the object, a comma asks for another
/// member.
pub open spec fn parse_member_end(
    tokens: Seq<TokenView>,
    members: Map<Seq<char>, ValueView>,
) -> Result<Parsed, ErrorView>
    decreases tokens.len(), 0int,
{
    if tokens.len() == 0 {
        Err(ErrorView::InvalidJson)
    } else if tokens[0] is ObjectEnd {
        Ok(Parsed { value: ValueView::Object(members), rest: tokens.skip(1) })
    } else {
        match expect_token(TokenType::Comma, tokens[0]) {
            Err(e) => Err(e),
            Ok(_) => parse_member(tokens.skip(1), members),
        }
    }
}

/// The rest of an array whose `[` has been read: `]` at once, or elements.
pub open spec fn parse_array(tokens: Seq<TokenView>) -> Result<Parsed, ErrorView>
    decreases tokens.len(), 2int,
{
    if tokens.len() > 0 && tokens[0] is ArrayEnd {
        Ok(Parsed { value: ValueView::Array(Seq::empty()), rest: tokens.skip(1) })
    } else {
        parse_element(tokens, Seq::empty())
    }
}

/// One value, appended to the elements read so far.  Then what may follow
/// an element.
pub open spec fn parse_element(tokens: Seq<TokenView>, elements: Seq<ValueView>) -> Result<
    Parsed,
    ErrorView,
>
    decreases tokens.len(), 1int,
{
    match parse_value(tokens) {
        Err(e) => Err(e),
        Ok(parsed) => if parsed.rest.len() < tokens.len() {
            parse_element_end(parsed.rest, elements.push(parsed.value))
        } else {
            Err(ErrorView::InvalidJson)
        },
    }
}

/// What may follow an element: `]` ends the array, a comma asks for another
/// element.
pub open spec fn parse_element_end(tokens: Seq<TokenView>, elements: Seq<ValueView>) -> Result<
    Parsed,
    ErrorView,
>
    decreases tokens.len(), 0int,
{
    if tokens.len() == 0 {
        Err(ErrorView::InvalidJson)
    } else if tokens[0] is ArrayEnd {
        Ok(Parsed { value: ValueView::Array(elements), rest: tokens.skip(1) })
    } else {
        match expect_token(TokenType::Comma, tokens[0]) {
            Err(e) => Err(e),
            Ok(_) => parse_element(tokens.skip(1), elements),
        }
    }
}

/// `document := object | array`: the first token must open one of the two.
/// Tokens behind the document are left unread.
pub open spec fn parse_document(tokens: Seq<TokenView>) -> Result<Parsed, ErrorView> {
    if tokens.len() == 0 {
        Err(ErrorView::InvalidJson)
    } else {
        match tokens[0] {
            TokenView::ObjectStart => parse_object(tokens.skip(1)),
            TokenView::ArrayStart => parse_array(tokens.skip(1)),
            _ => Err(ErrorView::InvalidJson),
        }
    }
}

/// A value spans at least one token: what is left unread behind it is
/// shorter than what was there.
pub proof fn lemma_parse_value_advances(tokens: Seq<TokenView>)
    ensures
        parse_value(tokens) matches Ok(parsed) ==> parsed.rest.len() < tokens.len(),
    decreases tokens.len(), 0int,
{
    if tokens.len() > 0 {
        match tokens[0] {
            TokenView::ObjectStart => lemma_parse_object_advances(tokens.skip(1)),
            TokenView::ArrayStart => lemma_parse_array_advances(tokens.skip(1)),
            _ => {},
        }
    }
}

/// The rest of an object spans at least its closing `}`.
pub proof fn lemma_parse_object_advances(tokens: Seq<TokenView>)
    ensures
        parse_object(tokens) matches Ok(parsed) ==> parsed.rest.len() < tokens.len(),
    decreases tokens.len(), 2int,
{
    if !(tokens.len() > 0 && tokens[0] is ObjectEnd) {
        lemma_parse_member_advances(tokens, Map::empty());
    }
}

/// A member and what follows it span at least one token.
pub proof fn lemma_parse_member_advances(tokens: Seq<TokenView>, members: Map<Seq<char>, ValueView>)
    ensures
        parse_member(tokens, members) matches Ok(parsed) ==> parsed.rest.len() < tokens.len(),
    decreases tokens.len(), 1int,
{
    if tokens.len() > 0 {
        if let Ok(key) = key_of(tokens[0]) {
            if expect_next(TokenType::Colon, tokens.skip(1)) is Ok {
                lemma_parse_value_advances(tokens.skip(2));
                if let Ok(parsed) = parse_value(tokens.skip(2)) {
                    lemma_parse_member_end_advances(
                        parsed.rest,
                        members.insert(key, parsed.value),
                    );
                }
            }
        }
    }
}

/// What follows a member spans at least one token.
pub proof fn lemma_parse_member_end_advances(
    tokens: Seq<TokenView>,
    members: Map<Seq<char>, ValueView>,
)
    ensures
        parse_member_end(tokens, members) matches Ok(parsed) ==> parsed.rest.len() < tokens.len(),
    decreases tokens.len(), 0int,
{
    if tokens.len() > 0 && !(tokens[0] is ObjectEnd) {
        if expect_token(TokenType::Comma, tokens[0]) is Ok {
            lemma_parse_member_advances(tokens.skip(1), members);
        }
    }
}

/// The rest of an array spans at least its closing `]`.
pub proof fn lemma_parse_array_advances(tokens: Seq<TokenView>)
    ensures
        parse_array(tokens) matches Ok(parsed) ==> parsed.rest.len() < tokens.len(),
    decreases tokens.len(), 2int,
{
    if !(tokens.len() > 0 && tokens[0] is ArrayEnd) {
        lemma_parse_element_advances(tokens, Seq::empty());
    }
}

/// An element and what follows it span at least one token.
pub proof fn lemma_parse_element_advances(tokens: Seq<TokenView>, elements: Seq<ValueView>)
    ensures
        parse_element(tokens, elements) matches Ok(parsed) ==> parsed.rest.len() < tokens.len(),
    decreases tokens.len(), 1int,
{
    lemma_parse_value_advances(tokens);
    if let Ok(parsed) = parse_value(tokens) {
        lemma_parse_element_end_advances(parsed.rest, elements.push(parsed.value));
    }
}

/// What follows an element spans at least one token.
pub proof fn lemma_parse_element_end_advances(tokens: Seq<TokenView>, elements: Seq<ValueView>)
    ensures
        parse_element_end(tokens, elements) matches Ok(parsed) ==> parsed.rest.len()
            < tokens.len(),
    decreases tokens.len(), 0int,
{
    if tokens.len() > 0 && !(tokens[0] is ArrayEnd) {
        if expect_token(TokenType::Comma, tokens[0]) is Ok {
            lemma_parse_element_advances(tokens.skip(1), elements);
        }
    }
}

/// A document spans at least one token.
pub proof fn lemma_parse_document_advances(tokens: Seq<TokenView>)
    ensures
        parse_document(tokens) matches Ok(parsed) ==> parsed.rest.len() < tokens.len(),
{
    if tokens.len() > 0 {
        lemma_parse_object_advances(tokens.skip(1));
        lemma_parse_array_advances(tokens.skip(1));
    }
}

} // verus!
