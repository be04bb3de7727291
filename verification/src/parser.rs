//! The parser: from tokens to a value tree, by recursive descent with one
//! token of lookahead.
use vstd::prelude::*;
use crate::errors::{ErrorView, JsonError};
use crate::grammar::{
    expect_next, expect_token, key_of, parse_array, parse_document, parse_element,
    parse_element_end, parse_member, parse_member_end, parse_object, parse_value, Parsed,
};
use crate::token::{token_views, Token, TokenType, TokenView};
use crate::value::{
    distinct_keys, elements_view, insert_member, members_view, well_formed_members, JsonValue,
    ValueView,
};

verus! {

/// A cursor over the tokens of one input.
#[derive(Debug)]
pub struct Parser {
    tokens: Vec<Token>,
    current: usize,
}

/// The mathematical value of a [`Parser`].
pub struct ParserView {
    /// All the tokens.
    pub tokens: Seq<TokenView>,
    /// The next token to read.
    pub current: nat,
}

impl View for Parser {
    type V = ParserView;

    closed spec fn view(&self) -> ParserView {
        ParserView { tokens: token_views(self.tokens@), current: self.current as nat }
    }
}

/// What a parsing step gave, against what the tokens hold: on success the
/// value and the tokens left unread, on failure the error.
pub open spec fn parsed_as(
    outcome: Result<JsonValue, JsonError>,
    unread: Seq<TokenView>,
    expected: Result<Parsed, ErrorView>,
) -> bool {
    match expected {
        Ok(parsed) => outcome matches Ok(value) && value@ == parsed.value && value.well_formed()
            && unread == parsed.rest,
        Err(e) => outcome matches Err(error) && error@ == e,
    }
}

/// The value of what asking for a token returns.
pub open spec fn consumed_view(outcome: Result<Token, JsonError>) -> Result<TokenView, ErrorView> {
    match outcome {
        Ok(token) => Ok(token@),
        Err(error) => Err(error@),
    }
}

/// The value of what a parse returns.
pub open spec fn parsed_view(outcome: Result<JsonValue, JsonError>) -> Result<
    ValueView,
    ErrorView,
> {
    match outcome {
        Ok(value) => Ok(value@),
        Err(error) => Err(error@),
    }
}

/// Parsing has no memory: two parses of the same tokens from the same place
/// give equal values, or equal errors, and stop at the same place.
/// `first_outcome` and `second_outcome` stand for what `Parser::parse`
/// returned on `first` and on `second`, which it left as `first_after` and
/// `second_after`.
pub proof fn lemma_parse_twice(
    first: Parser,
    second: Parser,
    first_after: Parser,
    second_after: Parser,
    first_outcome: Result<JsonValue, JsonError>,
    second_outcome: Result<JsonValue, JsonError>,
)
    requires
        first@ == second@,
        first_after@.tokens == first@.tokens,
        second_after@.tokens == second@.tokens,
        first_after.wf(),
        second_after.wf(),
        parsed_as(first_outcome, first_after.unread(), parse_document(first.unread())),
        parsed_as(second_outcome, second_after.unread(), parse_document(second.unread())),
    ensures
        parsed_view(first_outcome) == parsed_view(second_outcome),
        first_outcome is Ok ==> first_after@ == second_after@,
{
    if first_outcome is Ok {
        assert(first_after.unread().len() == first@.tokens.len() - first_after@.current);
        assert(second_after.unread().len() == second@.tokens.len() - second_after@.current);
    }
}

impl Parser {
    /// The cursor invariant: `current <= length`.
    pub open spec fn wf(&self) -> bool {
        self@.current <= self@.tokens.len()
    }

    /// The tokens from the cursor on.
    pub open spec fn unread(&self) -> Seq<TokenView> {
        self@.tokens.skip(self@.current as int)
    }

    /// The token under the cursor, if any.
    pub open spec fn peek_spec(&self) -> Option<TokenView> {
        if self@.current < self@.tokens.len() {
            Some(self@.tokens[self@.current as int])
        } else {
            None
        }
    }

    /// A parser at the first of `tokens`.
    pub fn new(tokens: Vec<Token>) -> (parser: Parser)
        ensures
            parser@ == (ParserView { tokens: token_views(tokens@), current: 0 }),
            parser.wf(),
    {
        Parser { tokens: tokens, current: 0 }
    }

    /// Parses one document from the cursor on: an object or an array.
    pub fn parse(&mut self) -> (outcome: Result<JsonValue, JsonError>)
        requires
            old(self).wf(),
        ensures
            final(self)@.tokens == old(self)@.tokens,
            final(self).wf(),
            final(self)@.current >= old(self)@.current,
            parsed_as(outcome, final(self).unread(), parse_document(old(self).unread())),
    {
        proof {
            self.lemma_unread_step();
        }
        match self.advance() {
            Some(cur_tk) => match cur_tk {
                Token::ObjectStart => self.parse_object(),
                Token::ArrayStart => self.parse_array(),
                _ => Err(JsonError::InvalidJson),
            },
            None => Err(JsonError::InvalidJson),
        }
    }

    /// Parses the rest of an object whose `{` has just been read.
    fn parse_object(&mut self) -> (outcome: Result<JsonValue, JsonError>)
        requires
            old(self).wf(),
        ensures
            final(self)@.tokens == old(self)@.tokens,
            final(self).wf(),
            final(self)@.current >= old(self)@.current,
            parsed_as(outcome, final(self).unread(), parse_object(old(self).unread())),
        decreases old(self)@.tokens.len() - old(self)@.current, 1int,
    {
        let mut object: Vec<(String, JsonValue)> = Vec::new();
        let ghost whole = self.unread();
        proof {
            self.lemma_unread_step();
        }
        let mut at_end = match self.peek() {
            Some(tk) => *tk == Token::ObjectEnd,
            None => false,
        };
        assert(members_view(object@) =~= Map::empty());
        while !at_end
            invariant
                self.wf(),
                self@.tokens == old(self)@.tokens,
                self@.current >= old(self)@.current,
                whole == old(self).unread(),
                distinct_keys(object@),
                well_formed_members(object@),
                at_end ==> self.peek_spec() == Some(TokenView::ObjectEnd),
                parse_object(whole) == if at_end {
                    Ok::<Parsed, ErrorView>(
                        Parsed {
                            value: ValueView::Object(members_view(object@)),
                            rest: self.unread().skip(1),
                        },
                    )
                } else {
                    parse_member(self.unread(), members_view(object@))
                },
            decreases self@.tokens.len() - self@.current, at_end as int,
        {
            let ghost here = self.unread();
            let ghost members = members_view(object@);
            proof {
                self.lemma_unread_step();
            }
            let key = match self.advance() {
                Some(tk) => match Self::token_to_string(tk.clone()) {
                    Ok(key) => key,
                    Err(error) => {
                        return Err(error);
                    },
                },
                None => {
                    return Err(JsonError::InvalidJson);
                },
            };
            proof {
                self.lemma_unread_step();
                assert(self.unread() =~= here.skip(1));
            }
            match self.consume(TokenType::Colon) {
                Ok(_) => {},
                Err(error) => {
                    return Err(error);
                },
            }
            proof {
                assert(self.unread() =~= here.skip(2));
            }
            let value = match self.parse_value() {
                Ok(value) => value,
                Err(error) => {
                    return Err(error);
                },
            };
            insert_member(&mut object, key, value);
            let ghost after = self.unread();
            proof {
                self.lemma_unread_step();
                assert(parse_member(here, members) == parse_member_end(
                    after,
                    members_view(object@),
                ));
            }
            match self.peek() {
                Some(tk) => {
                    if *tk == Token::ObjectEnd {
                        at_end = true;
                    } else {
                        match self.consume(TokenType::Comma) {
                            Ok(_) => {},
                            Err(error) => {
                                return Err(error);
                            },
                        }
                        proof {
                            assert(self.unread() =~= after.skip(1));
                        }
                    }
                },
                None => {
                    return Err(JsonError::InvalidJson);
                },
            }
        }
        proof {
            self.lemma_unread_step();
        }
        match self.consume(TokenType::ObjectEnd) {
            Ok(_) => Ok(JsonValue::Object(object)),
            Err(error) => Err(error),
        }
    }

    /// The string of a key token.
    fn token_to_string(tk: Token) -> (outcome: Result<String, JsonError>)
        ensures
            match key_of(tk@) {
                Ok(key) => outcome matches Ok(text) && text@ == key,
                Err(e) => outcome matches Err(error) && error@ == e,
            },
    {
        match tk {
            Token::String(v) => Ok(v),
            _ => Err(JsonError::ExpectedString),
        }
    }

    /// Parses the rest of an array whose `[` has just been read.
    fn parse_array(&mut self) -> (outcome: Result<JsonValue, JsonError>)
        requires
            old(self).wf(),
        ensures
            final(self)@.tokens == old(self)@.tokens,
            final(self).wf(),
            final(self)@.current >= old(self)@.current,
            parsed_as(outcome, final(self).unread(), parse_array(old(self).unread())),
        decreases old(self)@.tokens.len() - old(self)@.current, 1int,
    {
        let mut array: Vec<JsonValue> = Vec::new();
        let ghost whole = self.unread();
        proof {
            self.lemma_unread_step();
        }
        let mut at_end = match self.peek() {
            Some(tk) => *tk == Token::ArrayEnd,
            None => false,
        };
        assert(elements_view(array@) =~= Seq::empty());
        while !at_end
            invariant
                self.wf(),
                self@.tokens == old(self)@.tokens,
                self@.current >= old(self)@.current,
                whole == old(self).unread(),
                forall|i: int| 0 <= i < array@.len() ==> (#[trigger] array@[i]).well_formed(),
                at_end ==> self.peek_spec() == Some(TokenView::ArrayEnd),
                parse_array(whole) == if at_end {
                    Ok::<Parsed, ErrorView>(
                        Parsed {
                            value: ValueView::Array(elements_view(array@)),
                            rest: self.unread().skip(1),
                        },
                    )
                } else {
                    parse_element(self.unread(), elements_view(array@))
                },
            decreases self@.tokens.len() - self@.current, at_end as int,
        {
            let ghost here = self.unread();
            let ghost elements = elements_view(array@);
            let value = match self.parse_value() {
                Ok(value) => value,
                Err(error) => {
                    return Err(error);
                },
            };
            proof {
                assert(array@.push(value).drop_last() =~= array@);
            }
            array.push(value);
            let ghost after = self.unread();
            proof {
                self.lemma_unread_step();
                assert(parse_element(here, elements) == parse_element_end(
                    after,
                    elements_view(array@),
                ));
            }
            match self.peek() {
                Some(tk) => {
                    if *tk == Token::ArrayEnd {
                        at_end = true;
                    } else {
                        match self.consume(TokenType::Comma) {
                            Ok(_) => {},
                            Err(error) => {
                                return Err(error);
                            },
                        }
                        proof {
                            assert(self.unread() =~= after.skip(1));
                        }
                    }
                },
                None => {
                    return Err(JsonError::InvalidJson);
                },
            }
        }
        proof {
            self.lemma_unread_step();
        }
        match self.consume(TokenType::ArrayEnd) {
            Ok(_) => Ok(JsonValue::Array(array)),
            Err(error) => Err(error),
        }
    }

    /// Parses one value: a scalar token stands for itself, `{` and `[` open
    /// an object and an array.
    fn parse_value(&mut self) -> (outcome: Result<JsonValue, JsonError>)
        requires
            old(self).wf(),
        ensures
            final(self)@.tokens == old(self)@.tokens,
            final(self).wf(),
            final(self)@.current >= old(self)@.current,
            outcome is Ok ==> final(self)@.current > old(self)@.current,
            parsed_as(outcome, final(self).unread(), parse_value(old(self).unread())),
        decreases old(self)@.tokens.len() - old(self)@.current, 0int,
    {
        proof {
            self.lemma_unread_step();
        }
        match self.advance() {
            Some(tk) => match tk {
                Token::String(v) => Ok(JsonValue::JString(v.clone())),
                Token::Number(v) => Ok(JsonValue::Number(v.clone())),
                Token::Bool(v) => Ok(JsonValue::Boolean(*v)),
                Token::Null => Ok(JsonValue::Null),
                Token::ObjectStart => self.parse_object(),
                Token::ArrayStart => self.parse_array(),
                _ => Err(JsonError::InvalidJson),
            },
            None => Err(JsonError::InvalidJson),
        }
    }

    /// Reads the next token, which must be of category `tk_type`.
    fn consume(&mut self, tk_type: TokenType) -> (outcome: Result<Token, JsonError>)
        requires
            old(self).wf(),
        ensures
            final(self)@.tokens == old(self)@.tokens,
            final(self).wf(),
            final(self)@.current == old(self)@.current + if old(self).peek_spec() is Some {
                1nat
            } else {
                0nat
            },
            consumed_view(outcome) == expect_next(tk_type, old(self).unread()),
    {
        proof {
            self.lemma_unread_step();
        }
        match self.advance() {
            Some(cur_tk) => match tk_type {
                TokenType::String => Self::consume_string(cur_tk),
                TokenType::Number => Self::consume_number(cur_tk),
                TokenType::ObjectEnd => Self::consume_object_end(cur_tk),
                TokenType::ArrayEnd => Self::consume_array_end(cur_tk),
                TokenType::Colon => Self::consume_colon(cur_tk),
                TokenType::Comma => Self::consume_comma(cur_tk),
                _ => Err(JsonError::InvalidJson),
            },
            None => Err(JsonError::InvalidJson),
        }
    }

    /// The token itself where it is a string, else an error that names both.
    fn consume_string(cur_tk: &Token) -> (outcome: Result<Token, JsonError>)
        ensures
            consumed_view(outcome) == expect_token(TokenType::String, cur_tk@),
    {
        if let Token::String(_) = cur_tk {
            Ok(cur_tk.clone())
        } else {
            Err(JsonError::ExpectToken(TokenType::String, cur_tk.clone()))
        }
    }

    /// The token itself where it is a number, else an error that names both.
    fn consume_number(cur_tk: &Token) -> (outcome: Result<Token, JsonError>)
        ensures
            consumed_view(outcome) == expect_token(TokenType::Number, cur_tk@),
    {
        if let Token::Number(_) = cur_tk {
            Ok(cur_tk.clone())
        } else {
            Err(JsonError::ExpectToken(TokenType::Number, cur_tk.clone()))
        }
    }

    /// The token itself where it is `}`, else an error that names both.
    fn consume_object_end(cur_tk: &Token) -> (outcome: Result<Token, JsonError>)
        ensures
            consumed_view(outcome) == expect_token(TokenType::ObjectEnd, cur_tk@),
    {
        if let Token::ObjectEnd = cur_tk {
            Ok(cur_tk.clone())
        } else {
            Err(JsonError::ExpectToken(TokenType::ObjectEnd, cur_tk.clone()))
        }
    }

    /// The token itself where it is `]`, else an error that names both.
    fn consume_array_end(cur_tk: &Token) -> (outcome: Result<Token, JsonError>)
        ensures
            consumed_view(outcome) == expect_token(TokenType::ArrayEnd, cur_tk@),
    {
        if let Token::ArrayEnd = cur_tk {
            Ok(cur_tk.clone())
        } else {
            Err(JsonError::ExpectToken(TokenType::ArrayEnd, cur_tk.clone()))
        }
    }

    /// The token itself where it is `:`, else an error that names both.
    fn consume_colon(cur_tk: &Token) -> (outcome: Result<Token, JsonError>)
        ensures
            consumed_view(outcome) == expect_token(TokenType::Colon, cur_tk@),
    {
        if let Token::Colon = cur_tk {
            Ok(cur_tk.clone())
        } else {
            Err(JsonError::ExpectToken(TokenType::Colon, cur_tk.clone()))
        }
    }

    /// The token itself where it is `,`, else an error that names both.
    fn consume_comma(cur_tk: &Token) -> (outcome: Result<Token, JsonError>)
        ensures
            consumed_view(outcome) == expect_token(TokenType::Comma, cur_tk@),
    {
        if let Token::Comma = cur_tk {
            Ok(cur_tk.clone())
        } else {
            Err(JsonError::ExpectToken(TokenType::Comma, cur_tk.clone()))
        }
    }

    /// Whether the cursor has passed the last token.
    fn is_end(&self) -> (end: bool)
        ensures
            end == (self@.current >= self@.tokens.len()),
    {
        self.current >= self.tokens.len()
    }

    /// The token under the cursor, if any.
    fn peek(&self) -> (next: Option<&Token>)
        ensures
            match next {
                Some(token) => self.peek_spec() == Some(token@),
                None => self.peek_spec() is None,
            },
    {
        if self.is_end() {
            return None;
        }
        Some(&self.tokens[self.current])
    }

    /// Reads the token under the cursor and moves past it; at the end
    /// nothing is read and nothing moves.
    fn advance(&mut self) -> (read: Option<&Token>)
        ensures
            final(self)@.tokens == old(self)@.tokens,
            match read {
                Some(token) => old(self).peek_spec() == Some(token@) && final(self)@.current
                    == old(self)@.current + 1,
                None => old(self).peek_spec() is None && final(self)@.current == old(self)@.current,
            },
    {
        if self.is_end() {
            return None;
        }
        assert(self.current < self.tokens.len());
        self.current += 1;
        Some(&self.tokens[self.current - 1])
    }

    /// The unread tokens are the one under the cursor and those behind it.
    proof fn lemma_unread_step(&self)
        requires
            self.wf(),
        ensures
            self.unread().len() == self@.tokens.len() - self@.current,
            self.peek_spec() matches Some(token) ==> self.unread().len() > 0 && self.unread()[0]
                == token && self.unread().skip(1) == self@.tokens.skip(self@.current as int + 1),
            self.peek_spec() is None ==> self.unread().len() == 0,
    {
        if self@.current < self@.tokens.len() {
            assert(self.unread().skip(1) =~= self@.tokens.skip(self@.current as int + 1));
        }
    }
}

} // verus!
