//! The lexical vocabulary: tokens and the categories a parser can ask for.
use vstd::prelude::*;
use vstd::std_specs::cmp::PartialEqSpecImpl;

verus! {

/// A lexical unit of JSON text.
///
/// A number keeps its decimal literal as written, so that no precision is
/// lost before a caller decides how to represent it.
#[derive(Debug)]
pub enum Token {
    /// `{`
    ObjectStart,
    /// `}`
    ObjectEnd,
    /// `[`
    ArrayStart,
    /// `]`
    ArrayEnd,
    /// The characters between two double quotes.
    String(String),
    /// The decimal literal of a number.
    Number(String),
    /// `true` or `false`
    Bool(bool),
    /// `,`
    Comma,
    /// `:`
    Colon,
    /// A space, tab, line feed or carriage return.
    WhiteSpace,
    /// `null`
    Null,
}

/// The mathematical value of a [`Token`].
pub enum TokenView {
    ObjectStart,
    ObjectEnd,
    ArrayStart,
    ArrayEnd,
    String(Seq<char>),
    Number(Seq<char>),
    Bool(bool),
    Comma,
    Colon,
    WhiteSpace,
    Null,
}

/// The category of token that a grammar rule asks for.
#[derive(Debug, Clone, Copy, PartialEq, Eq, Structural)]
pub enum TokenType {
    /// `{`
    ObjectStart,
    /// `}`
    ObjectEnd,
    /// `[`
    ArrayStart,
    /// `]`
    ArrayEnd,
    /// A quoted string.
    String,
    /// A number.
    Number,
    /// `true` or `false`
    Bool,
    /// `,`
    Comma,
    /// `:`
    Colon,
}

impl TokenType {
    /// The name under which a message speaks of the category: the mark
    /// itself for a mark, a word for the others.
    pub open spec fn named(&self) -> Seq<char> {
        match self {
            TokenType::ObjectStart => seq!['{'],
            TokenType::ObjectEnd => seq!['}'],
            TokenType::ArrayStart => seq!['['],
            TokenType::ArrayEnd => seq![']'],
            TokenType::String => seq!['S', 't', 'r', 'i', 'n', 'g'],
            TokenType::Number => seq!['N', 'u', 'm', 'b', 'e', 'r'],
            TokenType::Bool => seq!['B', 'o', 'o', 'l'],
            TokenType::Comma => seq![','],
            TokenType::Colon => seq![':'],
        }
    }

    /// The name of the category, for a message.
    pub fn name(&self) -> (text: String)
        ensures
            text@ == self.named(),
    {
        proof {
            reveal_strlit("{");
            reveal_strlit("}");
            reveal_strlit("[");
            reveal_strlit("]");
            reveal_strlit("String");
            reveal_strlit("Number");
            reveal_strlit("Bool");
            reveal_strlit(",");
            reveal_strlit(":");
        }
        let text = match self {
            TokenType::ObjectStart => "{".to_owned(),
            TokenType::ObjectEnd => "}".to_owned(),
            TokenType::ArrayStart => "[".to_owned(),
            TokenType::ArrayEnd => "]".to_owned(),
            TokenType::String => "String".to_owned(),
            TokenType::Number => "Number".to_owned(),
            TokenType::Bool => "Bool".to_owned(),
            TokenType::Comma => ",".to_owned(),
            TokenType::Colon => ":".to_owned(),
        };
        assert(text@ =~= self.named());
        text
    }
}

impl View for Token {
    type V = TokenView;

    open spec fn view(&self) -> TokenView {
        match self {
            Token::ObjectStart => TokenView::ObjectStart,
            Token::ObjectEnd => TokenView::ObjectEnd,
            Token::ArrayStart => TokenView::ArrayStart,
            Token::ArrayEnd => TokenView::ArrayEnd,
            Token::String(s) => TokenView::String(s@),
            Token::Number(s) => TokenView::Number(s@),
            Token::Bool(b) => TokenView::Bool(*b),
            Token::Comma => TokenView::Comma,
            Token::Colon => TokenView::Colon,
            Token::WhiteSpace => TokenView::WhiteSpace,
            Token::Null => TokenView::Null,
        }
    }
}

impl Clone for Token {
    fn clone(&self) -> (copy: Token)
        ensures
            copy@ == self@,
    {
        match self {
            Token::ObjectStart => Token::ObjectStart,
            Token::ObjectEnd => Token::ObjectEnd,
            Token::ArrayStart => Token::ArrayStart,
            Token::ArrayEnd => Token::ArrayEnd,
            Token::String(s) => Token::String(s.clone()),
            Token::Number(s) => Token::Number(s.clone()),
            Token::Bool(b) => Token::Bool(*b),
            Token::Comma => Token::Comma,
            Token::Colon => Token::Colon,
            Token::WhiteSpace => Token::WhiteSpace,
            Token::Null => Token::Null,
        }
    }
}

impl PartialEq for Token {
    fn eq(&self, other: &Token) -> (same: bool) {
        match (self, other) {
            (Token::ObjectStart, Token::ObjectStart) => true,
            (Token::ObjectEnd, Token::ObjectEnd) => true,
            (Token::ArrayStart, Token::ArrayStart) => true,
            (Token::ArrayEnd, Token::ArrayEnd) => true,
            (Token::String(a), Token::String(b)) => *a == *b,
            (Token::Number(a), Token::Number(b)) => *a == *b,
            (Token::Bool(a), Token::Bool(b)) => *a == *b,
            (Token::Comma, Token::Comma) => true,
            (Token::Colon, Token::Colon) => true,
            (Token::WhiteSpace, Token::WhiteSpace) => true,
            (Token::Null, Token::Null) => true,
            _ => false,
        }
    }
}

impl PartialEqSpecImpl for Token {
    open spec fn obeys_eq_spec() -> bool {
        true
    }

    open spec fn eq_spec(&self, other: &Token) -> bool {
        self@ == other@
    }
}

impl Token {
    /// The token as text: punctuation and words as they are written, a
    /// string as the characters between its quotes, a number as its decimal
    /// literal, white space as one space.
    pub fn to_string(&self) -> (text: String)
        ensures
            text@ == self@.shown(),
    {
        proof {
            reveal_strlit("{");
            reveal_strlit("}");
            reveal_strlit("[");
            reveal_strlit("]");
            reveal_strlit("true");
            reveal_strlit("false");
            reveal_strlit("null");
            reveal_strlit(",");
            reveal_strlit(":");
            reveal_strlit(" ");
        }
        let text = match self {
            Token::ObjectStart => "{".to_owned(),
            Token::ObjectEnd => "}".to_owned(),
            Token::ArrayStart => "[".to_owned(),
            Token::ArrayEnd => "]".to_owned(),
            Token::String(v) => v.clone(),
            Token::Number(v) => v.clone(),
            Token::Bool(v) => if *v {
                "true".to_owned()
            } else {
                "false".to_owned()
            },
            Token::Null => "null".to_owned(),
            Token::Comma => ",".to_owned(),
            Token::Colon => ":".to_owned(),
            Token::WhiteSpace => " ".to_owned(),
        };
        assert(text@ =~= self@.shown());
        text
    }
}

/// The values of a run of tokens, in order.
pub open spec fn token_views(tokens: Seq<Token>) -> Seq<TokenView> {
    Seq::new(tokens.len(), |i: int| tokens[i]@)
}

impl TokenView {
    /// The token as text, for a message.
    pub open spec fn shown(self) -> Seq<char> {
        match self {
            TokenView::ObjectStart => seq!['{'],
            TokenView::ObjectEnd => seq!['}'],
            TokenView::ArrayStart => seq!['['],
            TokenView::ArrayEnd => seq![']'],
            TokenView::String(s) => s,
            TokenView::Number(n) => n,
            TokenView::Bool(b) => if b {
                seq!['t', 'r', 'u', 'e']
            } else {
                seq!['f', 'a', 'l', 's', 'e']
            },
            TokenView::Null => seq!['n', 'u', 'l', 'l'],
            TokenView::Comma => seq![','],
            TokenView::Colon => seq![':'],
            TokenView::WhiteSpace => seq![' '],
        }
    }

    /// The category under which a parser can ask for this token, if any.
    pub open spec fn kind(self) -> Option<TokenType> {
        match self {
            TokenView::ObjectStart => Some(TokenType::ObjectStart),
            TokenView::ObjectEnd => Some(TokenType::ObjectEnd),
            TokenView::ArrayStart => Some(TokenType::ArrayStart),
            TokenView::ArrayEnd => Some(TokenType::ArrayEnd),
            TokenView::String(_) => Some(TokenType::String),
            TokenView::Number(_) => Some(TokenType::Number),
            TokenView::Bool(_) => Some(TokenType::Bool),
            TokenView::Comma => Some(TokenType::Comma),
            TokenView::Colon => Some(TokenType::Colon),
            TokenView::WhiteSpace => None,
            TokenView::Null => None,
        }
    }
}

} // verus!
