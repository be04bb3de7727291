//! Documents as they are written: the syntax tree of a JSON literal, the
//! tokens that spell it and the value it denotes, with the proofs that
//! parsing the tokens of a literal gives its value, that nothing else
//! parses, and that a document written as text reads back as its value.
use vstd::prelude::*;
use crate::errors::ErrorView;
use crate::grammar::{
    key_of, parse_array, parse_document, parse_element, parse_element_end, parse_member,
    parse_member_end, parse_object, parse_value, Parsed,
};
use crate::lexis::{scan_text, writable};
use crate::token::TokenView;
use crate::value::ValueView;
use crate::writing::{
    is_blank, layout_fits, lemma_scan_written, lemma_scanned_is_written, needs_gap, written,
};

verus! {

/// The syntax tree of a JSON literal.  An object lists its members in the
/// order in which they are written, and may name a key more than once.
pub enum Literal {
    Object(Seq<(Seq<char>, Literal)>),
    Array(Seq<Literal>),
    String(Seq<char>),
    Number(Seq<char>),
    Bool(bool),
    Null,
}

/// The tokens of one or more members, with a comma between neighbours.
pub open spec fn members_tokens(members: Seq<(Seq<char>, Literal)>) -> Seq<TokenView>
    decreases members, 0int,
{
    if members.len() == 0 {
        Seq::empty()
    } else {
        let member = seq![TokenView::String(members[0].0), TokenView::Colon]
            + members[0].1.tokens();
        if members.len() == 1 {
            member
        } else {
            member + seq![TokenView::Comma] + members_tokens(members.skip(1))
        }
    }
}

/// The tokens of one or more elements, with a comma between neighbours.
pub open spec fn elements_tokens(elements: Seq<Literal>) -> Seq<TokenView>
    decreases elements, 0int,
{
    if elements.len() == 0 {
        Seq::empty()
    } else if elements.len() == 1 {
        elements[0].tokens()
    } else {
        elements[0].tokens() + seq![TokenView::Comma] + elements_tokens(elements.skip(1))
    }
}

/// The map that members denote when they are added, in the order written,
/// to the map `seen`: a key written again overwrites.
pub open spec fn members_value(
    members: Seq<(Seq<char>, Literal)>,
    seen: Map<Seq<char>, ValueView>,
) -> Map<Seq<char>, ValueView>
    decreases members, 0int,
{
    if members.len() == 0 {
        seen
    } else {
        members_value(members.skip(1), seen.insert(members[0].0, members[0].1.value()))
    }
}

/// The values that elements denote, in the order written.
pub open spec fn elements_value(elements: Seq<Literal>) -> Seq<ValueView>
    decreases elements, 0int,
{
    if elements.len() == 0 {
        Seq::empty()
    } else {
        seq![elements[0].value()] + elements_value(elements.skip(1))
    }
}

impl Literal {
    /// The tokens that spell the literal.
    pub open spec fn tokens(self) -> Seq<TokenView>
        decreases self, 1int,
    {
        match self {
            Literal::Object(members) => seq![TokenView::ObjectStart] + members_tokens(members)
                + seq![TokenView::ObjectEnd],
            Literal::Array(elements) => seq![TokenView::ArrayStart] + elements_tokens(elements)
                + seq![TokenView::ArrayEnd],
            Literal::String(s) => seq![TokenView::String(s)],
            Literal::Number(n) => seq![TokenView::Number(n)],
            Literal::Bool(b) => seq![TokenView::Bool(b)],
            Literal::Null => seq![TokenView::Null],
        }
    }

    /// The value that the literal denotes: the same nesting, with each
    /// object as a map.
    pub open spec fn value(self) -> ValueView
        decreases self, 1int,
    {
        match self {
            Literal::Object(members) => ValueView::Object(members_value(members, Map::empty())),
            Literal::Array(elements) => ValueView::Array(elements_value(elements)),
            Literal::String(s) => ValueView::JString(s),
            Literal::Number(n) => ValueView::Number(n),
            Literal::Bool(b) => ValueView::Boolean(b),
            Literal::Null => ValueView::Null,
        }
    }

    /// A document is an object or an array.
    pub open spec fn is_document(self) -> bool {
        self is Object || self is Array
    }
}

/// Parsing the tokens of any literal as a value gives the value that the
/// literal denotes and leaves unread exactly what stands behind them.
pub proof fn lemma_parse_value_of_literal(literal: Literal, rest: Seq<TokenView>)
    ensures
        literal.tokens().len() > 0,
        parse_value(literal.tokens() + rest) == Ok::<Parsed, ErrorView>(
            Parsed { value: literal.value(), rest },
        ),
    decreases literal, 1int,
{
    let tokens = literal.tokens() + rest;
    match literal {
        Literal::Object(members) => {
            let body = members_tokens(members) + seq![TokenView::ObjectEnd] + rest;
            assert(tokens.skip(1) =~= body);
            if members.len() == 0 {
                assert(body.skip(1) =~= rest);
            } else {
                lemma_parse_members(members, Map::empty(), rest);
                assert(members_tokens(members)[0] is String);
                assert(body[0] is String);
            }
        },
        Literal::Array(elements) => {
            let body = elements_tokens(elements) + seq![TokenView::ArrayEnd] + rest;
            assert(tokens.skip(1) =~= body);
            if elements.len() == 0 {
                assert(body.skip(1) =~= rest);
            } else {
                lemma_parse_elements(elements, Seq::empty(), rest);
                lemma_first_token(elements[0]);
                assert(body[0] == elements[0].tokens()[0]);
                assert(Seq::<ValueView>::empty() + elements_value(elements) =~= elements_value(
                    elements,
                ));
            }
        },
        _ => {
            assert(tokens.skip(1) =~= rest);
        },
    }
}

/// No literal starts with a closing bracket, a comma or a colon.
pub proof fn lemma_first_token(literal: Literal)
    ensures
        literal.tokens().len() > 0,
        !(literal.tokens()[0] is ObjectEnd),
        !(literal.tokens()[0] is ArrayEnd),
        !(literal.tokens()[0] is Comma),
        !(literal.tokens()[0] is Colon),
        !(literal.tokens()[0] is WhiteSpace),
{
}

/// Parsing the tokens of one or more members, of the `}` behind them and of
/// anything else gives the object of what was `seen` and of these members.
pub proof fn lemma_parse_members(
    members: Seq<(Seq<char>, Literal)>,
    seen: Map<Seq<char>, ValueView>,
    rest: Seq<TokenView>,
)
    requires
        members.len() > 0,
    ensures
        parse_member(members_tokens(members) + seq![TokenView::ObjectEnd] + rest, seen) == Ok::<
            Parsed,
            ErrorView,
        >(Parsed { value: ValueView::Object(members_value(members, seen)), rest }),
    decreases members, 0int,
{
    let tokens = members_tokens(members) + seq![TokenView::ObjectEnd] + rest;
    let key = members[0].0;
    let literal = members[0].1;
    let others = members.skip(1);
    let behind = if others.len() == 0 {
        seq![TokenView::ObjectEnd] + rest
    } else {
        seq![TokenView::Comma] + members_tokens(others) + seq![TokenView::ObjectEnd] + rest
    };
    let now = seen.insert(key, literal.value());
    assert(tokens =~= seq![TokenView::String(key), TokenView::Colon] + literal.tokens() + behind);
    assert(tokens.skip(2) =~= literal.tokens() + behind);
    assert(tokens.skip(1)[0] is Colon);
    lemma_parse_value_of_literal(literal, behind);
    assert(parse_member(tokens, seen) == parse_member_end(behind, now));
    if others.len() == 0 {
        assert(behind.skip(1) =~= rest);
        assert(members_value(others, now) == now);
    } else {
        assert(behind.skip(1) =~= members_tokens(others) + seq![TokenView::ObjectEnd] + rest);
        lemma_parse_members(others, now, rest);
    }
}

/// Parsing the tokens of one or more elements, of the `]` behind them and of
/// anything else gives the array of what was `seen` and of these elements.
pub proof fn lemma_parse_elements(
    elements: Seq<Literal>,
    seen: Seq<ValueView>,
    rest: Seq<TokenView>,
)
    requires
        elements.len() > 0,
    ensures
        parse_element(elements_tokens(elements) + seq![TokenView::ArrayEnd] + rest, seen) == Ok::<
            Parsed,
            ErrorView,
        >(Parsed { value: ValueView::Array(seen + elements_value(elements)), rest }),
    decreases elements, 0int,
{
    let tokens = elements_tokens(elements) + seq![TokenView::ArrayEnd] + rest;
    let literal = elements[0];
    let others = elements.skip(1);
    let behind = if others.len() == 0 {
        seq![TokenView::ArrayEnd] + rest
    } else {
        seq![TokenView::Comma] + elements_tokens(others) + seq![TokenView::ArrayEnd] + rest
    };
    let now = seen.push(literal.value());
    assert(tokens =~= literal.tokens() + behind);
    lemma_parse_value_of_literal(literal, behind);
    assert(parse_element(tokens, seen) == parse_element_end(behind, now));
    if others.len() == 0 {
        assert(behind.skip(1) =~= rest);
        assert(elements_value(others) =~= Seq::empty());
        assert(seen + elements_value(elements) =~= now);
    } else {
        assert(behind.skip(1) =~= elements_tokens(others) + seq![TokenView::ArrayEnd] + rest);
        lemma_parse_elements(others, now, rest);
        assert(seen + elements_value(elements) =~= now + elements_value(others));
    }
}

/// Parsing the tokens of a document gives the value that it denotes, with
/// nothing left unread.
pub proof fn lemma_parse_document_of_literal(literal: Literal)
    requires
        literal.is_document(),
    ensures
        parse_document(literal.tokens()) == Ok::<Parsed, ErrorView>(
            Parsed { value: literal.value(), rest: Seq::empty() },
        ),
{
    lemma_parse_value_of_literal(literal, Seq::empty());
    assert(literal.tokens() + Seq::empty() =~= literal.tokens());
}

/// Whatever parses as a value is the tokens of a literal that denotes this
/// value, followed by what was left unread.
pub proof fn lemma_parsed_value_is_literal(tokens: Seq<TokenView>) -> (literal: Literal)
    requires
        parse_value(tokens) is Ok,
    ensures
        literal.tokens() + parse_value(tokens)->Ok_0.rest == tokens,
        literal.value() == parse_value(tokens)->Ok_0.value,
    decreases tokens.len(), 0int,
{
    let parsed = parse_value(tokens)->Ok_0;
    let literal = match tokens[0] {
        TokenView::String(s) => Literal::String(s),
        TokenView::Number(n) => Literal::Number(n),
        TokenView::Bool(b) => Literal::Bool(b),
        TokenView::Null => Literal::Null,
        TokenView::ObjectStart => Literal::Object(lemma_parsed_object_is_members(tokens.skip(1))),
        _ => Literal::Array(lemma_parsed_array_is_elements(tokens.skip(1))),
    };
    match literal {
        Literal::Object(members) => {
            assert(literal.tokens() + parsed.rest =~= seq![TokenView::ObjectStart] + (
            members_tokens(members) + seq![TokenView::ObjectEnd] + parsed.rest));
            assert(seq![TokenView::ObjectStart] + tokens.skip(1) =~= tokens);
        },
        Literal::Array(elements) => {
            assert(literal.tokens() + parsed.rest =~= seq![TokenView::ArrayStart] + (
            elements_tokens(elements) + seq![TokenView::ArrayEnd] + parsed.rest));
            assert(seq![TokenView::ArrayStart] + tokens.skip(1) =~= tokens);
            assert(Seq::<ValueView>::empty() + elements_value(elements) =~= elements_value(
                elements,
            ));
        },
        _ => {
            assert(literal.tokens() + parsed.rest =~= tokens);
        },
    }
    literal
}

/// Whatever parses as the rest of an object is the tokens of members,
/// possibly none, then `}`, then what was left unread.
pub proof fn lemma_parsed_object_is_members(tokens: Seq<TokenView>) -> (members: Seq<
    (Seq<char>, Literal),
>)
    requires
        parse_object(tokens) is Ok,
    ensures
        members_tokens(members) + seq![TokenView::ObjectEnd] + parse_object(tokens)->Ok_0.rest
            == tokens,
        parse_object(tokens)->Ok_0.value == ValueView::Object(
            members_value(members, Map::empty()),
        ),
    decreases tokens.len(), 2int,
{
    if tokens.len() > 0 && tokens[0] is ObjectEnd {
        let members = Seq::<(Seq<char>, Literal)>::empty();
        assert(members_tokens(members) + seq![TokenView::ObjectEnd] + tokens.skip(1) =~= tokens);
        members
    } else {
        lemma_parsed_member_is_members(tokens, Map::empty())
    }
}

/// Whatever parses as a member and what follows it is the tokens of one or
/// more members, then `}`, then what was left unread.
pub proof fn lemma_parsed_member_is_members(
    tokens: Seq<TokenView>,
    seen: Map<Seq<char>, ValueView>,
) -> (members: Seq<(Seq<char>, Literal)>)
    requires
        parse_member(tokens, seen) is Ok,
    ensures
        members.len() > 0,
        members_tokens(members) + seq![TokenView::ObjectEnd] + parse_member(
            tokens,
            seen,
        )->Ok_0.rest == tokens,
        parse_member(tokens, seen)->Ok_0.value == ValueView::Object(members_value(members, seen)),
    decreases tokens.len(), 1int,
{
    let rest = parse_member(tokens, seen)->Ok_0.rest;
    let key = key_of(tokens[0])->Ok_0;
    let parsed = parse_value(tokens.skip(2))->Ok_0;
    let literal = lemma_parsed_value_is_literal(tokens.skip(2));
    let now = seen.insert(key, parsed.value);
    let head = seq![TokenView::String(key), TokenView::Colon];
    let member = head + literal.tokens();
    assert(tokens =~= head + tokens.skip(2));
    assert(tokens =~= member + parsed.rest);
    if parsed.rest[0] is ObjectEnd {
        let members = seq![(key, literal)];
        assert(members.skip(1) =~= Seq::empty());
        assert(members_value(members.skip(1), now) == now);
        assert(parsed.rest =~= seq![TokenView::ObjectEnd] + rest);
        assert(members_tokens(members) + seq![TokenView::ObjectEnd] + rest =~= member + (
        seq![TokenView::ObjectEnd] + rest));
        members
    } else {
        let others = lemma_parsed_member_is_members(parsed.rest.skip(1), now);
        let members = seq![(key, literal)] + others;
        assert(members.skip(1) =~= others);
        assert(parsed.rest =~= seq![TokenView::Comma] + parsed.rest.skip(1));
        assert(members_tokens(members) + seq![TokenView::ObjectEnd] + rest =~= member + (
        seq![TokenView::Comma] + (members_tokens(others) + seq![TokenView::ObjectEnd] + rest)));
        members
    }
}

/// Whatever parses as the rest of an array is the tokens of elements,
/// possibly none, then `]`, then what was left unread.
pub proof fn lemma_parsed_array_is_elements(tokens: Seq<TokenView>) -> (elements: Seq<Literal>)
    requires
        parse_array(tokens) is Ok,
    ensures
        elements_tokens(elements) + seq![TokenView::ArrayEnd] + parse_array(tokens)->Ok_0.rest
            == tokens,
        parse_array(tokens)->Ok_0.value == ValueView::Array(elements_value(elements)),
    decreases tokens.len(), 2int,
{
    if tokens.len() > 0 && tokens[0] is ArrayEnd {
        let elements = Seq::<Literal>::empty();
        assert(elements_tokens(elements) + seq![TokenView::ArrayEnd] + tokens.skip(1) =~= tokens);
        elements
    } else {
        let elements = lemma_parsed_element_is_elements(tokens, Seq::empty());
        assert(Seq::<ValueView>::empty() + elements_value(elements) =~= elements_value(elements));
        elements
    }
}

/// Whatever parses as an element and what follows it is the tokens of one
/// or more elements, then `]`, then what was left unread.
pub proof fn lemma_parsed_element_is_elements(
    tokens: Seq<TokenView>,
    seen: Seq<ValueView>,
) -> (elements: Seq<Literal>)
    requires
        parse_element(tokens, seen) is Ok,
    ensures
        elements.len() > 0,
        elements_tokens(elements) + seq![TokenView::ArrayEnd] + parse_element(
            tokens,
            seen,
        )->Ok_0.rest == tokens,
        parse_element(tokens, seen)->Ok_0.value == ValueView::Array(
            seen + elements_value(elements),
        ),
    decreases tokens.len(), 1int,
{
    let rest = parse_element(tokens, seen)->Ok_0.rest;
    let parsed = parse_value(tokens)->Ok_0;
    let literal = lemma_parsed_value_is_literal(tokens);
    let now = seen.push(parsed.value);
    if parsed.rest[0] is ArrayEnd {
        let elements = seq![literal];
        assert(elements.skip(1) =~= Seq::empty());
        assert(elements_value(elements.skip(1)) =~= Seq::empty());
        assert(seen + elements_value(elements) =~= now);
        assert(parsed.rest =~= seq![TokenView::ArrayEnd] + rest);
        assert(elements_tokens(elements) + seq![TokenView::ArrayEnd] + rest =~= literal.tokens()
            + (seq![TokenView::ArrayEnd] + rest));
        elements
    } else {
        let others = lemma_parsed_element_is_elements(parsed.rest.skip(1), now);
        let elements = seq![literal] + others;
        assert(elements.skip(1) =~= others);
        assert(seen + elements_value(elements) =~= now + elements_value(others));
        assert(parsed.rest =~= seq![TokenView::Comma] + parsed.rest.skip(1));
        assert(elements_tokens(elements) + seq![TokenView::ArrayEnd] + rest =~= literal.tokens()
            + (seq![TokenView::Comma] + (elements_tokens(others) + seq![TokenView::ArrayEnd]
            + rest)));
        elements
    }
}

/// Whatever parses as a document is the tokens of a document literal that
/// denotes the value, followed by what was left unread: the parser accepts
/// nothing but the grammar.
pub proof fn lemma_parsed_document_is_literal(tokens: Seq<TokenView>) -> (literal: Literal)
    requires
        parse_document(tokens) is Ok,
    ensures
        literal.is_document(),
        literal.tokens() + parse_document(tokens)->Ok_0.rest == tokens,
        literal.value() == parse_document(tokens)->Ok_0.value,
{
    lemma_parsed_value_is_literal(tokens)
}

/// No two neighbours among `tokens` would run into one another.
pub open spec fn apart(tokens: Seq<TokenView>) -> bool {
    forall|i: int| 0 <= i < tokens.len() - 1 ==> !needs_gap(#[trigger] tokens[i], tokens[i + 1])
}

/// Two runs of tokens that are apart stay so when joined, where the tokens
/// that meet are.
pub proof fn lemma_apart_joined(front: Seq<TokenView>, back: Seq<TokenView>)
    requires
        apart(front),
        apart(back),
        front.len() > 0 && back.len() > 0 ==> !needs_gap(front.last(), back[0]),
    ensures
        apart(front + back),
{
    let joined = front + back;
    assert forall|i: int| 0 <= i < joined.len() - 1 implies !needs_gap(
        #[trigger] joined[i],
        joined[i + 1],
    ) by {
        if i + 1 < front.len() {
            assert(joined[i] == front[i] && joined[i + 1] == front[i + 1]);
        } else if i + 1 == front.len() {
            assert(joined[i] == front.last() && joined[i + 1] == back[0]);
        } else {
            assert(joined[i] == back[i - front.len()]);
            assert(joined[i + 1] == back[i - front.len() + 1]);
        }
    }
}

/// In the tokens of a literal no two neighbours would run into one another:
/// a word or a number is always followed by a comma or a closing bracket.
pub proof fn lemma_literal_apart(literal: Literal)
    ensures
        apart(literal.tokens()),
        literal.tokens().len() > 0,
    decreases literal, 1int,
{
    match literal {
        Literal::Object(members) => {
            let inner = members_tokens(members);
            lemma_members_apart(members);
            lemma_apart_joined(seq![TokenView::ObjectStart], inner);
            lemma_apart_joined(seq![TokenView::ObjectStart] + inner, seq![TokenView::ObjectEnd]);
        },
        Literal::Array(elements) => {
            let inner = elements_tokens(elements);
            lemma_elements_apart(elements);
            lemma_apart_joined(seq![TokenView::ArrayStart], inner);
            lemma_apart_joined(seq![TokenView::ArrayStart] + inner, seq![TokenView::ArrayEnd]);
        },
        _ => {},
    }
}

/// The tokens of members are apart.
pub proof fn lemma_members_apart(members: Seq<(Seq<char>, Literal)>)
    ensures
        apart(members_tokens(members)),
        members.len() > 0 ==> members_tokens(members).len() > 0 && members_tokens(members)[0]
            is String,
    decreases members, 0int,
{
    if members.len() > 0 {
        let head = seq![TokenView::String(members[0].0), TokenView::Colon];
        let member = head + members[0].1.tokens();
        lemma_literal_apart(members[0].1);
        lemma_apart_joined(head, members[0].1.tokens());
        if members.len() > 1 {
            lemma_members_apart(members.skip(1));
            lemma_apart_joined(member, seq![TokenView::Comma]);
            lemma_apart_joined(member + seq![TokenView::Comma], members_tokens(members.skip(1)));
        }
    }
}

/// The tokens of elements are apart.
pub proof fn lemma_elements_apart(elements: Seq<Literal>)
    ensures
        apart(elements_tokens(elements)),
    decreases elements, 0int,
{
    if elements.len() > 0 {
        let element = elements[0].tokens();
        lemma_literal_apart(elements[0]);
        if elements.len() > 1 {
            lemma_elements_apart(elements.skip(1));
            lemma_apart_joined(element, seq![TokenView::Comma]);
            lemma_apart_joined(element + seq![TokenView::Comma], elements_tokens(elements.skip(1)));
        }
    }
}

impl Literal {
    /// Every string in the literal, keys included, is free of double quotes
    /// and every number is in decimal form.
    pub open spec fn is_writable(self) -> bool {
        forall|i: int| 0 <= i < self.tokens().len() ==> writable(#[trigger] self.tokens()[i])
    }
}

/// Reading a document as it is written gives the value that it denotes:
/// for every object or array literal made of strings without double quotes,
/// numbers in decimal form, `true`, `false` and `null`, nested to any
/// depth, and for any white space before, between and behind its tokens,
/// scanning the text gives the literal's tokens, and parsing these gives
/// the literal's value and leaves no token unread.
pub proof fn lemma_read_written_document(literal: Literal, gaps: Seq<Seq<char>>)
    requires
        literal.is_document(),
        literal.is_writable(),
        gaps.len() == literal.tokens().len() + 1,
        forall|i: int| 0 <= i < gaps.len() ==> is_blank(#[trigger] gaps[i]),
    ensures
        scan_text(written(literal.tokens(), gaps)) == Ok::<Seq<TokenView>, ErrorView>(
            literal.tokens(),
        ),
        parse_document(literal.tokens()) == Ok::<Parsed, ErrorView>(
            Parsed { value: literal.value(), rest: Seq::empty() },
        ),
{
    lemma_literal_apart(literal);
    assert(layout_fits(literal.tokens(), gaps));
    lemma_scan_written(literal.tokens(), gaps);
    lemma_parse_document_of_literal(literal);
}

/// Nothing but documents is read: a text that scans and parses is the
/// tokens of a document literal, followed by the tokens left unread, laid
/// out with gaps that fit; and the value is the one that the literal
/// denotes.
pub proof fn lemma_read_is_written(s: Seq<char>) -> (found: (Literal, Seq<Seq<char>>))
    requires
        scan_text(s) is Ok,
        parse_document(scan_text(s)->Ok_0) is Ok,
    ensures
        found.0.is_document(),
        found.0.value() == parse_document(scan_text(s)->Ok_0)->Ok_0.value,
        found.0.tokens() + parse_document(scan_text(s)->Ok_0)->Ok_0.rest == scan_text(s)->Ok_0,
        layout_fits(scan_text(s)->Ok_0, found.1),
        written(scan_text(s)->Ok_0, found.1) == s,
{
    let literal = lemma_parsed_document_is_literal(scan_text(s)->Ok_0);
    let gaps = lemma_scanned_is_written(s);
    (literal, gaps)
}

} // verus!
