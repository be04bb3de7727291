use json_parser::value::{find_member, insert_member};
use json_parser::{JsonValue, Token, TokenType};

fn number(text: &str) -> JsonValue {
    JsonValue::Number(text.to_string())
}

#[test]
fn insert_member_adds_a_new_key_at_the_end() {
    let mut members = vec![("a".to_string(), number("1"))];
    insert_member(&mut members, "b".to_string(), number("2"));
    assert_eq!(members.len(), 2);
    assert_eq!(members[0].0, "a");
    assert_eq!(members[1].0, "b");
    assert_eq!(members[1].1, number("2"));
}

#[test]
fn insert_member_overwrites_in_place() {
    let mut members = vec![
        ("a".to_string(), number("1")),
        ("b".to_string(), number("2")),
    ];
    insert_member(&mut members, "a".to_string(), JsonValue::Null);
    assert_eq!(members.len(), 2);
    assert_eq!(members[0].0, "a");
    assert_eq!(members[0].1, JsonValue::Null);
    assert_eq!(members[1].0, "b");
    assert_eq!(members[1].1, number("2"));
}

#[test]
fn find_member_gives_the_last_place() {
    let members = vec![
        ("a".to_string(), number("1")),
        ("b".to_string(), number("2")),
        ("a".to_string(), number("3")),
    ];
    assert_eq!(find_member(&members, &"a".to_string()), Some(2));
    assert_eq!(find_member(&members, &"b".to_string()), Some(1));
    assert_eq!(find_member(&members, &"c".to_string()), None);
    assert_eq!(find_member(&vec![], &"a".to_string()), None);
}

#[test]
fn token_as_text() {
    assert_eq!(Token::ObjectStart.to_string(), "{");
    assert_eq!(Token::ObjectEnd.to_string(), "}");
    assert_eq!(Token::ArrayStart.to_string(), "[");
    assert_eq!(Token::ArrayEnd.to_string(), "]");
    assert_eq!(Token::String("key".to_string()).to_string(), "key");
    assert_eq!(Token::Number("99.999".to_string()).to_string(), "99.999");
    assert_eq!(Token::Bool(true).to_string(), "true");
    assert_eq!(Token::Bool(false).to_string(), "false");
    assert_eq!(Token::Null.to_string(), "null");
    assert_eq!(Token::Comma.to_string(), ",");
    assert_eq!(Token::Colon.to_string(), ":");
    assert_eq!(Token::WhiteSpace.to_string(), " ");
}

#[test]
fn token_clone_is_equal() {
    let tokens = vec![
        Token::ObjectStart,
        Token::String("a".to_string()),
        Token::Number("1.5".to_string()),
        Token::Bool(true),
        Token::Null,
        Token::WhiteSpace,
    ];
    for token in &tokens {
        assert_eq!(&token.clone(), token);
    }
}

#[test]
fn value_clone_is_equal() {
    let value = JsonValue::Object(vec![
        ("a".to_string(), number("1")),
        (
            "b".to_string(),
            JsonValue::Array(vec![
                JsonValue::Boolean(true),
                JsonValue::Null,
                JsonValue::JString("x".to_string()),
                JsonValue::Object(vec![]),
            ]),
        ),
    ]);
    let copy = value.clone();
    assert_eq!(copy, value);
    match copy {
        JsonValue::Object(members) => {
            assert_eq!(members.len(), 2);
            assert_eq!(members[0].0, "a");
            assert_eq!(members[1].0, "b");
        }
        other => panic!("not an object: {:?}", other),
    }
}

#[test]
fn insert_member_overwrites_the_member_that_counts() {
    let mut members = vec![
        ("a".to_string(), number("1")),
        ("b".to_string(), number("2")),
        ("a".to_string(), number("3")),
    ];
    insert_member(&mut members, "a".to_string(), number("4"));
    assert_eq!(members.len(), 3);
    assert_eq!(members[0].1, number("1"));
    assert_eq!(members[2].1, number("4"));
    assert_eq!(
        JsonValue::Object(members),
        JsonValue::Object(vec![
            ("b".to_string(), number("2")),
            ("a".to_string(), number("4")),
        ])
    );
}

#[test]
fn category_names() {
    assert_eq!(TokenType::ObjectStart.name(), "{");
    assert_eq!(TokenType::ObjectEnd.name(), "}");
    assert_eq!(TokenType::ArrayStart.name(), "[");
    assert_eq!(TokenType::ArrayEnd.name(), "]");
    assert_eq!(TokenType::String.name(), "String");
    assert_eq!(TokenType::Number.name(), "Number");
    assert_eq!(TokenType::Bool.name(), "Bool");
    assert_eq!(TokenType::Comma.name(), ",");
    assert_eq!(TokenType::Colon.name(), ":");
}
