use json_parser::errors::JsonError;
use json_parser::parser::Parser;
use json_parser::scanner::Scanner;
use json_parser::{JsonValue, Token, TokenType};

fn read(text: &str) -> Result<JsonValue, JsonError> {
    let mut json_scanner = Scanner::new(text.to_string());
    let tokens = json_scanner.scan()?;
    println!("tokens: {:?}", tokens);
    let mut parser = Parser::new(tokens);
    parser.parse()
}

fn string(text: &str) -> JsonValue {
    JsonValue::JString(text.to_string())
}

fn number(text: &str) -> JsonValue {
    JsonValue::Number(text.to_string())
}

fn as_f64(value: &JsonValue) -> f64 {
    match value {
        JsonValue::Number(text) => text.parse::<f64>().unwrap(),
        other => panic!("not a number: {:?}", other),
    }
}

#[test]
fn test_parse_object() {
    let json = r#"{"name": "Alex", "age": 28, "Loc": {"city":"New York"}}"#;
    let json_value = read(json).unwrap();

    let mut expect_object = Vec::new();
    expect_object.push(("name".to_string(), string("Alex")));
    expect_object.push(("age".to_string(), number("28")));
    expect_object.push((
        "Loc".to_string(),
        JsonValue::Object(vec![("city".to_string(), string("New York"))]),
    ));

    let expect_json_value = JsonValue::Object(expect_object);
    assert_eq!(expect_json_value, json_value);
    match &json_value {
        JsonValue::Object(members) => {
            assert_eq!(members.len(), 3);
            assert_eq!(as_f64(&members[1].1), 28 as f64);
        }
        other => panic!("not an object: {:?}", other),
    }
}

#[test]
fn test_parse_simple_array() {
    let json = r#"[1, 2, 3, "A", "Hello", "Good Night"]"#;
    let json_value = read(json).unwrap();
    assert_eq!(
        JsonValue::Array(vec![
            number("1"),
            number("2"),
            number("3"),
            string("A"),
            string("Hello"),
            string("Good Night"),
        ]),
        json_value
    );
    match &json_value {
        JsonValue::Array(elements) => {
            assert_eq!(elements.len(), 6);
            assert_eq!(as_f64(&elements[0]), 1 as f64);
            assert_eq!(as_f64(&elements[1]), 2 as f64);
            assert_eq!(as_f64(&elements[2]), 3 as f64);
        }
        other => panic!("not an array: {:?}", other),
    }
}

#[test]
fn test_parse_simple_object() {
    let json = r#"{"key1": "Test1", "key2": "Awesome"}"#;
    let json_value = read(json).unwrap();
    assert_eq!(
        JsonValue::Object(vec![
            ("key1".to_string(), string("Test1")),
            ("key2".to_string(), string("Awesome")),
        ]),
        json_value
    );
}

#[test]
fn test_parse_array() {
    let json = r#"{"city_list":[{"name":"A", "population": 1000}, {"name":"B", "population": 30000}]}"#;
    let json_value = read(json).unwrap();

    let mut expect_object = Vec::new();
    expect_object.push((
        "city_list".to_string(),
        JsonValue::Array(vec![
            JsonValue::Object(vec![
                ("name".to_string(), string("A")),
                ("population".to_string(), number("1000")),
            ]),
            JsonValue::Object(vec![
                ("name".to_string(), string("B")),
                ("population".to_string(), number("30000")),
            ]),
        ]),
    ));

    let expect_json_value = JsonValue::Object(expect_object);
    assert_eq!(expect_json_value, json_value);
}

#[test]
fn bare_scalar_is_no_document() {
    assert_eq!(read("42"), Err(JsonError::InvalidJson));
    assert_eq!(read(r#""text""#), Err(JsonError::InvalidJson));
    assert_eq!(read("true"), Err(JsonError::InvalidJson));
    assert_eq!(read("null"), Err(JsonError::InvalidJson));
    assert_eq!(read(""), Err(JsonError::InvalidJson));
    assert_eq!(read("}"), Err(JsonError::InvalidJson));
}

#[test]
fn missing_closing_brace_fails() {
    assert_eq!(read(r#"{"a":1"#), Err(JsonError::InvalidJson));
    assert_eq!(read(r#"{"#), Err(JsonError::InvalidJson));
    assert_eq!(read(r#"{"a""#), Err(JsonError::InvalidJson));
    assert_eq!(read(r#"{"a":"#), Err(JsonError::InvalidJson));
    assert_eq!(read(r#"{"a":1,"#), Err(JsonError::InvalidJson));
    assert_eq!(read(r#"[1"#), Err(JsonError::InvalidJson));
    assert_eq!(read(r#"["#), Err(JsonError::InvalidJson));
}

#[test]
fn trailing_comma_in_array_fails() {
    assert_eq!(read("[1,2,]"), Err(JsonError::InvalidJson));
    assert_eq!(read("[,]"), Err(JsonError::InvalidJson));
}

#[test]
fn trailing_comma_in_object_fails() {
    assert_eq!(read(r#"{"a":1,}"#), Err(JsonError::ExpectedString));
}

#[test]
fn key_must_be_a_string() {
    assert_eq!(read(r#"{1:2}"#), Err(JsonError::ExpectedString));
    assert_eq!(read(r#"{true:2}"#), Err(JsonError::ExpectedString));
    assert_eq!(read(r#"{[]:2}"#), Err(JsonError::ExpectedString));
}

#[test]
fn missing_colon_names_both_tokens() {
    assert_eq!(
        read(r#"{"a" 1}"#),
        Err(JsonError::ExpectToken(
            TokenType::Colon,
            Token::Number("1".to_string())
        ))
    );
    assert_eq!(
        read(r#"{"a"}"#),
        Err(JsonError::ExpectToken(TokenType::Colon, Token::ObjectEnd))
    );
}

#[test]
fn missing_comma_names_both_tokens() {
    assert_eq!(
        read(r#"[1 2]"#),
        Err(JsonError::ExpectToken(
            TokenType::Comma,
            Token::Number("2".to_string())
        ))
    );
    assert_eq!(
        read(r#"{"a":1 "b":2}"#),
        Err(JsonError::ExpectToken(
            TokenType::Comma,
            Token::String("b".to_string())
        ))
    );
    assert_eq!(
        read(r#"[1}"#),
        Err(JsonError::ExpectToken(TokenType::Comma, Token::ObjectEnd))
    );
}

#[test]
fn a_token_that_starts_no_value_fails() {
    assert_eq!(read(r#"[:]"#), Err(JsonError::InvalidJson));
    assert_eq!(read(r#"{"a":}"#), Err(JsonError::InvalidJson));
    assert_eq!(read(r#"{"a":,}"#), Err(JsonError::InvalidJson));
}

#[test]
fn empty_containers() {
    assert_eq!(read("{}"), Ok(JsonValue::Object(vec![])));
    assert_eq!(read("[]"), Ok(JsonValue::Array(vec![])));
    assert_eq!(
        read("[[],{}]"),
        Ok(JsonValue::Array(vec![
            JsonValue::Array(vec![]),
            JsonValue::Object(vec![])
        ]))
    );
}

#[test]
fn scalars_of_every_kind() {
    assert_eq!(
        read(r#"[true, false, null, 1.5, "x"]"#),
        Ok(JsonValue::Array(vec![
            JsonValue::Boolean(true),
            JsonValue::Boolean(false),
            JsonValue::Null,
            number("1.5"),
            string("x"),
        ]))
    );
}

#[test]
fn duplicate_key_overwrites_in_place() {
    assert_eq!(
        read(r#"{"a":1,"b":2,"a":3}"#),
        Ok(JsonValue::Object(vec![
            ("a".to_string(), number("3")),
            ("b".to_string(), number("2")),
        ]))
    );
}

#[test]
fn tokens_behind_the_document_stay_unread() {
    assert_eq!(read("[] 42"), Ok(JsonValue::Array(vec![])));
    assert_eq!(read("{}}"), Ok(JsonValue::Object(vec![])));
}

#[test]
fn parsing_twice_gives_equal_results() {
    let text = r#"{"a":[1,2,{"b":null}],"c":"d"}"#;
    assert_eq!(read(text), read(text));
    assert_eq!(read("[1,2,]"), read("[1,2,]"));
}

#[test]
fn parser_takes_tokens_written_by_hand() {
    let tokens = vec![
        Token::ArrayStart,
        Token::Bool(true),
        Token::Comma,
        Token::Null,
        Token::ArrayEnd,
    ];
    let mut parser = Parser::new(tokens);
    assert_eq!(
        parser.parse(),
        Ok(JsonValue::Array(vec![
            JsonValue::Boolean(true),
            JsonValue::Null
        ]))
    );
}

#[test]
fn objects_are_equal_whatever_their_order() {
    assert_eq!(
        read(r#"{"a":1,"b":[true,{"c":null,"d":"e"}]}"#),
        read(r#"{"b":[true,{"d":"e","c":null}],"a":1}"#)
    );
    assert_ne!(read(r#"{"a":1,"b":2}"#), read(r#"{"a":1}"#));
    assert_ne!(read(r#"{"a":1}"#), read(r#"{"a":1,"b":2}"#));
    assert_ne!(read(r#"{"a":1,"b":2}"#), read(r#"{"a":1,"b":3}"#));
    assert_ne!(read(r#"{"a":1,"b":2}"#), read(r#"{"a":1,"c":2}"#));
    assert_ne!(read(r#"[1,2]"#), read(r#"[2,1]"#));
    assert_ne!(read(r#"[1,2]"#), read(r#"[1]"#));
    assert_ne!(read(r#"[1]"#), read(r#"["1"]"#));
    assert_ne!(read(r#"[]"#), read(r#"{}"#));
    assert_ne!(read(r#"[true]"#), read(r#"[false]"#));
    assert_ne!(read(r#"[null]"#), read(r#"[false]"#));
}

#[test]
fn of_two_members_with_one_key_the_later_counts() {
    let twice = JsonValue::Object(vec![
        ("a".to_string(), number("1")),
        ("a".to_string(), number("2")),
    ]);
    let once = JsonValue::Object(vec![("a".to_string(), number("2"))]);
    let other = JsonValue::Object(vec![("a".to_string(), number("1"))]);
    assert!(twice.equals(&once));
    assert!(once.equals(&twice));
    assert!(!twice.equals(&other));
    assert!(!other.equals(&twice));
}

#[test]
fn a_document_reads_the_same_however_it_is_spaced() {
    let tight = r#"{"a":[1,2.50,{"b":null,"c":[]}],"d":true,"e":"f g","h":{}}"#;
    let loose = "\t{ \"a\" : [ 1 ,\r\n 2.50 , { \"b\" : null , \"c\" : [ ] } ] ,\n \"d\" : true , \"e\" : \"f g\" , \"h\" : { } }\n";
    let expected = JsonValue::Object(vec![
        (
            "a".to_string(),
            JsonValue::Array(vec![
                number("1"),
                number("2.50"),
                JsonValue::Object(vec![
                    ("b".to_string(), JsonValue::Null),
                    ("c".to_string(), JsonValue::Array(vec![])),
                ]),
            ]),
        ),
        ("d".to_string(), JsonValue::Boolean(true)),
        ("e".to_string(), string("f g")),
        ("h".to_string(), JsonValue::Object(vec![])),
    ]);
    assert_eq!(read(tight), Ok(expected.clone()));
    assert_eq!(read(loose), Ok(expected));
}

#[test]
fn numbers_outside_the_decimal_form_are_not_read() {
    assert_eq!(read("[-1]"), Err(JsonError::UnsupportedChar('-')));
    assert_eq!(
        read("[1e5]"),
        Err(JsonError::UnknowIdent("e5".to_string()))
    );
}
