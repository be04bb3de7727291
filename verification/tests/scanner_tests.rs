use json_parser::errors::JsonError;
use json_parser::scanner::Scanner;
use json_parser::Token;

fn scan(text: &str) -> Result<Vec<Token>, JsonError> {
    let mut scanner = Scanner::new(text.to_string());
    scanner.scan()
}

#[test]
fn test_scan_bracket_and_object() {
    let tokens = scan(r#"{[]}"#).unwrap();
    println!("scaned tokens: {:?}", tokens);
    assert_eq!(
        vec![
            Token::ObjectStart,
            Token::ArrayStart,
            Token::ArrayEnd,
            Token::ObjectEnd,
        ],
        tokens
    );
}

#[test]
fn test_scan_string() {
    let tokens = scan(r#"{"key":"value"}"#).unwrap();
    println!("scaned tokens: {:?}", tokens);
    assert_eq!(
        vec![
            Token::ObjectStart,
            Token::String("key".to_string()),
            Token::Colon,
            Token::String("value".to_string()),
            Token::ObjectEnd,
        ],
        tokens
    );
}

#[test]
fn test_scan_number() {
    let tokens = scan(r#"{"key":99.999}"#).unwrap();
    println!("scaned tokens: {:?}", tokens);
    assert_eq!(
        vec![
            Token::ObjectStart,
            Token::String("key".to_string()),
            Token::Colon,
            Token::Number("99.999".to_string()),
            Token::ObjectEnd,
        ],
        tokens
    );
    match &tokens[3] {
        Token::Number(text) => assert_eq!(text.parse::<f64>().unwrap(), 99.999 as f64),
        other => panic!("not a number: {:?}", other),
    }
}

#[test]
fn test_scan_identifier() {
    let tokens = scan(r#"{"is_ok": true, "is_not_ok": false, "exists": null}"#).unwrap();
    println!("scaned tokens: {:?}", tokens);
    assert_eq!(
        vec![
            Token::ObjectStart,
            Token::String("is_ok".to_string()),
            Token::Colon,
            Token::Bool(true),
            Token::Comma,
            Token::String("is_not_ok".to_string()),
            Token::Colon,
            Token::Bool(false),
            Token::Comma,
            Token::String("exists".to_string()),
            Token::Colon,
            Token::Null,
            Token::ObjectEnd,
        ],
        tokens
    );
}

#[test]
fn white_space_is_left_out() {
    assert_eq!(
        scan(" {\t\"a\" :\r\n1 } ").unwrap(),
        vec![
            Token::ObjectStart,
            Token::String("a".to_string()),
            Token::Colon,
            Token::Number("1".to_string()),
            Token::ObjectEnd,
        ]
    );
    assert_eq!(scan("").unwrap(), vec![]);
    assert_eq!(scan(" \n\t\r").unwrap(), vec![]);
}

#[test]
fn unterminated_string_fails() {
    assert_eq!(scan(r#"{"key"#), Err(JsonError::UnterminatedString));
    assert_eq!(scan(r#"""#), Err(JsonError::UnterminatedString));
}

#[test]
fn string_ends_at_the_first_quote() {
    assert_eq!(
        scan(r#""a\" "#).unwrap(),
        vec![Token::String("a\\".to_string())]
    );
    assert_eq!(scan(r#""""#).unwrap(), vec![Token::String(String::new())]);
    assert_eq!(
        scan("\"{[ ,:]} 1 true\"").unwrap(),
        vec![Token::String("{[ ,:]} 1 true".to_string())]
    );
}

#[test]
fn unknown_identifier_fails() {
    assert_eq!(
        scan("[nul]"),
        Err(JsonError::UnknowIdent("nul".to_string()))
    );
    assert_eq!(
        scan("True "),
        Err(JsonError::UnknowIdent("True".to_string()))
    );
    assert_eq!(
        scan("true1,"),
        Err(JsonError::UnknowIdent("true1".to_string()))
    );
    assert_eq!(
        scan("\u{e9}t\u{e9} "),
        Err(JsonError::UnknowIdent("\u{e9}t\u{e9}".to_string()))
    );
}

#[test]
fn identifier_at_the_end_of_input() {
    assert_eq!(scan("true").unwrap(), vec![Token::Bool(true)]);
    assert_eq!(scan("false").unwrap(), vec![Token::Bool(false)]);
    assert_eq!(scan("null").unwrap(), vec![Token::Null]);
}

#[test]
fn unsupported_char_fails() {
    assert_eq!(scan("[-1]"), Err(JsonError::UnsupportedChar('-')));
    assert_eq!(scan("#"), Err(JsonError::UnsupportedChar('#')));
    assert_eq!(scan(".5"), Err(JsonError::UnsupportedChar('.')));
    assert_eq!(scan("{\u{1f49d}}"), Err(JsonError::UnsupportedChar('\u{1f49d}')));
}

#[test]
fn dot_needs_a_digit_behind_it() {
    assert_eq!(scan("1."), Err(JsonError::UnsupportedChar('.')));
    assert_eq!(scan("1.]"), Err(JsonError::UnsupportedChar('.')));
    assert_eq!(scan("1.2.3"), Err(JsonError::UnsupportedChar('.')));
    assert_eq!(
        scan("12.50").unwrap(),
        vec![Token::Number("12.50".to_string())]
    );
    assert_eq!(scan("7").unwrap(), vec![Token::Number("7".to_string())]);
}

#[test]
fn number_ends_where_the_digits_end() {
    assert_eq!(
        scan("1true").unwrap(),
        vec![Token::Number("1".to_string()), Token::Bool(true)]
    );
    assert_eq!(
        scan("12,3").unwrap(),
        vec![
            Token::Number("12".to_string()),
            Token::Comma,
            Token::Number("3".to_string())
        ]
    );
}

#[test]
fn digits_beyond_ascii_make_a_malformed_number() {
    assert_eq!(
        scan("\u{663}"),
        Err(JsonError::MalformedNumber("\u{663}".to_string()))
    );
    assert_eq!(
        scan("1\u{663}.5 "),
        Err(JsonError::MalformedNumber("1\u{663}.5".to_string()))
    );
    assert_eq!(
        scan("[\u{bd}]"),
        Err(JsonError::MalformedNumber("\u{bd}".to_string()))
    );
}

#[test]
fn scanning_twice_gives_equal_results() {
    let text = r#"{"a": [1, 2.5, true], "b": null}"#;
    assert_eq!(scan(text), scan(text));
    assert_eq!(scan("[nul]"), scan("[nul]"));
}

#[test]
fn a_scanner_that_has_scanned_is_at_the_end() {
    let mut scanner = Scanner::new("[1]".to_string());
    assert_eq!(scanner.scan().unwrap().len(), 3);
    assert_eq!(scanner.scan().unwrap(), vec![]);
}

#[test]
fn a_step_at_the_end_of_input_fails() {
    let mut scanner = Scanner::new(String::new());
    assert_eq!(scanner.scan_token(), Err(JsonError::UnexpectedEndOfInput));
    assert_eq!(scanner.scan_token(), Err(JsonError::UnexpectedEndOfInput));

    let mut scanner = Scanner::new("[]".to_string());
    assert_eq!(scanner.scan().unwrap().len(), 2);
    assert_eq!(scanner.scan_token(), Err(JsonError::UnexpectedEndOfInput));
    assert_eq!(scanner.scan().unwrap(), vec![]);
}

#[test]
fn steps_give_one_token_each_and_white_space_too() {
    let mut scanner = Scanner::new("[ 12.5\t\"a\"true,x".to_string());
    assert_eq!(scanner.scan_token(), Ok(Token::ArrayStart));
    assert_eq!(scanner.scan_token(), Ok(Token::WhiteSpace));
    assert_eq!(scanner.scan_token(), Ok(Token::Number("12.5".to_string())));
    assert_eq!(scanner.scan_token(), Ok(Token::WhiteSpace));
    assert_eq!(scanner.scan_token(), Ok(Token::String("a".to_string())));
    assert_eq!(scanner.scan_token(), Ok(Token::Bool(true)));
    assert_eq!(scanner.scan_token(), Ok(Token::Comma));
    assert_eq!(
        scanner.scan_token(),
        Err(JsonError::UnknowIdent("x".to_string()))
    );
    assert_eq!(scanner.scan_token(), Err(JsonError::UnexpectedEndOfInput));
}
