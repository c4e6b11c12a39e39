use json_parser::{display, parse, tokenize, JsonValue, LexError, ParseError, Token};

/// The token of a number, written as the shortest decimal text of `x`.
fn number_token(x: f64) -> Token {
    Token::NumberToken(format!("{}", x))
}

/// The value of a number, written as the shortest decimal text of `x`.
fn number(x: f64) -> JsonValue {
    JsonValue::Number(format!("{}", x))
}

fn text(s: &str) -> String {
    s.to_string()
}

// Lexer Tests

#[test]
fn test_tokenize_primitives() {
    let input = "true false null";
    let expected = vec![Token::True, Token::False, Token::Null];
    assert_eq!(tokenize(input).unwrap(), expected);
}

#[test]
fn test_tokenize_numbers() {
    let input = "0 42 -17 3.1415 -0.001";
    let expected = vec![
        number_token(0.0),
        number_token(42.0),
        number_token(-17.0),
        number_token(3.1415),
        number_token(-0.001),
    ];
    assert_eq!(tokenize(input).unwrap(), expected);
}

#[test]
fn test_tokenize_string_escapes() {
    let input = r#""hello\nworld" "tab\t" "quote\"" "slash\\" "unicode \u0041""#;
    let tokens = tokenize(input).unwrap();

    assert_eq!(tokens.len(), 5);
    assert_eq!(tokens[0], Token::StringToken("hello\nworld".to_string()));
    assert_eq!(tokens[1], Token::StringToken("tab\t".to_string()));
    assert_eq!(tokens[2], Token::StringToken("quote\"".to_string()));
    assert_eq!(tokens[3], Token::StringToken("slash\\".to_string()));
    assert_eq!(tokens[4], Token::StringToken("unicode A".to_string()));
}

#[test]
fn test_tokenize_structural_symbols() {
    let input = "{ } [ ] : ,";
    let expected = vec![
        Token::LeftBrace,
        Token::RightBrace,
        Token::LeftBracket,
        Token::RightBracket,
        Token::Colon,
        Token::Comma,
    ];
    assert_eq!(tokenize(input).unwrap(), expected);
}

#[test]
fn test_tokenize_lexer_errors() {
    // Unexpected character
    assert_eq!(tokenize("@"), Err(LexError::UnexpectedChar('@')));

    // Unterminated string
    assert_eq!(
        tokenize(r#""unclosed string"#),
        Err(LexError::UnterminatedString)
    );

    // Invalid escape sequence
    assert_eq!(
        tokenize(r#""bad escape \x""#),
        Err(LexError::InvalidEscape("\\x".to_string()))
    );

    // Incomplete keyword EOF
    assert_eq!(
        tokenize("tru"),
        Err(LexError::UnexpectedEOF("reading keyword 'true'".to_string()))
    );

    // Invalid Hex Digit in Unicode escape
    assert_eq!(tokenize(r#""\u000G""#), Err(LexError::InvalidHexDigit('G')));
}

// Parser Tests

#[test]
fn test_parse_primitives() {
    assert_eq!(parse(vec![Token::Null]).unwrap(), JsonValue::Null);
    assert_eq!(parse(vec![Token::True]).unwrap(), JsonValue::Bool(true));
    assert_eq!(parse(vec![Token::False]).unwrap(), JsonValue::Bool(false));
    assert_eq!(parse(vec![number_token(123.45)]).unwrap(), number(123.45));
    assert_eq!(
        parse(vec![Token::StringToken("test".to_string())]).unwrap(),
        JsonValue::Str("test".to_string())
    );
}

#[test]
fn test_parse_arrays() {
    // Empty array
    let tokens = vec![Token::LeftBracket, Token::RightBracket];
    assert_eq!(parse(tokens).unwrap(), JsonValue::Array(vec![]));

    // Mixed array
    let tokens = vec![
        Token::LeftBracket,
        number_token(1.0),
        Token::Comma,
        Token::StringToken("a".to_string()),
        Token::Comma,
        Token::True,
        Token::RightBracket,
    ];
    let expected = JsonValue::Array(vec![
        number(1.0),
        JsonValue::Str("a".to_string()),
        JsonValue::Bool(true),
    ]);
    assert_eq!(parse(tokens).unwrap(), expected);
}

#[test]
fn test_parse_objects() {
    // Empty object
    let tokens = vec![Token::LeftBrace, Token::RightBrace];
    assert_eq!(parse(tokens).unwrap(), JsonValue::Object(vec![]));

    // Object with values
    let tokens = vec![
        Token::LeftBrace,
        Token::StringToken("key".to_string()),
        Token::Colon,
        number_token(42.0),
        Token::RightBrace,
    ];
    let expected = JsonValue::Object(vec![("key".to_string(), number(42.0))]);
    assert_eq!(parse(tokens).unwrap(), expected);
}

#[test]
fn test_parse_errors() {
    // Trailing tokens
    let tokens = vec![number_token(1.0), number_token(2.0)];
    assert!(matches!(parse(tokens), Err(ParseError::UnexpectedToken(_))));

    // Non-string object key
    let tokens = vec![
        Token::LeftBrace,
        number_token(123.0),
        Token::Colon,
        Token::True,
        Token::RightBrace,
    ];
    assert!(matches!(parse(tokens), Err(ParseError::ExpectedToken { .. })));

    // Missing colon before EOF
    let tokens = vec![Token::LeftBrace, Token::StringToken("key".to_string())];
    assert_eq!(
        parse(tokens),
        Err(ParseError::ExpectedToken {
            expected: "colon".to_string(),
            found: "EOF".to_string(),
        })
    );
}

// Pretty Printing Tests

#[test]
fn test_display() {
    let ast = JsonValue::Object(vec![
        ("name".to_string(), JsonValue::Str("Alice".to_string())),
        (
            "skills".to_string(),
            JsonValue::Array(vec![
                JsonValue::Str("Rust".to_string()),
                JsonValue::Str("JSON".to_string()),
            ]),
        ),
        ("active".to_string(), JsonValue::Bool(true)),
    ]);

    let expected = r#"{"name": "Alice", "skills": ["Rust", "JSON"], "active": true}"#;
    assert_eq!(display(&ast), expected);
}

// End-to-End Pipeline Tests

#[test]
fn test_e2e_valid_json() {
    let input = r#"{
        "title": "Parser",
        "count": 10,
        "items": [1, false, null],
        "nested": { "ok": true }
    }"#;

    let tokens = tokenize(input).expect("Tokenization should succeed");
    let parsed = parse(tokens).expect("Parsing should succeed");

    assert_eq!(
        parsed,
        JsonValue::Object(vec![
            (text("title"), JsonValue::Str(text("Parser"))),
            (text("count"), number(10.0)),
            (
                text("items"),
                JsonValue::Array(vec![number(1.0), JsonValue::Bool(false), JsonValue::Null])
            ),
            (
                text("nested"),
                JsonValue::Object(vec![(text("ok"), JsonValue::Bool(true))])
            )
        ])
    );
}
