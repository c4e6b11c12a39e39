use json_parser::parser::token_description;
use json_parser::{parse, tokenize, JsonValue, ParseError, Parser, Token};

fn number(s: &str) -> JsonValue {
    JsonValue::Number(s.to_string())
}

fn unexpected(s: &str) -> ParseError {
    ParseError::UnexpectedToken(s.to_string())
}

fn expected(e: &str, f: &str) -> ParseError {
    ParseError::ExpectedToken { expected: e.to_string(), found: f.to_string() }
}

fn read(text: &str) -> Result<JsonValue, ParseError> {
    parse(tokenize(text).unwrap())
}

#[test]
fn parse_value_reads_one_value_at_a_time() {
    let mut parser = Parser::new(tokenize("[1] 2").unwrap());
    assert_eq!(parser.parse_value(), Ok(JsonValue::Array(vec![number("1")])));
    assert_eq!(parser.parse_value(), Ok(number("2")));
    assert_eq!(parser.parse_value(), Err(ParseError::UnexpectedEOF));
}

#[test]
fn parse_empty_input() {
    assert_eq!(parse(vec![]), Err(ParseError::UnexpectedEOF));
}

#[test]
fn parse_stray_punctuation() {
    assert_eq!(parse(vec![Token::RightBrace]), Err(unexpected("}")));
    assert_eq!(parse(vec![Token::RightBracket]), Err(unexpected("]")));
    assert_eq!(parse(vec![Token::Colon]), Err(unexpected(":")));
    assert_eq!(parse(vec![Token::Comma]), Err(unexpected(",")));
}

#[test]
fn parse_unclosed_containers() {
    assert_eq!(read("["), Err(ParseError::UnexpectedEOF));
    assert_eq!(read("{"), Err(ParseError::UnexpectedEOF));
    assert_eq!(read("[1"), Err(ParseError::UnexpectedEOF));
    assert_eq!(read("{\"a\":1"), Err(ParseError::UnexpectedEOF));
    assert_eq!(read("{\"a\":"), Err(ParseError::UnexpectedEOF));
}

#[test]
fn parse_missing_separators() {
    assert_eq!(read("[1 2]"), Err(unexpected("NumberToken(2)")));
    assert_eq!(read("{\"a\":1 \"b\":2}"), Err(unexpected("StringToken(\"b\")")));
    assert_eq!(read("{\"a\" 1}"), Err(expected(":", "NumberToken(1)")));
    assert_eq!(read("{\"a\" \"b\"}"), Err(expected(":", "StringToken(\"b\")")));
}

#[test]
fn parse_bad_keys() {
    assert_eq!(read("{1:2}"), Err(expected("String Key", "NumberToken(1)")));
    assert_eq!(read("{\"a\":1,}"), Err(expected("String Key", "RightBrace")));
    assert_eq!(read("{\"a\":1,"), Err(expected("object key", "EOF")));
}

#[test]
fn parse_trailing_tokens_message() {
    assert_eq!(
        read("1 2"),
        Err(unexpected("Trailing tokens found after valid JSON value: NumberToken(2)"))
    );
    assert_eq!(
        read("[] ]"),
        Err(unexpected("Trailing tokens found after valid JSON value: RightBracket"))
    );
}

#[test]
fn parse_keeps_member_order_and_repeated_keys() {
    assert_eq!(
        read("{\"b\":1,\"a\":2,\"b\":3}"),
        Ok(JsonValue::Object(vec![
            ("b".to_string(), number("1")),
            ("a".to_string(), number("2")),
            ("b".to_string(), number("3")),
        ]))
    );
}

#[test]
fn parse_nested() {
    assert_eq!(
        read("[[],{},[[null]]]"),
        Ok(JsonValue::Array(vec![
            JsonValue::Array(vec![]),
            JsonValue::Object(vec![]),
            JsonValue::Array(vec![JsonValue::Array(vec![JsonValue::Null])]),
        ]))
    );
}

#[test]
fn token_description_names_each_kind() {
    assert_eq!(token_description(&Token::LeftBrace), "LeftBrace");
    assert_eq!(token_description(&Token::Comma), "Comma");
    assert_eq!(token_description(&Token::Null), "Null");
    assert_eq!(token_description(&Token::NumberToken("-0.5".to_string())), "NumberToken(-0.5)");
    assert_eq!(
        token_description(&Token::StringToken("a\"b".to_string())),
        "StringToken(\"a\\\"b\")"
    );
}

#[test]
fn clone_copies_the_whole_tree() {
    let value = read("{\"a\":[1,{\"b\":null}],\"c\":\"d\"}").unwrap();
    let copy = value.clone();
    assert_eq!(copy, value);
}

#[test]
fn value_read_does_not_depend_on_later_tokens() {
    let mut alone = Parser::new(tokenize("{\"a\": [1]}").unwrap());
    let mut followed = Parser::new(tokenize("{\"a\": [1]} ] , null").unwrap());
    assert_eq!(alone.parse_value(), followed.parse_value());
    assert_eq!(
        read("{\"a\": [1]} ] , null"),
        Err(unexpected("Trailing tokens found after valid JSON value: RightBracket"))
    );
}
