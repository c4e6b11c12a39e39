use json_parser::{tokenize, LexError, Lexer, Token};

fn string_token(s: &str) -> Token {
    Token::StringToken(s.to_string())
}

fn number_text(s: &str) -> Token {
    Token::NumberToken(s.to_string())
}

#[test]
fn lexer_steps_through_bytes() {
    let mut lexer = Lexer::new("ab");
    assert_eq!(lexer.current(), Some(b'a'));
    lexer.advance();
    assert_eq!(lexer.current(), Some(b'b'));
    lexer.advance();
    assert_eq!(lexer.current(), None);
    lexer.advance();
    assert_eq!(lexer.current(), None);
}

#[test]
fn lexer_reads_utf8_bytes() {
    let mut lexer = Lexer::new("é");
    assert_eq!(lexer.current(), Some(0xC3));
    lexer.advance();
    assert_eq!(lexer.current(), Some(0xA9));
}

#[test]
fn read_keyword_consumes_the_keyword() {
    let mut lexer = Lexer::new("true,");
    assert_eq!(lexer.read_keyword("true"), Ok(()));
    assert_eq!(lexer.current(), Some(b','));
}

#[test]
fn read_keyword_stops_at_a_mismatch() {
    let mut lexer = Lexer::new("trux");
    assert_eq!(lexer.read_keyword("true"), Err(LexError::UnexpectedChar('x')));
    assert_eq!(lexer.current(), Some(b'x'));
}

#[test]
fn read_unicode_escape_reads_four_hex_digits() {
    let mut lexer = Lexer::new("00e9Z");
    assert_eq!(lexer.read_unicode_escape(), Ok(0xE9));
    assert_eq!(lexer.current(), Some(b'Z'));
    let mut upper = Lexer::new("ABCD");
    assert_eq!(upper.read_unicode_escape(), Ok(0xABCD));
}

#[test]
fn read_unicode_escape_errors() {
    let mut short = Lexer::new("00");
    assert_eq!(
        short.read_unicode_escape(),
        Err(LexError::UnexpectedEOF("Unterminated unicode escape".to_string()))
    );
    let mut bad = Lexer::new("0g00");
    assert_eq!(bad.read_unicode_escape(), Err(LexError::InvalidHexDigit('g')));
}

#[test]
fn read_string_from_the_opening_quote() {
    let mut lexer = Lexer::new("\"a\\/b\" rest");
    assert_eq!(lexer.read_string(), Ok("a/b".to_string()));
    assert_eq!(lexer.current(), Some(b' '));
}

#[test]
fn read_number_stops_at_the_first_other_byte() {
    let mut lexer = Lexer::new("-12.50,");
    assert_eq!(lexer.read_number(), Ok("-12.50".to_string()));
    assert_eq!(lexer.current(), Some(b','));
}

#[test]
fn tokenize_empty_and_blank() {
    assert_eq!(tokenize(""), Ok(vec![]));
    assert_eq!(tokenize(" \t\r\n "), Ok(vec![]));
}

#[test]
fn tokenize_number_forms() {
    assert_eq!(
        tokenize("1. -.5 007 -0"),
        Ok(vec![
            number_text("1."),
            number_text("-.5"),
            number_text("007"),
            number_text("-0"),
        ])
    );
}

#[test]
fn tokenize_number_then_exponent_letter() {
    assert_eq!(tokenize("1e5"), Err(LexError::UnexpectedChar('e')));
}

#[test]
fn tokenize_invalid_numbers() {
    assert_eq!(tokenize("-"), Err(LexError::InvalidNumber("-".to_string())));
    assert_eq!(tokenize("-."), Err(LexError::InvalidNumber("-.".to_string())));
    assert_eq!(tokenize("[-x]"), Err(LexError::InvalidNumber("-".to_string())));
}

#[test]
fn tokenize_all_escapes() {
    assert_eq!(
        tokenize(r#""\"\\\/\n\t\r\b\f""#),
        Ok(vec![string_token("\"\\/\n\t\r\u{8}\u{c}")])
    );
}

#[test]
fn tokenize_unicode_escapes() {
    assert_eq!(tokenize(r#""\u00e9\u20AC""#), Ok(vec![string_token("é€")]));
}

#[test]
fn tokenize_surrogate_escape() {
    assert_eq!(tokenize(r#""\uD800""#), Err(LexError::InvalidUnicode(0xD800)));
}

#[test]
fn tokenize_raw_bytes_become_characters_one_by_one() {
    assert_eq!(tokenize("\"é\""), Ok(vec![string_token("\u{c3}\u{a9}")]));
}

#[test]
fn tokenize_end_inside_escapes() {
    assert_eq!(
        tokenize("\"abc\\"),
        Err(LexError::UnexpectedEOF("Unterminated escape sequence".to_string()))
    );
    assert_eq!(
        tokenize("\"\\u00"),
        Err(LexError::UnexpectedEOF("Unterminated unicode escape".to_string()))
    );
}

#[test]
fn tokenize_keyword_errors() {
    assert_eq!(
        tokenize("nul"),
        Err(LexError::UnexpectedEOF("reading keyword 'null'".to_string()))
    );
    assert_eq!(
        tokenize("fals"),
        Err(LexError::UnexpectedEOF("reading keyword 'false'".to_string()))
    );
    assert_eq!(tokenize("nulL"), Err(LexError::UnexpectedChar('L')));
}

#[test]
fn tokenize_stops_at_the_first_error() {
    assert_eq!(tokenize("[1, @, \"x"), Err(LexError::UnexpectedChar('@')));
}

#[test]
fn tokenize_mixed() {
    assert_eq!(
        tokenize("{\"k\":[true,null]}"),
        Ok(vec![
            Token::LeftBrace,
            string_token("k"),
            Token::Colon,
            Token::LeftBracket,
            Token::True,
            Token::Comma,
            Token::Null,
            Token::RightBracket,
            Token::RightBrace,
        ])
    );
}

#[test]
fn tokenize_texts_joined_by_a_space() {
    let a = "{\"k\": -1.5}";
    let b = "[true, \"x y\"] 7";
    let mut joined = tokenize(a).unwrap();
    joined.extend(tokenize(b).unwrap());
    assert_eq!(tokenize(&format!("{} {}", a, b)), Ok(joined));
}
