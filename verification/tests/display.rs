use json_parser::{display, parse, tokenize, JsonValue};

fn text(s: &str) -> String {
    s.to_string()
}

#[test]
fn display_literals() {
    assert_eq!(display(&JsonValue::Null), "null");
    assert_eq!(display(&JsonValue::Bool(false)), "false");
    assert_eq!(display(&JsonValue::Number(text("-1.50"))), "-1.50");
    assert_eq!(display(&JsonValue::Str(text("a b"))), "\"a b\"");
}

#[test]
fn display_empty_containers() {
    assert_eq!(display(&JsonValue::Array(vec![])), "[]");
    assert_eq!(display(&JsonValue::Object(vec![])), "{}");
}

#[test]
fn display_does_not_escape_strings() {
    assert_eq!(display(&JsonValue::Str(text("say \"hi\""))), "\"say \"hi\"\"");
}

#[test]
fn display_nested() {
    let value = JsonValue::Array(vec![
        JsonValue::Object(vec![(text("k"), JsonValue::Array(vec![JsonValue::Null]))]),
        JsonValue::Number(text("2")),
    ]);
    assert_eq!(display(&value), "[{\"k\": [null]}, 2]");
}

#[test]
fn printed_text_reads_back_as_the_value() {
    let value = JsonValue::Object(vec![
        (text("name"), JsonValue::Str(text("Alice"))),
        (text("tags"), JsonValue::Array(vec![JsonValue::Bool(true), JsonValue::Null])),
        (text("n"), JsonValue::Number(text("-0.5"))),
        (text("empty"), JsonValue::Object(vec![])),
    ]);
    let printed = display(&value);
    let back = parse(tokenize(&printed).unwrap()).unwrap();
    assert_eq!(back, value);
}

#[test]
fn text_read_and_printed() {
    let value = parse(tokenize("{ \"a\" : [ 1 , 2.5 ] }").unwrap()).unwrap();
    assert_eq!(display(&value), "{\"a\": [1, 2.5]}");
}
