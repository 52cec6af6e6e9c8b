use json_stream_parser::{ends_with_odd_backslashes, parse_stream, JsonStreamParser, ParseError, Value};

fn literal(s: &str) -> Value {
    Value::String(s.to_string())
}

#[test]
fn odd_and_even_runs_of_backslashes() {
    assert!(!ends_with_odd_backslashes(""));
    assert!(!ends_with_odd_backslashes("abc"));
    assert!(ends_with_odd_backslashes("\\"));
    assert!(!ends_with_odd_backslashes("\\\\"));
    assert!(ends_with_odd_backslashes("\\\\\\"));
    assert!(ends_with_odd_backslashes("a\\"));
    assert!(!ends_with_odd_backslashes("a\\\\"));
    assert!(!ends_with_odd_backslashes("\\a"));
    assert!(ends_with_odd_backslashes("\\\\a\\"));
    assert!(ends_with_odd_backslashes("é\\"));
}

#[test]
fn escaped_quote_stays_in_the_string() {
    assert_eq!(parse_stream(r#""a\"b""#).unwrap(), literal("a\"b"));
}

#[test]
fn escaped_backslash_before_the_closing_quote() {
    assert_eq!(parse_stream(r#""a\\""#).unwrap(), literal("a\\"));
    assert_eq!(parse_stream(r#""a\\\"""#).unwrap(), literal("a\\\""));
}

#[test]
fn escapes_are_decoded_when_the_string_closes() {
    assert_eq!(parse_stream(r#""a\nb\tc""#).unwrap(), literal("a\nb\tc"));
    assert_eq!(parse_stream(r#""é""#).unwrap(), literal("é"));
    assert_eq!(parse_stream(r#""😀""#).unwrap(), literal("😀"));
    assert_eq!(parse_stream(r#""\/""#).unwrap(), literal("/"));
}

#[test]
fn open_string_shows_its_raw_text() {
    assert_eq!(parse_stream(r#""a\nb"#).unwrap(), literal("a\\nb"));
    assert_eq!(parse_stream(r#"["a\"b"#).unwrap(), Value::Array(vec![literal("a\\\"b")]));
    let mut parser = JsonStreamParser::new();
    for c in r#"{"k": "x\ty"#.chars() {
        parser.add_char(c).unwrap();
    }
    assert_eq!(
        parser.get_result(),
        &Value::Object(vec![("k".to_string(), literal("x\\ty"))])
    );
    parser.add_char('"').unwrap();
    assert_eq!(
        parser.get_result(),
        &Value::Object(vec![("k".to_string(), literal("x\ty"))])
    );
}

#[test]
fn escape_that_cannot_be_decoded() {
    assert_eq!(parse_stream(r#""\x""#), Err(ParseError::InvalidEscape));
    assert_eq!(parse_stream(r#""\u12""#), Err(ParseError::InvalidEscape));
    assert_eq!(parse_stream(r#"["\q"]"#), Err(ParseError::InvalidEscape));
    assert_eq!(parse_stream(r#"{"a": "\q"}"#), Err(ParseError::InvalidEscape));
    assert_eq!(parse_stream("\"a\nb\""), Err(ParseError::InvalidEscape));
}

#[test]
fn string_stays_as_it_was_after_an_escape_error() {
    let mut parser = JsonStreamParser::new();
    for c in r#"["\q"#.chars() {
        parser.add_char(c).unwrap();
    }
    assert_eq!(parser.add_char('"'), Err(ParseError::InvalidEscape));
    assert_eq!(parser.get_result(), &Value::Array(vec![literal("\\q")]));
}

#[test]
fn key_closes_on_an_unescaped_quote_and_is_decoded() {
    assert_eq!(
        parse_stream(r#"{"a\"b": 1}"#).unwrap(),
        Value::Object(vec![(
            "a\"b".to_string(),
            Value::Number(json_stream_parser::Number::PosInt(1))
        )])
    );
    assert_eq!(
        parse_stream(r#"{"tab\thereA\\": true}"#).unwrap(),
        Value::Object(vec![("tab\thereA\\".to_string(), Value::Bool(true))])
    );
}

#[test]
fn key_that_is_still_open_is_not_in_the_object() {
    assert_eq!(parse_stream(r#"{"a\"b"#).unwrap(), Value::Object(vec![]));
    assert_eq!(
        parse_stream(r#"{"a\"b""#).unwrap(),
        Value::Object(vec![("a\"b".to_string(), Value::Null)])
    );
}

#[test]
fn key_with_an_escape_that_cannot_be_decoded() {
    assert_eq!(parse_stream(r#"{"a\q": 1}"#), Err(ParseError::InvalidEscape));
    let mut parser = JsonStreamParser::new();
    for c in r#"{"x": 1, "a\q"#.chars() {
        parser.add_char(c).unwrap();
    }
    assert_eq!(parser.add_char('"'), Err(ParseError::InvalidEscape));
    assert_eq!(
        parser.get_result(),
        &Value::Object(vec![(
            "x".to_string(),
            Value::Number(json_stream_parser::Number::PosInt(1))
        )])
    );
}

#[test]
fn keys_that_decode_to_the_same_text_are_one_member() {
    assert_eq!(
        parse_stream(r#"{"A": 1, "\u0041": 2}"#).unwrap(),
        Value::Object(vec![(
            "A".to_string(),
            Value::Number(json_stream_parser::Number::PosInt(2))
        )])
    );
}

#[test]
fn text_beyond_ascii() {
    assert_eq!(parse_stream("\"héllo wörld ✓\"").unwrap(), literal("héllo wörld ✓"));
    assert_eq!(
        parse_stream("{\"ключ\": \"значение\"}").unwrap(),
        Value::Object(vec![("ключ".to_string(), literal("значение"))])
    );
}
