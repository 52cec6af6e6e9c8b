use json_stream_parser::{parse_stream, JsonStreamParser, ParseError, StateKind, Value};

fn refused(text: &str, character: char, state: StateKind) {
    assert_eq!(
        parse_stream(text),
        Err(ParseError::UnexpectedCharacter { character, state }),
        "{text:?}"
    );
}

#[test]
fn unexpected_character_names_the_character_and_the_state() {
    refused("x", 'x', StateKind::Ready);
    refused("}", '}', StateKind::Ready);
    refused("{x", 'x', StateKind::AwaitingKey);
    refused("{\"a\" x", 'x', StateKind::KeyClosed);
    refused("{\"a\":\"b\" x", 'x', StateKind::ValueStringClosed);
    refused("[\"a\" x", 'x', StateKind::ArrayElementStringClosed);
    refused("\"a\" x", 'x', StateKind::StringClosed);
    refused("1x", 'x', StateKind::NumberPending);
    refused("[]]", ']', StateKind::Closed);
}

#[test]
fn literal_takes_only_its_own_characters() {
    refused("te", 'e', StateKind::ScalarPrefix);
    refused("tru!", '!', StateKind::ScalarPrefix);
    refused("nl", 'l', StateKind::ScalarPrefix);
    refused("nul1", '1', StateKind::ScalarPrefix);
    refused("fals_", '_', StateKind::ScalarPrefix);
    refused("truee", 'e', StateKind::Closed);
    assert_eq!(parse_stream("tru").unwrap(), Value::Bool(true));
    assert_eq!(parse_stream("fals").unwrap(), Value::Bool(false));
    assert_eq!(parse_stream("nul").unwrap(), Value::Null);
}

#[test]
fn number_takes_one_exponent_mark_and_a_sign_only_after_it() {
    refused("1e5e", 'e', StateKind::NumberPending);
    refused("1E5e", 'e', StateKind::NumberPending);
    refused("1+", '+', StateKind::NumberPending);
    refused("1-", '-', StateKind::NumberPending);
    refused("1e+-", '-', StateKind::NumberPending);
    assert!(parse_stream("1e+5").is_ok());
    assert!(parse_stream("1E-5").is_ok());
}

#[test]
fn scalar_that_is_no_scalar_fails_at_its_terminator() {
    assert_eq!(parse_stream("[tru]"), Err(ParseError::MalformedScalar));
    assert_eq!(parse_stream("[1x,"), Err(ParseError::MalformedScalar));
    assert_eq!(parse_stream("{\"a\": nope}"), Err(ParseError::MalformedScalar));
    assert_eq!(parse_stream("{\"a\": 1.}"), Err(ParseError::MalformedScalar));
    // a separator where an element is due begins a scalar of its own
    assert_eq!(parse_stream("[,"), Ok(Value::Array(vec![Value::Null])));
    assert_eq!(parse_stream("[,]"), Err(ParseError::MalformedScalar));
    assert_eq!(parse_stream("[1 2]"), Ok(parse_stream("[12]").unwrap()));
    // not yet at a terminator: no error
    assert!(parse_stream("[tru").is_ok());
    assert!(parse_stream("{\"a\": nope").is_ok());
}

#[test]
fn frame_stays_as_it_was_after_a_scalar_error() {
    let mut parser = JsonStreamParser::new();
    for c in "[1,x".chars() {
        parser.add_char(c).unwrap();
    }
    let before = format!("{:?}", parser.get_result());
    assert_eq!(parser.add_char(']'), Err(ParseError::MalformedScalar));
    assert_eq!(format!("{:?}", parser.get_result()), before);
}

#[test]
fn trailing_separator_ends_a_container() {
    assert_eq!(parse_stream("[1,]").unwrap(), parse_stream("[1]").unwrap());
    assert_eq!(
        parse_stream("{\"a\":1,}").unwrap(),
        parse_stream("{\"a\":1}").unwrap()
    );
}

#[test]
fn one_shot_returns_only_the_error() {
    assert_eq!(
        parse_stream("{\"a\":1}x"),
        Err(ParseError::UnexpectedCharacter { character: 'x', state: StateKind::Closed })
    );
}

#[test]
fn result_can_be_read_after_an_error() {
    let mut parser = JsonStreamParser::new();
    for c in "{\"a\":1}".chars() {
        parser.add_char(c).unwrap();
    }
    assert!(parser.add_char('x').is_err());
    assert_eq!(parser.get_result(), &parse_stream("{\"a\":1}").unwrap());
}

#[test]
fn message_says_what_went_wrong() {
    assert_eq!(
        ParseError::UnexpectedCharacter { character: 'x', state: StateKind::AwaitingKey }.message(),
        "invalid character x in state AwaitingKey"
    );
    assert_eq!(ParseError::MalformedScalar.message(), "invalid scalar value");
    assert_eq!(ParseError::InvalidEscape.message(), "invalid string escape");
    assert_eq!(ParseError::LengthLimitExceeded.message(), "input length limit exceeded");
    assert_eq!(ParseError::DepthLimitExceeded.message(), "max depth exceeded");
    assert_eq!(ParseError::Internal.message(), "invalid parser state");
    assert_eq!(StateKind::ValueNestedPending.name(), "ValueNestedPending");
}

#[test]
fn value_can_be_copied() {
    let value = parse_stream("{\"a\": [1, \"x\", {\"b\": null}], \"c\": 2.5}").unwrap();
    assert_eq!(value.clone(), value);
}
