use json_stream_parser::{parse_stream, JsonStreamParser, ParseError, StateKind, Value};

#[test]
fn whitespace_between_tokens_changes_nothing() {
    let plain = "{\"a\":[1,true,\"x y\",{\"b\":null}],\"c\":-2.5}";
    let expected = parse_stream(plain).unwrap();
    for blank in [' ', '\t', '\n', '\r'] {
        let mut in_text = false;
        let mut escaped = false;
        let chars: Vec<char> = plain.chars().collect();
        for at in 0..=chars.len() {
            // find out whether position `at` is inside a string literal
            if at > 0 {
                let c = chars[at - 1];
                if in_text {
                    if c == '"' && !escaped {
                        in_text = false;
                    }
                    escaped = c == '\\' && !escaped;
                } else if c == '"' {
                    in_text = true;
                }
            }
            if in_text {
                continue;
            }
            let mut spaced: String = chars[..at].iter().collect();
            spaced.push(blank);
            spaced.extend(chars[at..].iter());
            assert_eq!(parse_stream(&spaced).unwrap(), expected, "{spaced:?}");
        }
    }
}

#[test]
fn whitespace_inside_a_string_belongs_to_it() {
    assert_eq!(
        parse_stream("\"a \t b\"").unwrap_err(),
        ParseError::InvalidEscape
    );
    assert_eq!(parse_stream("\"a  b\"").unwrap(), Value::String("a  b".to_string()));
    assert_eq!(
        parse_stream("{\"a b\": 1}").unwrap(),
        Value::Object(vec![(
            "a b".to_string(),
            Value::Number(json_stream_parser::Number::PosInt(1))
        )])
    );
}

#[test]
fn every_kind_of_whitespace_is_taken_in_an_array() {
    assert_eq!(parse_stream("[\t]").unwrap(), Value::Array(vec![]));
    assert_eq!(parse_stream("[\r\n]").unwrap(), Value::Array(vec![]));
    assert_eq!(
        parse_stream("[\t1\r,\n2 ]").unwrap(),
        parse_stream("[1,2]").unwrap()
    );
}

#[test]
fn whitespace_leaves_the_parser_as_it_is() {
    let mut parser = JsonStreamParser::new();
    for c in "{\"a\": [1, ".chars() {
        parser.add_char(c).unwrap();
    }
    let before = format!("{:?}", parser.get_result());
    for c in " \t\n\r".chars() {
        assert_eq!(parser.add_char(c), Ok(()));
    }
    assert_eq!(format!("{:?}", parser.get_result()), before);
}

#[test]
fn whitespace_after_a_closed_document() {
    assert_eq!(parse_stream("{} \n").unwrap(), Value::Object(vec![]));
    assert_eq!(parse_stream("true ").unwrap(), Value::Bool(true));
    assert_eq!(
        parse_stream("{} x"),
        Err(ParseError::UnexpectedCharacter { character: 'x', state: StateKind::Closed })
    );
}
