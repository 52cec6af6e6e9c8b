use json_stream_parser::{parse_stream, JsonStreamParser, Number, Value};

fn whole(n: i64) -> Value {
    if n < 0 {
        Value::Number(Number::NegInt(n))
    } else {
        Value::Number(Number::PosInt(n as u64))
    }
}

fn fraction(x: f64) -> Value {
    Value::Number(Number::Float { bits: x.to_bits() })
}

fn string(s: &str) -> Value {
    Value::String(s.to_string())
}

fn pairs(members: Vec<(&str, Value)>) -> Value {
    Value::Object(members.into_iter().map(|(k, v)| (k.to_string(), v)).collect())
}

// Each case is a snippet and a function that builds the value it stands for.
fn cases() -> Vec<(&'static str, fn() -> Value)> {
    vec![
        ("null", || Value::Null),
        ("true", || Value::Bool(true)),
        ("false", || Value::Bool(false)),
        (r#""""#, || string("")),
        (r#""a""#, || string("a")),
        (r#""a\"b""#, || string("a\"b")),
        (r#""a b c""#, || string("a b c")),
        (r#""a b c ""#, || string("a b c ")),
        (r#"" a b c""#, || string(" a b c")),
        (r#"" a b c ""#, || string(" a b c ")),
        ("1234567890", || whole(1234567890)),
        ("1", || whole(1)),
        (" 1234567890", || whole(1234567890)),
        ("1234567890 ", || whole(1234567890)),
        (" 1234567890 ", || whole(1234567890)),
        ("-1234567890", || whole(-1234567890)),
        ("-1", || whole(-1)),
        ("0", || whole(0)),
        ("123.456", || fraction(123.456)),
        ("-123.456", || fraction(-123.456)),
        ("1e2", || fraction(100.0)),
        ("1e-2", || fraction(0.01)),
        ("1.5e2", || fraction(150.0)),
        ("1.5e-2", || fraction(0.015)),
        ("\t123\t", || whole(123)),
        ("\r123\r", || whole(123)),
        ("[[1]]", || Value::Array(vec![Value::Array(vec![whole(1)])])),
        ("[[[1]]]", || {
            Value::Array(vec![Value::Array(vec![Value::Array(vec![whole(1)])])])
        }),
        ("{}", || pairs(vec![])),
        (r#"{"a":{"b":1}}"#, || pairs(vec![("a", pairs(vec![("b", whole(1))]))])),
        (r#"{"a":{"b":{"c":1}}}"#, || {
            pairs(vec![("a", pairs(vec![("b", pairs(vec![("c", whole(1))]))]))])
        }),
    ]
}

fn check(raw_json: &str, expected: Value) {
    let result = parse_stream(raw_json);
    assert_eq!(result.unwrap(), expected, "one-shot parse of {raw_json:?}");
    let mut parser = JsonStreamParser::new();
    for c in raw_json.chars() {
        parser.add_char(c).unwrap();
    }
    assert_eq!(parser.get_result(), &expected, "incremental parse of {raw_json:?}");
}

#[test]
fn simple() {
    for (snippet, value) in cases() {
        check(snippet, value());
    }
}

#[test]
fn object_single_key_value() {
    for (snippet, value) in cases() {
        check(&format!("{{\"key\": {}}}", snippet), pairs(vec![("key", value())]));
    }
}

#[test]
fn object_multiple_key_value() {
    for (snippet, value) in cases() {
        check(
            &format!("{{\"key1\": {}, \"key2\": {}}}", snippet, snippet),
            pairs(vec![("key1", value()), ("key2", value())]),
        );
    }
}

#[test]
fn object_multiple_key_value_with_blank_1() {
    for (snippet, value) in cases() {
        check(
            &format!("{{ \"key1\": {}, \"key2\": {}}}", snippet, snippet),
            pairs(vec![("key1", value()), ("key2", value())]),
        );
    }
}

#[test]
fn object_multiple_key_value_with_blank_2() {
    for (snippet, value) in cases() {
        check(
            &format!("{{\"key1\": {}, \"key2\": {} }}", snippet, snippet),
            pairs(vec![("key1", value()), ("key2", value())]),
        );
    }
}

#[test]
fn object_multiple_key_value_with_blank_3() {
    for (snippet, value) in cases() {
        check(
            &format!(
                "{{
                    \"key1\": {} ,
                     \"key2\": {}
                }}",
                snippet, snippet
            ),
            pairs(vec![("key1", value()), ("key2", value())]),
        );
    }
}

#[test]
fn array_single_value() {
    for (snippet, value) in cases() {
        check(&format!("[{}]", snippet), Value::Array(vec![value()]));
    }
}

#[test]
fn array_multiple_values() {
    for (snippet, value) in cases() {
        check(
            &format!("[{}, {}]", snippet, snippet),
            Value::Array(vec![value(), value()]),
        );
    }
}

#[test]
fn array_multiple_values_with_blank_1() {
    for (snippet, value) in cases() {
        check(
            &format!("[ {}, {}]", snippet, snippet),
            Value::Array(vec![value(), value()]),
        );
    }
}

#[test]
fn array_multiple_values_with_blank_2() {
    for (snippet, value) in cases() {
        check(
            &format!("[{}, {} ]", snippet, snippet),
            Value::Array(vec![value(), value()]),
        );
    }
}

#[test]
fn array_multiple_values_with_blank_3() {
    for (snippet, value) in cases() {
        check(
            &format!("[\n    {},\n    {}\n]", snippet, snippet),
            Value::Array(vec![value(), value()]),
        );
    }
}

#[test]
fn first_character_commits_the_value() {
    assert_eq!(parse_stream("t").unwrap(), Value::Bool(true));
    assert_eq!(parse_stream("f").unwrap(), Value::Bool(false));
    assert_eq!(parse_stream("n").unwrap(), Value::Null);
    assert_eq!(parse_stream("7").unwrap(), whole(7));
    assert_eq!(parse_stream("-").unwrap(), whole(0));
    assert_eq!(parse_stream("\"").unwrap(), string(""));
    assert_eq!(parse_stream("").unwrap(), Value::Null);
}

#[test]
fn number_is_read_anew_with_each_digit() {
    let mut parser = JsonStreamParser::new();
    let expected = [whole(1), whole(12), whole(12), fraction(12.5), fraction(12.5), fraction(12.5), fraction(1250.0)];
    for (c, value) in "12.5e+2".chars().zip(expected) {
        parser.add_char(c).unwrap();
        assert_eq!(parser.get_result(), &value);
    }
}

#[test]
fn leading_zeros_of_a_bare_integer_are_taken() {
    assert_eq!(parse_stream("007").unwrap(), whole(7));
    assert_eq!(parse_stream("-05").unwrap(), whole(-5));
}

#[test]
fn bare_integer_at_the_ends_of_the_range() {
    assert_eq!(
        parse_stream("9223372036854775807").unwrap(),
        Value::Number(Number::PosInt(9223372036854775807))
    );
    assert_eq!(
        parse_stream("-9223372036854775808").unwrap(),
        Value::Number(Number::NegInt(i64::MIN))
    );
}

#[test]
fn bare_integer_beyond_the_range_keeps_the_last_value() {
    // the nineteenth digit no longer fits: the value of eighteen stays
    assert_eq!(
        parse_stream("9999999999999999999").unwrap(),
        whole(999999999999999999)
    );
    assert_eq!(
        parse_stream("-9223372036854775809").unwrap(),
        whole(-922337203685477580)
    );
}

#[test]
fn bare_decimal_that_is_no_number_keeps_the_last_value() {
    assert_eq!(parse_stream("1.2.3").unwrap(), fraction(1.2));
    assert_eq!(parse_stream("1e999").unwrap(), fraction(1e99));
}

#[test]
fn large_integer_in_a_container() {
    assert_eq!(
        parse_stream("[18446744073709551615]").unwrap(),
        Value::Array(vec![Value::Number(Number::PosInt(u64::MAX))])
    );
}
