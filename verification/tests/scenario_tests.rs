use json_stream_parser::{parse_stream, parse_stream_with_limits, Number, Value};

fn one(n: u64) -> Value {
    Value::Number(Number::PosInt(n))
}

fn under(key: &str, value: Value) -> Value {
    Value::Object(vec![(key.to_string(), value)])
}

#[test]
fn scenario_empty_object() {
    assert_eq!(parse_stream("{}").unwrap(), Value::Object(vec![]));
}

#[test]
fn scenario_empty_array() {
    assert_eq!(parse_stream("[]").unwrap(), Value::Array(vec![]));
}

#[test]
fn scenario_key_and_value() {
    assert_eq!(
        parse_stream("{\"key\": \"value\"}").unwrap(),
        under("key", Value::String("value".to_string()))
    );
}

#[test]
fn scenario_missing_closing_brace() {
    assert_eq!(
        parse_stream("{\"key\": \"value\"").unwrap(),
        under("key", Value::String("value".to_string()))
    );
}

#[test]
fn scenario_nested_object() {
    assert_eq!(
        parse_stream("{\"a\":{\"b\":1}}").unwrap(),
        under("a", under("b", one(1)))
    );
}

#[test]
fn scenario_nested_arrays() {
    assert_eq!(
        parse_stream("[[1,2],[3]]").unwrap(),
        Value::Array(vec![Value::Array(vec![one(1), one(2)]), Value::Array(vec![one(3)])])
    );
}

#[test]
fn scenario_escaped_quote() {
    assert_eq!(parse_stream("\"a\\\"b\"").unwrap(), Value::String("a\"b".to_string()));
}

#[test]
fn scenario_decimal() {
    assert_eq!(
        parse_stream("1.5e-2").unwrap(),
        Value::Number(Number::Float { bits: 0.015f64.to_bits() })
    );
}

#[test]
fn scenario_depth_limit() {
    assert!(parse_stream_with_limits("[[[1]]]", Some(2), None).is_err());
    assert!(parse_stream_with_limits("[[[1]]]", Some(3), None).is_ok());
}
