use json_stream_parser::{parse_stream, JsonStreamParser, Number, Value};

// The same value in the tree of `serde_json`.
fn as_serde(value: &Value) -> serde_json::Value {
    match value {
        Value::Null => serde_json::Value::Null,
        Value::Bool(b) => serde_json::Value::Bool(*b),
        Value::Number(Number::PosInt(u)) => serde_json::Value::Number((*u).into()),
        Value::Number(Number::NegInt(i)) => serde_json::Value::Number((*i).into()),
        Value::Number(Number::Float { bits }) => serde_json::Value::Number(
            serde_json::Number::from_f64(f64::from_bits(*bits)).unwrap(),
        ),
        Value::String(s) => serde_json::Value::String(s.clone()),
        Value::Array(items) => serde_json::Value::Array(items.iter().map(as_serde).collect()),
        Value::Object(members) => serde_json::Value::Object(
            members.iter().map(|(k, v)| (k.clone(), as_serde(v))).collect(),
        ),
    }
}

fn documents() -> Vec<&'static str> {
    vec![
        "null",
        "true",
        "false",
        "0",
        "-1",
        "9223372036854775807",
        "-9223372036854775808",
        "1.5",
        "-0.25",
        "1e300",
        "\"\"",
        "\"abc XYZ 019\"",
        "[]",
        "{}",
        "[null,true,false,1,-2,3.5,\"x\"]",
        "[[],[[]],[{}]]",
        "{\"a\":null,\"b\":true,\"c\":[1,2,{\"d\":\"e\"}],\"f\":{\"g\":{\"h\":[]}}}",
        "{\"k0\":{\"k1\":{\"k2\":[0,[1,[2]]]}}}",
        "[18446744073709551615,-9223372036854775808,0.1,1e-7]",
        "[\"tab\\tnew\\nline\",\"quote\\\"back\\\\slash\",\"\\u00e9\\ud83d\\ude00\"]",
        r#"{"a\"b":1}"#,
        r#"{"back\\slash":{"new\nline":[{"tab\t":"\u00e9"}]},"":0,"\u0001":null}"#,
    ]
}

#[test]
fn roundtrip_json() {
    for document in documents() {
        let value: serde_json::Value = serde_json::from_str(document).unwrap();
        let json = serde_json::to_string(&value).unwrap();
        let parsed = parse_stream(&json).unwrap();
        assert_eq!(as_serde(&parsed), value, "{json}");

        let mut parser = JsonStreamParser::new();
        for c in json.chars() {
            parser.add_char(c).unwrap();
        }
        assert_eq!(parser.get_result(), &parsed, "{json}");
    }
}

#[test]
fn roundtrip_of_pretty_text() {
    for document in documents() {
        let value: serde_json::Value = serde_json::from_str(document).unwrap();
        let json = serde_json::to_string_pretty(&value).unwrap();
        let parsed = parse_stream(&json).unwrap();
        assert_eq!(as_serde(&parsed), value, "{json}");
    }
}

#[test]
fn one_shot_and_incremental_agree() {
    let texts = [
        "{\"a\": [1, 2, {\"b\": \"c\"}], \"d\": null}",
        "{\"a\": [1, 2, {\"b\": \"c",
        "[1, tru",
        "  -12.5e3  ",
        "{\"a\": nope}",
        "[\"\\q\"]",
        "tx",
    ];
    for text in texts {
        let one_shot = parse_stream(text);
        let mut parser = JsonStreamParser::new();
        let mut incremental = Ok(());
        for c in text.chars() {
            incremental = parser.add_char(c);
            if incremental.is_err() {
                break;
            }
        }
        match (one_shot, incremental) {
            (Ok(value), Ok(())) => assert_eq!(&value, parser.get_result()),
            (Err(e), Err(f)) => assert_eq!(e, f),
            (one, other) => panic!("{text:?}: {one:?} against {other:?}"),
        }
    }
}

#[test]
fn every_prefix_of_a_document_is_taken() {
    for document in documents() {
        let chars: Vec<char> = document.chars().collect();
        for n in 0..=chars.len() {
            let prefix: String = chars[..n].iter().collect();
            assert!(parse_stream(&prefix).is_ok(), "{prefix:?}");
        }
    }
}

#[test]
fn prefix_shows_what_is_there_so_far() {
    let text = |s: &str| Value::String(s.to_string());
    let key = |v: Value| Value::Object(vec![("key".to_string(), v)]);
    assert_eq!(parse_stream("{\"key\": \"val").unwrap(), key(text("val")));
    assert_eq!(parse_stream("{\"key\": \"value\"").unwrap(), key(text("value")));
    assert_eq!(parse_stream("{\"key\": ").unwrap(), key(Value::Null));
    assert_eq!(parse_stream("{\"key\": 12").unwrap(), key(Value::Null));
    assert_eq!(
        parse_stream("{\"key\": 12,").unwrap(),
        key(Value::Number(Number::PosInt(12)))
    );
    assert_eq!(
        parse_stream("[1, 2").unwrap(),
        Value::Array(vec![Value::Number(Number::PosInt(1)), Value::Null])
    );
}

#[test]
fn scenario_decimal_with_exponent() {
    assert_eq!(
        parse_stream("1.5e-2").unwrap(),
        Value::Number(Number::Float { bits: 0.015f64.to_bits() })
    );
}

// A large array of records, as a text.
fn large_json() -> String {
    let mut json = String::from("[");
    for i in 0..5000 {
        if i > 0 {
            json.push(',');
        }
        json.push_str(&format!(
            "{{\"id\": {}, \"name\": \"item {}\", \"tags\": [\"a\", \"b\\n\", {}], \"ratio\": {}.25, \"on\": {}, \"none\": null}}",
            i,
            i,
            -i,
            i,
            i % 2 == 0
        ));
    }
    json.push(']');
    json
}

#[test]
fn performance_compare() {
    let json = large_json();

    let start_time = std::time::Instant::now();
    let parsed_stream = parse_stream(&json).unwrap();
    let duration_stream = start_time.elapsed();

    let start_time = std::time::Instant::now();
    let parsed_serde: serde_json::Value = serde_json::from_str(&json).unwrap();
    let duration_serde = start_time.elapsed();

    assert_eq!(as_serde(&parsed_stream), parsed_serde);

    println!("json_stream_parser: time: {:?}", duration_stream);
    println!("serde_json: time: {:?}", duration_serde);
}
