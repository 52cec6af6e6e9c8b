use json_stream_parser::stack::add_char_into_object;
use json_stream_parser::transition::{apply_char, outside_request, process_char, Request};
use json_stream_parser::{Frame, Number, ParseError, Reading, State, StateKind, Value};

fn s(text: &str) -> String {
    text.to_string()
}

#[test]
fn apply_char_commits_a_literal_and_follows_it() {
    let mut value = Value::Null;
    let mut state = State::Ready;
    assert_eq!(apply_char(&mut value, &mut state, 't', None, None), Ok(()));
    assert_eq!(value, Value::Bool(true));
    assert_eq!(state, State::ScalarPrefix { buffer: vec!['t'] });
    assert_eq!(apply_char(&mut value, &mut state, 'r', None, None), Ok(()));
    assert_eq!(state, State::ScalarPrefix { buffer: vec!['t', 'r'] });
    assert_eq!(apply_char(&mut value, &mut state, 'u', None, None), Ok(()));
    assert_eq!(apply_char(&mut value, &mut state, 'e', None, None), Ok(()));
    assert_eq!(state, State::Closed);
    assert_eq!(value, Value::Bool(true));
}

#[test]
fn apply_char_leaves_the_frame_on_an_error() {
    let mut value = Value::Bool(false);
    let mut state = State::ScalarPrefix { buffer: vec!['f', 'a'] };
    assert_eq!(
        apply_char(&mut value, &mut state, 'x', None, None),
        Err(ParseError::UnexpectedCharacter { character: 'x', state: StateKind::ScalarPrefix })
    );
    assert_eq!(value, Value::Bool(false));
    assert_eq!(state, State::ScalarPrefix { buffer: vec!['f', 'a'] });
}

#[test]
fn apply_char_closes_a_string_with_the_decoded_text() {
    let mut value = Value::String(s("a\\nb"));
    let mut state = State::StringOpen;
    assert_eq!(apply_char(&mut value, &mut state, '"', Some(s("a\nb")), None), Ok(()));
    assert_eq!(value, Value::String(s("a\nb")));
    assert_eq!(state, State::StringClosed);
}

#[test]
fn apply_char_fails_where_the_text_could_not_be_decoded() {
    let mut value = Value::String(s("a\\q"));
    let mut state = State::StringOpen;
    assert_eq!(
        apply_char(&mut value, &mut state, '"', None, None),
        Err(ParseError::InvalidEscape)
    );
    assert_eq!(value, Value::String(s("a\\q")));
    assert_eq!(state, State::StringOpen);
}

#[test]
fn apply_char_takes_an_escaped_quote_into_the_text() {
    let mut value = Value::String(s("a\\"));
    let mut state = State::StringOpen;
    assert_eq!(apply_char(&mut value, &mut state, '"', Some(s("unused")), None), Ok(()));
    assert_eq!(value, Value::String(s("a\\\"")));
    assert_eq!(state, State::StringOpen);
}

#[test]
fn apply_char_sets_an_element_from_the_scalar_read() {
    let mut value = Value::Array(vec![Value::Bool(true), Value::Null]);
    let mut state = State::ArrayElementScalarPending { index: 1, buffer: s("12") };
    let scalar = Some(Reading::Number(Number::PosInt(12)));
    assert_eq!(apply_char(&mut value, &mut state, ',', None, scalar), Ok(()));
    assert_eq!(
        value,
        Value::Array(vec![Value::Bool(true), Value::Number(Number::PosInt(12))])
    );
    assert_eq!(state, State::StartArray);
}

#[test]
fn apply_char_brings_a_number_into_canonical_form() {
    let mut value = Value::Array(vec![Value::Null]);
    let mut state = State::ArrayElementScalarPending { index: 0, buffer: s("5") };
    let scalar = Some(Reading::Number(Number::NegInt(5)));
    assert_eq!(apply_char(&mut value, &mut state, ']', None, scalar), Ok(()));
    assert_eq!(value, Value::Array(vec![Value::Number(Number::PosInt(5))]));
    assert_eq!(state, State::Closed);
}

#[test]
fn apply_char_fails_where_no_scalar_was_read() {
    let mut value = Value::Object(vec![(s("a"), Value::Null)]);
    let mut state = State::ValueScalarPending { key: s("a"), buffer: s("nope") };
    assert_eq!(
        apply_char(&mut value, &mut state, '}', None, None),
        Err(ParseError::MalformedScalar)
    );
    assert_eq!(value, Value::Object(vec![(s("a"), Value::Null)]));
    assert_eq!(state, State::ValueScalarPending { key: s("a"), buffer: s("nope") });
}

#[test]
fn apply_char_reads_a_number_anew() {
    let mut value = Value::Number(Number::PosInt(4));
    let mut state = State::NumberPending { buffer: vec!['4'] };
    assert_eq!(apply_char(&mut value, &mut state, '2', None, None), Ok(()));
    assert_eq!(value, Value::Number(Number::PosInt(42)));
    assert_eq!(apply_char(&mut value, &mut state, '.', None, None), Ok(()));
    assert_eq!(value, Value::Number(Number::PosInt(42)));
    // with a point in the text the value comes from the reader's answer
    let answer = Some(Reading::Number(Number::Float { bits: 42.5f64.to_bits() }));
    assert_eq!(apply_char(&mut value, &mut state, '5', None, answer), Ok(()));
    assert_eq!(value, Value::Number(Number::Float { bits: 42.5f64.to_bits() }));
    // and stays where the reader gave none
    assert_eq!(apply_char(&mut value, &mut state, '7', None, None), Ok(()));
    assert_eq!(value, Value::Number(Number::Float { bits: 42.5f64.to_bits() }));
    assert_eq!(state, State::NumberPending { buffer: vec!['4', '2', '.', '5', '7'] });
}

#[test]
fn apply_char_reports_a_frame_that_does_not_fit() {
    let mut value = Value::Array(vec![Value::Null]);
    let mut state = State::ArrayElementStringOpen { index: 0 };
    assert_eq!(
        apply_char(&mut value, &mut state, 'x', None, None),
        Err(ParseError::Internal)
    );
    let mut state = State::ArrayElementStringOpen { index: 3 };
    assert_eq!(
        apply_char(&mut value, &mut state, 'x', None, None),
        Err(ParseError::Internal)
    );
    let mut value = Value::Object(vec![]);
    let mut state = State::ValueStringOpen { key: s("a") };
    assert_eq!(
        apply_char(&mut value, &mut state, 'x', None, None),
        Err(ParseError::Internal)
    );
}

#[test]
fn outside_request_names_the_text_to_hand_over() {
    let value = Value::String(s("a\\nb"));
    assert_eq!(request_of(&value, &State::StringOpen, '"'), ("decode", s("a\\nb")));
    assert_eq!(request_of(&value, &State::StringOpen, 'x'), ("nothing", s("")));
    let escaped = Value::String(s("a\\"));
    assert_eq!(request_of(&escaped, &State::StringOpen, '"'), ("nothing", s("")));

    let number = Value::Number(Number::PosInt(1));
    let plain = State::NumberPending { buffer: vec!['1'] };
    assert_eq!(request_of(&number, &plain, '2'), ("nothing", s("")));
    let pointed = State::NumberPending { buffer: vec!['1', '.'] };
    assert_eq!(request_of(&number, &pointed, '2'), ("scalar", s("1.2")));
    assert_eq!(request_of(&number, &pointed, 'e'), ("nothing", s("")));

    let array = Value::Array(vec![Value::Null]);
    let pending = State::ArrayElementScalarPending { index: 0, buffer: s("tru") };
    assert_eq!(request_of(&array, &pending, ','), ("scalar", s("tru")));
    assert_eq!(request_of(&array, &pending, ']'), ("scalar", s("tru")));
    assert_eq!(request_of(&array, &pending, 'e'), ("nothing", s("")));

    let object = Value::Object(vec![(s("k"), Value::String(s("v")))]);
    let open = State::ValueStringOpen { key: s("k") };
    assert_eq!(request_of(&object, &open, '"'), ("decode", s("v")));
}

fn request_of(value: &Value, state: &State, c: char) -> (&'static str, String) {
    match outside_request(value, state, c) {
        Request::Nothing => ("nothing", String::new()),
        Request::Decode(text) => ("decode", text),
        Request::Scalar(text) => ("scalar", text),
    }
}

#[test]
fn process_char_decodes_through_the_reader() {
    let mut value = Value::String(s("a\\u0041"));
    let mut state = State::StringOpen;
    assert_eq!(process_char(&mut value, &mut state, '"'), Ok(()));
    assert_eq!(value, Value::String(s("aA")));
    assert_eq!(state, State::StringClosed);
}

#[test]
fn process_char_reads_a_scalar_through_the_reader() {
    let mut value = Value::Object(vec![(s("a"), Value::Null)]);
    let mut state = State::ValueScalarPending { key: s("a"), buffer: s("-12") };
    assert_eq!(process_char(&mut value, &mut state, ','), Ok(()));
    assert_eq!(
        value,
        Value::Object(vec![(s("a"), Value::Number(Number::NegInt(-12)))])
    );
    assert_eq!(state, State::AwaitingKey);
}

#[test]
fn process_char_takes_a_brace_as_the_start_of_a_scalar() {
    // nesting is the stack's work: a frame alone gathers the character
    let mut value = Value::Array(vec![]);
    let mut state = State::StartArray;
    assert_eq!(process_char(&mut value, &mut state, '{'), Ok(()));
    assert_eq!(value, Value::Array(vec![Value::Null]));
    assert_eq!(state, State::ArrayElementScalarPending { index: 0, buffer: s("{") });
    // what the text reads as is no scalar
    assert_eq!(process_char(&mut value, &mut state, '}'), Ok(()));
    assert_eq!(
        process_char(&mut value, &mut state, ']'),
        Err(ParseError::MalformedScalar)
    );
}

#[test]
fn stack_opens_a_frame_and_folds_it() {
    let mut stack = vec![Frame { value: Value::Null, state: State::Ready }];
    assert_eq!(add_char_into_object(&mut stack, '['), Ok(()));
    assert_eq!(stack.len(), 1);
    assert_eq!(add_char_into_object(&mut stack, '{'), Ok(()));
    assert_eq!(stack.len(), 2);
    assert_eq!(stack[0].state, State::ArrayElementNestedPending);
    assert_eq!(stack[1], Frame { value: Value::Object(vec![]), state: State::AwaitingKey });
    assert_eq!(add_char_into_object(&mut stack, '}'), Ok(()));
    assert_eq!(stack.len(), 1);
    assert_eq!(
        stack[0],
        Frame {
            value: Value::Array(vec![Value::Object(vec![])]),
            state: State::ArrayElementStringClosed
        }
    );
}

#[test]
fn stack_folds_a_value_under_its_key() {
    let mut stack = vec![Frame { value: Value::Null, state: State::Ready }];
    for c in "{\"k\":[".chars() {
        assert_eq!(add_char_into_object(&mut stack, c), Ok(()));
    }
    assert_eq!(stack.len(), 2);
    assert_eq!(stack[0].state, State::ValueNestedPending { key: s("k") });
    assert_eq!(stack[0].value, Value::Object(vec![(s("k"), Value::Null)]));
    assert_eq!(add_char_into_object(&mut stack, ']'), Ok(()));
    assert_eq!(
        stack,
        vec![Frame {
            value: Value::Object(vec![(s("k"), Value::Array(vec![]))]),
            state: State::ValueStringClosed
        }]
    );
}

#[test]
fn stack_reports_frames_that_do_not_fit_together() {
    let mut empty: Vec<Frame> = Vec::new();
    assert_eq!(add_char_into_object(&mut empty, 'x'), Err(ParseError::Internal));
    let mut stack = vec![
        Frame { value: Value::Null, state: State::Ready },
        Frame { value: Value::Array(vec![]), state: State::StartArray },
    ];
    assert_eq!(add_char_into_object(&mut stack, ']'), Err(ParseError::Internal));
    assert_eq!(stack.len(), 2);
}

#[test]
fn apply_char_closes_a_key_with_the_decoded_text() {
    let mut value = Value::Object(vec![]);
    let mut state = State::KeyOpen { buffer: s("a\\\"b") };
    assert_eq!(apply_char(&mut value, &mut state, '"', Some(s("a\"b")), None), Ok(()));
    assert_eq!(value, Value::Object(vec![(s("a\"b"), Value::Null)]));
    assert_eq!(state, State::KeyClosed { key: s("a\"b") });
}

#[test]
fn apply_char_fails_where_the_key_could_not_be_decoded() {
    let mut value = Value::Object(vec![(s("x"), Value::Bool(true))]);
    let mut state = State::KeyOpen { buffer: s("a\\q") };
    assert_eq!(
        apply_char(&mut value, &mut state, '"', None, None),
        Err(ParseError::InvalidEscape)
    );
    assert_eq!(value, Value::Object(vec![(s("x"), Value::Bool(true))]));
    assert_eq!(state, State::KeyOpen { buffer: s("a\\q") });
}

#[test]
fn apply_char_takes_an_escaped_quote_into_the_key() {
    let mut value = Value::Object(vec![]);
    let mut state = State::KeyOpen { buffer: s("a\\") };
    assert_eq!(apply_char(&mut value, &mut state, '"', Some(s("unused")), None), Ok(()));
    assert_eq!(value, Value::Object(vec![]));
    assert_eq!(state, State::KeyOpen { buffer: s("a\\\"") });
}

#[test]
fn outside_request_asks_for_the_key_to_be_decoded() {
    let object = Value::Object(vec![]);
    let open = State::KeyOpen { buffer: s("a\\nb") };
    assert_eq!(request_of(&object, &open, '"'), ("decode", s("a\\nb")));
    assert_eq!(request_of(&object, &open, 'x'), ("nothing", s("")));
    let escaped = State::KeyOpen { buffer: s("a\\") };
    assert_eq!(request_of(&object, &escaped, '"'), ("nothing", s("")));
}

#[test]
fn process_char_decodes_a_key_through_the_reader() {
    let mut value = Value::Object(vec![]);
    let mut state = State::KeyOpen { buffer: s("k\\u0041\\t") };
    assert_eq!(process_char(&mut value, &mut state, '"'), Ok(()));
    assert_eq!(value, Value::Object(vec![(s("kA\t"), Value::Null)]));
    assert_eq!(state, State::KeyClosed { key: s("kA\t") });
}

#[test]
fn apply_char_refuses_a_reading_that_is_no_scalar() {
    for reading in [Reading::String, Reading::Array, Reading::Object] {
        let mut value = Value::Array(vec![Value::Null]);
        let mut state = State::ArrayElementScalarPending { index: 0, buffer: s("[]") };
        assert_eq!(
            apply_char(&mut value, &mut state, ',', None, Some(reading)),
            Err(ParseError::MalformedScalar)
        );
        assert_eq!(value, Value::Array(vec![Value::Null]));
        assert_eq!(state, State::ArrayElementScalarPending { index: 0, buffer: s("[]") });
    }
    let mut value = Value::Number(Number::PosInt(1));
    let mut state = State::NumberPending { buffer: vec!['1', '.'] };
    assert_eq!(
        apply_char(&mut value, &mut state, '5', None, Some(Reading::Array)),
        Ok(())
    );
    assert_eq!(value, Value::Number(Number::PosInt(1)));
}

#[test]
fn apply_char_takes_each_kind_of_scalar() {
    for (reading, expected) in [
        (Reading::Null, Value::Null),
        (Reading::Bool(true), Value::Bool(true)),
        (Reading::Number(Number::NegInt(-3)), Value::Number(Number::NegInt(-3))),
    ] {
        let mut value = Value::Object(vec![(s("k"), Value::Null)]);
        let mut state = State::ValueScalarPending { key: s("k"), buffer: s("x") };
        assert_eq!(apply_char(&mut value, &mut state, '}', None, Some(reading)), Ok(()));
        assert_eq!(value, Value::Object(vec![(s("k"), expected)]));
        assert_eq!(state, State::Closed);
    }
}

#[test]
fn process_char_refuses_an_array_gathered_as_a_scalar() {
    // a frame alone gathers `[]` after the colon; what the text reads as is no scalar
    let mut value = Value::Object(vec![(s("k"), Value::Null)]);
    let mut state = State::AfterColon { key: s("k") };
    assert_eq!(process_char(&mut value, &mut state, '['), Ok(()));
    assert_eq!(process_char(&mut value, &mut state, ']'), Ok(()));
    assert_eq!(
        process_char(&mut value, &mut state, ','),
        Err(ParseError::MalformedScalar)
    );
    assert_eq!(value, Value::Object(vec![(s("k"), Value::Null)]));
}
