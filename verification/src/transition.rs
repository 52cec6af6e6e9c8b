//! The transition of one frame on one character.
//!
//! `step_with` is the whole table: from a frame, a character and what the
//! JSON text reader answered, to the next frame or an error. `step` is the
//! same table with the reader's answers filled in.

use crate::json_text::{decode_json_string, json_string_decoded, json_value_read, read_json_value};
use crate::number::{
    digit_of, digit_value, integer_text_i64, is_digit, is_digit_char, parse_integer, scalar_read,
    Number, Reading, Scalar,
};
use crate::state::{FrameView, ParseError, State, StateView};
use crate::text::{ends_escaped, ends_with_odd_backslashes, text_of};
use crate::value::{
    find_member, items_view, lemma_array_view, lemma_member_index, lemma_object_view,
    member_index, members_view, set_member, with_member, Value, ValueView,
};
use crate::wellformed::{frame_wf, lemma_step_with_keeps_frame};
use vstd::prelude::*;

verus! {

pub open spec fn is_whitespace(c: char) -> bool {
    c == ' ' || c == '\t' || c == '\n' || c == '\r'
}

/// What a frame does with a character that no rule of its state takes:
/// whitespace is absorbed, anything else is an error.
pub open spec fn unexpected(frame: FrameView, c: char) -> Result<FrameView, ParseError> {
    if is_whitespace(c) {
        Ok(frame)
    } else {
        Err(ParseError::UnexpectedCharacter { character: c, state: frame.state.kind() })
    }
}

/// The literal that a value was committed to at its first character.
pub open spec fn literal_text(value: ValueView) -> Seq<char> {
    match value {
        ValueView::Bool(true) => seq!['t', 'r', 'u', 'e'],
        ValueView::Bool(false) => seq!['f', 'a', 'l', 's', 'e'],
        ValueView::Null => seq!['n', 'u', 'l', 'l'],
        _ => Seq::empty(),
    }
}

/// The value that a scalar stands for, a number in canonical form.
pub open spec fn scalar_value(scalar: Scalar) -> ValueView {
    match scalar {
        Scalar::Null => ValueView::Null,
        Scalar::Bool(b) => ValueView::Bool(b),
        Scalar::Number(n) => ValueView::Number(n.canonical()),
    }
}

/// Whether `c` ends the string literal whose raw text so far is `text`.
pub open spec fn closes_text(text: Seq<char>, c: char) -> bool {
    c == '"' && !ends_escaped(text)
}

/// What one character does to an open string literal.
pub enum TextStep {
    /// The character joins the raw text.
    Grow(Seq<char>),
    /// The literal ends; the decoded text takes the place of the raw one.
    Close(Seq<char>),
    /// The literal ends and its escapes cannot be decoded.
    Invalid,
}

pub open spec fn text_step(text: Seq<char>, c: char, decoded: Option<Seq<char>>) -> TextStep {
    if closes_text(text, c) {
        match decoded {
            Some(d) => TextStep::Close(d),
            None => TextStep::Invalid,
        }
    } else {
        TextStep::Grow(text.push(c))
    }
}

pub open spec fn has_exponent(buffer: Seq<char>) -> bool {
    buffer.contains('e') || buffer.contains('E')
}

pub open spec fn has_float_marker(buffer: Seq<char>) -> bool {
    buffer.contains('.') || has_exponent(buffer)
}

/// The number that the text of a number stands for once a digit has been
/// added: read as a signed integer where the text has no `.`, `e` or `E`,
/// and taken from the reader's answer where it has. `None` where the
/// conversion gives no number.
pub open spec fn reparsed_number(text: Seq<char>, scalar: Option<Scalar>) -> Option<Number> {
    if has_float_marker(text) {
        match scalar {
            Some(Scalar::Number(n)) => Some(n.canonical()),
            _ => None,
        }
    } else {
        match integer_text_i64(text) {
            Some(v) => Some(Number::of_int(v as int)),
            None => None,
        }
    }
}

/// The first character of a value.
pub open spec fn ready_step(c: char) -> Result<FrameView, ParseError> {
    if c == '"' {
        Ok(FrameView { value: ValueView::String(Seq::empty()), state: StateView::StringOpen })
    } else if c == '{' {
        Ok(FrameView { value: ValueView::Object(Seq::empty()), state: StateView::AwaitingKey })
    } else if c == '[' {
        Ok(FrameView { value: ValueView::Array(Seq::empty()), state: StateView::StartArray })
    } else if c == 't' {
        Ok(
            FrameView {
                value: ValueView::Bool(true),
                state: StateView::ScalarPrefix { buffer: seq![c] },
            },
        )
    } else if c == 'f' {
        Ok(
            FrameView {
                value: ValueView::Bool(false),
                state: StateView::ScalarPrefix { buffer: seq![c] },
            },
        )
    } else if c == 'n' {
        Ok(FrameView { value: ValueView::Null, state: StateView::ScalarPrefix { buffer: seq![c] } })
    } else if is_digit(c) {
        Ok(
            FrameView {
                value: ValueView::Number(Number::PosInt(digit_value(c) as u64)),
                state: StateView::NumberPending { buffer: seq![c] },
            },
        )
    } else if c == '-' {
        Ok(
            FrameView {
                value: ValueView::Number(Number::PosInt(0)),
                state: StateView::NumberPending { buffer: seq![c] },
            },
        )
    } else {
        unexpected(FrameView { value: ValueView::Null, state: StateView::Ready }, c)
    }
}

/// Inside `true`, `false` or `null`: only the next character of the
/// literal is taken, and its last character closes the frame.
pub open spec fn literal_step(frame: FrameView, buffer: Seq<char>, c: char) -> Result<
    FrameView,
    ParseError,
> {
    let literal = literal_text(frame.value);
    if buffer.len() < literal.len() && buffer == literal.take(buffer.len() as int) && c
        == literal[buffer.len() as int] {
        if buffer.len() + 1 == literal.len() {
            Ok(FrameView { value: frame.value, state: StateView::Closed })
        } else {
            Ok(
                FrameView {
                    value: frame.value,
                    state: StateView::ScalarPrefix { buffer: buffer.push(c) },
                },
            )
        }
    } else {
        unexpected(frame, c)
    }
}

/// Inside a number. A digit joins the text and the value is read anew from
/// it; where that gives no number the value stays. A point always joins;
/// `e` or `E` joins once; a sign joins right after the exponent mark.
pub open spec fn number_step(
    frame: FrameView,
    buffer: Seq<char>,
    c: char,
    scalar: Option<Scalar>,
) -> Result<FrameView, ParseError> {
    if is_digit(c) {
        let text = buffer.push(c);
        Ok(
            FrameView {
                value: match reparsed_number(text, scalar) {
                    Some(n) => ValueView::Number(n),
                    None => frame.value,
                },
                state: StateView::NumberPending { buffer: text },
            },
        )
    } else if c == '.' || ((c == 'e' || c == 'E') && !has_exponent(buffer)) || ((c == '+' || c
        == '-') && buffer.len() > 0 && (buffer.last() == 'e' || buffer.last() == 'E')) {
        Ok(
            FrameView {
                value: frame.value,
                state: StateView::NumberPending { buffer: buffer.push(c) },
            },
        )
    } else {
        unexpected(frame, c)
    }
}

/// The transitions of a frame whose value is neither array nor object.
pub open spec fn leaf_step(
    frame: FrameView,
    c: char,
    decoded: Option<Seq<char>>,
    scalar: Option<Scalar>,
) -> Result<FrameView, ParseError> {
    match (frame.value, frame.state) {
        (ValueView::Null, StateView::Ready) => ready_step(c),
        (ValueView::String(text), StateView::StringOpen) => match text_step(text, c, decoded) {
            TextStep::Grow(t) => Ok(
                FrameView { value: ValueView::String(t), state: StateView::StringOpen },
            ),
            TextStep::Close(t) => Ok(
                FrameView { value: ValueView::String(t), state: StateView::StringClosed },
            ),
            TextStep::Invalid => Err(ParseError::InvalidEscape),
        },
        (_, StateView::ScalarPrefix { buffer }) => literal_step(frame, buffer, c),
        (ValueView::Number(_), StateView::NumberPending { buffer }) => number_step(
            frame,
            buffer,
            c,
            scalar,
        ),
        _ => unexpected(frame, c),
    }
}

/// The transitions of a frame whose value is an array.
pub open spec fn array_step(
    items: Seq<ValueView>,
    state: StateView,
    c: char,
    decoded: Option<Seq<char>>,
    scalar: Option<Scalar>,
) -> Result<FrameView, ParseError> {
    let frame = FrameView { value: ValueView::Array(items), state };
    match state {
        StateView::StartArray => if c == ']' {
            Ok(FrameView { value: frame.value, state: StateView::Closed })
        } else if is_whitespace(c) {
            Ok(frame)
        } else if c == '"' {
            Ok(
                FrameView {
                    value: ValueView::Array(items.push(ValueView::String(Seq::empty()))),
                    state: StateView::ArrayElementStringOpen { index: items.len() as int },
                },
            )
        } else {
            Ok(
                FrameView {
                    value: ValueView::Array(items.push(ValueView::Null)),
                    state: StateView::ArrayElementScalarPending {
                        index: items.len() as int,
                        buffer: seq![c],
                    },
                },
            )
        },
        StateView::ArrayElementStringOpen { index } => if 0 <= index < items.len()
            && items[index] is String {
            match text_step(items[index]->String_0, c, decoded) {
                TextStep::Grow(t) => Ok(
                    FrameView {
                        value: ValueView::Array(items.update(index, ValueView::String(t))),
                        state,
                    },
                ),
                TextStep::Close(t) => Ok(
                    FrameView {
                        value: ValueView::Array(items.update(index, ValueView::String(t))),
                        state: StateView::ArrayElementStringClosed,
                    },
                ),
                TextStep::Invalid => Err(ParseError::InvalidEscape),
            }
        } else {
            Err(ParseError::Internal)
        },
        StateView::ArrayElementStringClosed => if c == ',' {
            Ok(FrameView { value: frame.value, state: StateView::StartArray })
        } else if c == ']' {
            Ok(FrameView { value: frame.value, state: StateView::Closed })
        } else {
            unexpected(frame, c)
        },
        StateView::ArrayElementScalarPending { index, buffer } => if c == ',' || c == ']' {
            match scalar {
                None => Err(ParseError::MalformedScalar),
                Some(s) => if 0 <= index < items.len() {
                    Ok(
                        FrameView {
                            value: ValueView::Array(items.update(index, scalar_value(s))),
                            state: if c == ',' {
                                StateView::StartArray
                            } else {
                                StateView::Closed
                            },
                        },
                    )
                } else {
                    Err(ParseError::Internal)
                },
            }
        } else if is_whitespace(c) {
            Ok(frame)
        } else {
            Ok(
                FrameView {
                    value: frame.value,
                    state: StateView::ArrayElementScalarPending { index, buffer: buffer.push(c) },
                },
            )
        },
        _ => unexpected(frame, c),
    }
}

/// The transitions of a frame whose value is an object.
pub open spec fn object_step(
    members: Seq<(Seq<char>, ValueView)>,
    state: StateView,
    c: char,
    decoded: Option<Seq<char>>,
    scalar: Option<Scalar>,
) -> Result<FrameView, ParseError> {
    let frame = FrameView { value: ValueView::Object(members), state };
    match state {
        StateView::AwaitingKey => if c == '"' {
            Ok(FrameView { value: frame.value, state: StateView::KeyOpen { buffer: Seq::empty() } })
        } else if c == '}' {
            Ok(FrameView { value: frame.value, state: StateView::Closed })
        } else {
            unexpected(frame, c)
        },
        StateView::KeyOpen { buffer } => match text_step(buffer, c, decoded) {
            TextStep::Grow(t) => Ok(
                FrameView { value: frame.value, state: StateView::KeyOpen { buffer: t } },
            ),
            TextStep::Close(key) => Ok(
                FrameView {
                    value: ValueView::Object(with_member(members, key, ValueView::Null)),
                    state: StateView::KeyClosed { key },
                },
            ),
            TextStep::Invalid => Err(ParseError::InvalidEscape),
        },
        StateView::KeyClosed { key } => if c == ':' {
            Ok(FrameView { value: frame.value, state: StateView::AfterColon { key } })
        } else {
            unexpected(frame, c)
        },
        StateView::AfterColon { key } => if is_whitespace(c) {
            Ok(frame)
        } else if c == '"' {
            Ok(
                FrameView {
                    value: ValueView::Object(
                        with_member(members, key, ValueView::String(Seq::empty())),
                    ),
                    state: StateView::ValueStringOpen { key },
                },
            )
        } else {
            Ok(
                FrameView {
                    value: frame.value,
                    state: StateView::ValueScalarPending { key, buffer: seq![c] },
                },
            )
        },
        StateView::ValueStringOpen { key } => match member_index(members, key) {
            Some(i) => if members[i].1 is String {
                match text_step(members[i].1->String_0, c, decoded) {
                    TextStep::Grow(t) => Ok(
                        FrameView {
                            value: ValueView::Object(
                                members.update(i, (members[i].0, ValueView::String(t))),
                            ),
                            state,
                        },
                    ),
                    TextStep::Close(t) => Ok(
                        FrameView {
                            value: ValueView::Object(
                                members.update(i, (members[i].0, ValueView::String(t))),
                            ),
                            state: StateView::ValueStringClosed,
                        },
                    ),
                    TextStep::Invalid => Err(ParseError::InvalidEscape),
                }
            } else {
                Err(ParseError::Internal)
            },
            None => Err(ParseError::Internal),
        },
        StateView::ValueStringClosed => if c == ',' {
            Ok(FrameView { value: frame.value, state: StateView::AwaitingKey })
        } else if c == '}' {
            Ok(FrameView { value: frame.value, state: StateView::Closed })
        } else {
            unexpected(frame, c)
        },
        StateView::ValueScalarPending { key, buffer } => if c == ',' || c == '}' {
            match scalar {
                None => Err(ParseError::MalformedScalar),
                Some(s) => Ok(
                    FrameView {
                        value: ValueView::Object(with_member(members, key, scalar_value(s))),
                        state: if c == ',' {
                            StateView::AwaitingKey
                        } else {
                            StateView::Closed
                        },
                    },
                ),
            }
        } else if is_whitespace(c) {
            Ok(frame)
        } else {
            Ok(
                FrameView {
                    value: frame.value,
                    state: StateView::ValueScalarPending { key, buffer: buffer.push(c) },
                },
            )
        },
        _ => unexpected(frame, c),
    }
}

/// The transition of a frame on `c`, given what the JSON text reader
/// answered: `decoded` for the body of the string or key that `c` closes,
/// `reading` for the text of the value that `c` completes. A reading that
/// is no scalar counts as none. An answer that the step does not need is
/// not looked at.
pub open spec fn step_with(
    frame: FrameView,
    c: char,
    decoded: Option<Seq<char>>,
    reading: Option<Reading>,
) -> Result<FrameView, ParseError> {
    let scalar = scalar_read(reading);
    match frame.value {
        ValueView::Array(items) => array_step(items, frame.state, c, decoded, scalar),
        ValueView::Object(members) => object_step(members, frame.state, c, decoded, scalar),
        _ => leaf_step(frame, c, decoded, scalar),
    }
}

/// The text that a step hands to the JSON text reader, if any.
pub enum RequestView {
    Nothing,
    /// The raw body of the string literal or key that the character closes.
    Decode(Seq<char>),
    /// The text of the value that the character completes.
    Scalar(Seq<char>),
}

/// The raw text of the string literal or key that the frame is inside of.
pub open spec fn open_text(frame: FrameView) -> Option<Seq<char>> {
    match (frame.value, frame.state) {
        (ValueView::String(text), StateView::StringOpen) => Some(text),
        (ValueView::Object(_), StateView::KeyOpen { buffer }) => Some(buffer),
        (ValueView::Array(items), StateView::ArrayElementStringOpen { index }) => if 0 <= index
            < items.len() && items[index] is String {
            Some(items[index]->String_0)
        } else {
            None
        },
        (ValueView::Object(members), StateView::ValueStringOpen { key }) => match member_index(
            members,
            key,
        ) {
            Some(i) => if members[i].1 is String {
                Some(members[i].1->String_0)
            } else {
                None
            },
            None => None,
        },
        _ => None,
    }
}

/// What the step of `frame` on `c` asks of the JSON text reader.
pub open spec fn request(frame: FrameView, c: char) -> RequestView {
    match (frame.value, frame.state) {
        (ValueView::Number(_), StateView::NumberPending { buffer }) => if is_digit(c)
            && has_float_marker(buffer.push(c)) {
            RequestView::Scalar(buffer.push(c))
        } else {
            RequestView::Nothing
        },
        (ValueView::Array(_), StateView::ArrayElementScalarPending { index, buffer }) => if c
            == ',' || c == ']' {
            RequestView::Scalar(buffer)
        } else {
            RequestView::Nothing
        },
        (ValueView::Object(_), StateView::ValueScalarPending { key, buffer }) => if c == ','
            || c == '}' {
            RequestView::Scalar(buffer)
        } else {
            RequestView::Nothing
        },
        _ => match open_text(frame) {
            Some(text) => if closes_text(text, c) {
                RequestView::Decode(text)
            } else {
                RequestView::Nothing
            },
            None => RequestView::Nothing,
        },
    }
}

/// The transition of a frame on one character.
pub open spec fn step(frame: FrameView, c: char) -> Result<FrameView, ParseError> {
    match request(frame, c) {
        RequestView::Nothing => step_with(frame, c, None, None),
        RequestView::Decode(text) => step_with(frame, c, json_string_decoded(text), None),
        RequestView::Scalar(text) => step_with(frame, c, None, json_value_read(text)),
    }
}

/// The view of an answer about a string body.
pub open spec fn text_view(text: Option<String>) -> Option<Seq<char>> {
    match text {
        Some(t) => Some(t@),
        None => None,
    }
}

/// Whether the frame after a step, and what the step returned, are what the
/// table gives: the next frame on success, the error and the frame as it
/// was on failure.
pub open spec fn agrees(
    expected: Result<FrameView, ParseError>,
    before: FrameView,
    value_after: ValueView,
    state_after: StateView,
    outcome: Result<(), ParseError>,
) -> bool {
    match expected {
        Ok(frame) => outcome is Ok && value_after == frame.value && state_after == frame.state,
        Err(e) => outcome == Err::<(), ParseError>(e) && value_after == before.value
            && state_after == before.state,
    }
}

pub fn is_whitespace_char(c: char) -> (r: bool)
    ensures
        r == is_whitespace(c),
{
    c == ' ' || c == '\t' || c == '\n' || c == '\r'
}

/// No rule takes the character: whitespace passes, anything else fails.
fn fallback(state: State, c: char) -> (r: (State, Result<(), ParseError>))
    ensures
        r.0@ == state@,
        r.1 == (if is_whitespace(c) {
            Ok::<(), ParseError>(())
        } else {
            Err::<(), ParseError>(
                ParseError::UnexpectedCharacter { character: c, state: state@.kind() },
            )
        }),
{
    if is_whitespace_char(c) {
        (state, Ok(()))
    } else {
        let kind = state.kind();
        (state, Err(ParseError::UnexpectedCharacter { character: c, state: kind }))
    }
}

/// What became of an open string literal on one character.
pub enum TextOutcome {
    Grew,
    Closed,
    Invalid,
}

/// Takes one character into an open string literal. `decoded` is the
/// reader's answer for the raw text, used where the character closes it.
pub fn advance_text(text: &mut String, c: char, decoded: Option<String>) -> (r: TextOutcome)
    ensures
        match text_step(old(text)@, c, text_view(decoded)) {
            TextStep::Grow(t) => r is Grew && final(text)@ == t,
            TextStep::Close(t) => r is Closed && final(text)@ == t,
            TextStep::Invalid => r is Invalid && final(text)@ == old(text)@,
        },
{
    if c == '"' && !ends_with_odd_backslashes(text.as_str()) {
        match decoded {
            Some(d) => {
                *text = d;
                TextOutcome::Closed
            },
            None => TextOutcome::Invalid,
        }
    } else {
        text.push(c);
        TextOutcome::Grew
    }
}

fn contains_char(buffer: &Vec<char>, c: char) -> (r: bool)
    ensures
        r == buffer@.contains(c),
{
    let mut i: usize = 0;
    while i < buffer.len()
        invariant
            i <= buffer.len(),
            forall|j: int| 0 <= j < i ==> buffer@[j] != c,
        decreases buffer.len() - i,
    {
        if buffer[i] == c {
            return true;
        }
        i = i + 1;
    }
    false
}

fn has_exponent_mark(buffer: &Vec<char>) -> (r: bool)
    ensures
        r == has_exponent(buffer@),
{
    contains_char(buffer, 'e') || contains_char(buffer, 'E')
}

fn has_float_mark(buffer: &Vec<char>) -> (r: bool)
    ensures
        r == has_float_marker(buffer@),
{
    contains_char(buffer, '.') || has_exponent_mark(buffer)
}

/// The literal that a value was committed to, as characters.
fn literal_of(value: &Value) -> (r: Vec<char>)
    ensures
        r@ == literal_text(value@),
{
    let r = match value {
        Value::Bool(true) => vec!['t', 'r', 'u', 'e'],
        Value::Bool(false) => vec!['f', 'a', 'l', 's', 'e'],
        Value::Null => vec!['n', 'u', 'l', 'l'],
        _ => Vec::new(),
    };
    assert(r@ =~= literal_text(value@));
    r
}

fn starts_with(whole: &Vec<char>, start: &Vec<char>) -> (r: bool)
    ensures
        r == (start.len() <= whole.len() && start@ == whole@.take(start.len() as int)),
{
    if start.len() > whole.len() {
        return false;
    }
    let mut i: usize = 0;
    while i < start.len()
        invariant
            i <= start.len() <= whole.len(),
            forall|j: int| 0 <= j < i ==> start@[j] == whole@[j],
        decreases start.len() - i,
    {
        if start[i] != whole[i] {
            assert(whole@.take(start.len() as int)[i as int] == whole@[i as int]);
            return false;
        }
        i = i + 1;
    }
    assert(start@ =~= whole@.take(start.len() as int));
    true
}

fn ready_char(value: &mut Value, c: char) -> (r: (State, Result<(), ParseError>))
    requires
        old(value)@ is Null,
    ensures
        agrees(
            ready_step(c),
            FrameView { value: ValueView::Null, state: StateView::Ready },
            final(value)@,
            r.0@,
            r.1,
        ),
{
    if c == '"' {
        *value = Value::String(String::new());
        (State::StringOpen, Ok(()))
    } else if c == '{' {
        let members: Vec<(String, Value)> = Vec::new();
        proof {
            lemma_object_view(members);
            assert(members_view(members@) =~= Seq::empty());
        }
        *value = Value::Object(members);
        (State::AwaitingKey, Ok(()))
    } else if c == '[' {
        let items: Vec<Value> = Vec::new();
        proof {
            lemma_array_view(items);
            assert(items_view(items@) =~= Seq::empty());
        }
        *value = Value::Array(items);
        (State::StartArray, Ok(()))
    } else if c == 't' || c == 'f' || c == 'n' {
        if c == 't' {
            *value = Value::Bool(true);
        } else if c == 'f' {
            *value = Value::Bool(false);
        }
        let buffer: Vec<char> = vec![c];
        assert(buffer@ =~= seq![c]);
        (State::ScalarPrefix { buffer }, Ok(()))
    } else if is_digit_char(c) {
        *value = Value::Number(Number::PosInt(digit_of(c) as u64));
        let buffer: Vec<char> = vec![c];
        assert(buffer@ =~= seq![c]);
        (State::NumberPending { buffer }, Ok(()))
    } else if c == '-' {
        *value = Value::Number(Number::PosInt(0));
        let buffer: Vec<char> = vec![c];
        assert(buffer@ =~= seq![c]);
        (State::NumberPending { buffer }, Ok(()))
    } else {
        fallback(State::Ready, c)
    }
}

fn literal_char(value: &Value, buffer: Vec<char>, c: char) -> (r: (
    State,
    Result<(), ParseError>,
))
    ensures
        agrees(
            literal_step(
                FrameView { value: value@, state: StateView::ScalarPrefix { buffer: buffer@ } },
                buffer@,
                c,
            ),
            FrameView { value: value@, state: StateView::ScalarPrefix { buffer: buffer@ } },
            value@,
            r.0@,
            r.1,
        ),
{
    let literal = literal_of(value);
    let n: usize = buffer.len();
    if n < literal.len() && starts_with(&literal, &buffer) && c == literal[n] {
        if n + 1 == literal.len() {
            (State::Closed, Ok(()))
        } else {
            let mut buffer = buffer;
            buffer.push(c);
            (State::ScalarPrefix { buffer }, Ok(()))
        }
    } else {
        fallback(State::ScalarPrefix { buffer }, c)
    }
}

fn number_char(value: &mut Value, buffer: Vec<char>, c: char, scalar: Option<Scalar>) -> (r: (
    State,
    Result<(), ParseError>,
))
    requires
        old(value)@ is Number,
    ensures
        agrees(
            number_step(
                FrameView {
                    value: old(value)@,
                    state: StateView::NumberPending { buffer: buffer@ },
                },
                buffer@,
                c,
                scalar,
            ),
            FrameView { value: old(value)@, state: StateView::NumberPending { buffer: buffer@ } },
            final(value)@,
            r.0@,
            r.1,
        ),
{
    let mut buffer = buffer;
    if is_digit_char(c) {
        buffer.push(c);
        let parsed: Option<Number> = if has_float_mark(&buffer) {
            match scalar {
                Some(Scalar::Number(n)) => Some(n.to_canonical()),
                _ => None,
            }
        } else {
            match parse_integer(&buffer) {
                Some(v) => Some(Number::from_i64(v)),
                None => None,
            }
        };
        match parsed {
            Some(n) => {
                *value = Value::Number(n);
            },
            None => {},
        }
        (State::NumberPending { buffer }, Ok(()))
    } else {
        let n: usize = buffer.len();
        let after_mark: bool = n > 0 && (buffer[n - 1] == 'e' || buffer[n - 1] == 'E');
        if c == '.' || ((c == 'e' || c == 'E') && !has_exponent_mark(&buffer)) || ((c == '+' || c
            == '-') && after_mark) {
            buffer.push(c);
            (State::NumberPending { buffer }, Ok(()))
        } else {
            fallback(State::NumberPending { buffer }, c)
        }
    }
}

/// The step of a frame whose value is neither array nor object.
fn advance_leaf(
    value: &mut Value,
    current: State,
    c: char,
    decoded: Option<String>,
    scalar: Option<Scalar>,
) -> (r: (State, Result<(), ParseError>))
    requires
        !(old(value)@ is Array),
        !(old(value)@ is Object),
    ensures
        agrees(
            leaf_step(
                FrameView { value: old(value)@, state: current@ },
                c,
                text_view(decoded),
                scalar,
            ),
            FrameView { value: old(value)@, state: current@ },
            final(value)@,
            r.0@,
            r.1,
        ),
{
    match current {
        State::Ready => {
            match value {
                Value::Null => ready_char(value, c),
                _ => fallback(State::Ready, c),
            }
        },
        State::StringOpen => {
            match value {
                Value::String(text) => match advance_text(text, c, decoded) {
                    TextOutcome::Grew => (State::StringOpen, Ok(())),
                    TextOutcome::Closed => (State::StringClosed, Ok(())),
                    TextOutcome::Invalid => (State::StringOpen, Err(ParseError::InvalidEscape)),
                },
                _ => fallback(State::StringOpen, c),
            }
        },
        State::ScalarPrefix { buffer } => literal_char(value, buffer, c),
        State::NumberPending { buffer } => {
            match value {
                Value::Number(_) => number_char(value, buffer, c, scalar),
                _ => fallback(State::NumberPending { buffer }, c),
            }
        },
        other => fallback(other, c),
    }
}

/// The step of a frame whose value is an array.
fn advance_array(
    items: &mut Vec<Value>,
    current: State,
    c: char,
    decoded: Option<String>,
    scalar: Option<Scalar>,
) -> (r: (State, Result<(), ParseError>))
    ensures
        agrees(
            array_step(items_view(old(items)@), current@, c, text_view(decoded), scalar),
            FrameView { value: ValueView::Array(items_view(old(items)@)), state: current@ },
            ValueView::Array(items_view(final(items)@)),
            r.0@,
            r.1,
        ),
{
    let ghost before = items_view(items@);
    match current {
        State::StartArray => {
            if c == ']' {
                (State::Closed, Ok(()))
            } else if is_whitespace_char(c) {
                (State::StartArray, Ok(()))
            } else if c == '"' {
                let index: usize = items.len();
                items.push(Value::String(String::new()));
                assert(items_view(items@) =~= before.push(ValueView::String(Seq::empty())));
                (State::ArrayElementStringOpen { index }, Ok(()))
            } else {
                let index: usize = items.len();
                items.push(Value::Null);
                assert(items_view(items@) =~= before.push(ValueView::Null));
                let mut buffer = String::new();
                buffer.push(c);
                assert(buffer@ =~= seq![c]);
                (State::ArrayElementScalarPending { index, buffer }, Ok(()))
            }
        },
        State::ArrayElementStringOpen { index } => {
            if index < items.len() {
                let r = match &mut items[index] {
                    Value::String(text) => match advance_text(text, c, decoded) {
                        TextOutcome::Grew => (State::ArrayElementStringOpen { index }, Ok(())),
                        TextOutcome::Closed => (State::ArrayElementStringClosed, Ok(())),
                        TextOutcome::Invalid => (
                            State::ArrayElementStringOpen { index },
                            Err(ParseError::InvalidEscape),
                        ),
                    },
                    _ => (State::ArrayElementStringOpen { index }, Err(ParseError::Internal)),
                };
                proof {
                    assert(items_view(items@) =~= before.update(
                        index as int,
                        items@[index as int]@,
                    ));
                    assert(before.update(index as int, before[index as int]) =~= before);
                }
                r
            } else {
                (State::ArrayElementStringOpen { index }, Err(ParseError::Internal))
            }
        },
        State::ArrayElementStringClosed => {
            if c == ',' {
                (State::StartArray, Ok(()))
            } else if c == ']' {
                (State::Closed, Ok(()))
            } else {
                fallback(State::ArrayElementStringClosed, c)
            }
        },
        State::ArrayElementScalarPending { index, buffer } => {
            if c == ',' || c == ']' {
                match scalar {
                    None => (
                        State::ArrayElementScalarPending { index, buffer },
                        Err(ParseError::MalformedScalar),
                    ),
                    Some(s) => {
                        if index < items.len() {
                            items[index] = value_of_scalar(s);
                            assert(items_view(items@) =~= before.update(
                                index as int,
                                scalar_value(s),
                            ));
                            if c == ',' {
                                (State::StartArray, Ok(()))
                            } else {
                                (State::Closed, Ok(()))
                            }
                        } else {
                            (
                                State::ArrayElementScalarPending { index, buffer },
                                Err(ParseError::Internal),
                            )
                        }
                    },
                }
            } else if is_whitespace_char(c) {
                (State::ArrayElementScalarPending { index, buffer }, Ok(()))
            } else {
                let mut buffer = buffer;
                buffer.push(c);
                (State::ArrayElementScalarPending { index, buffer }, Ok(()))
            }
        },
        other => fallback(other, c),
    }
}

/// The value that a scalar stands for.
pub fn value_of_scalar(scalar: Scalar) -> (v: Value)
    ensures
        v@ == scalar_value(scalar),
{
    match scalar {
        Scalar::Null => Value::Null,
        Scalar::Bool(b) => Value::Bool(b),
        Scalar::Number(n) => Value::Number(n.to_canonical()),
    }
}

/// The step of a frame whose value is an object.
fn advance_object(
    members: &mut Vec<(String, Value)>,
    current: State,
    c: char,
    decoded: Option<String>,
    scalar: Option<Scalar>,
) -> (r: (State, Result<(), ParseError>))
    ensures
        agrees(
            object_step(members_view(old(members)@), current@, c, text_view(decoded), scalar),
            FrameView { value: ValueView::Object(members_view(old(members)@)), state: current@ },
            ValueView::Object(members_view(final(members)@)),
            r.0@,
            r.1,
        ),
{
    let ghost before = members_view(members@);
    match current {
        State::AwaitingKey => {
            if c == '"' {
                (State::KeyOpen { buffer: String::new() }, Ok(()))
            } else if c == '}' {
                (State::Closed, Ok(()))
            } else {
                fallback(State::AwaitingKey, c)
            }
        },
        State::KeyOpen { buffer } => {
            let mut buffer = buffer;
            match advance_text(&mut buffer, c, decoded) {
                TextOutcome::Grew => (State::KeyOpen { buffer }, Ok(())),
                TextOutcome::Closed => {
                    set_member(members, buffer.clone(), Value::Null);
                    (State::KeyClosed { key: buffer }, Ok(()))
                },
                TextOutcome::Invalid => (State::KeyOpen { buffer }, Err(ParseError::InvalidEscape)),
            }
        },
        State::KeyClosed { key } => {
            if c == ':' {
                (State::AfterColon { key }, Ok(()))
            } else {
                fallback(State::KeyClosed { key }, c)
            }
        },
        State::AfterColon { key } => {
            if is_whitespace_char(c) {
                (State::AfterColon { key }, Ok(()))
            } else if c == '"' {
                set_member(members, key.clone(), Value::String(String::new()));
                (State::ValueStringOpen { key }, Ok(()))
            } else {
                let mut buffer = String::new();
                buffer.push(c);
                assert(buffer@ =~= seq![c]);
                (State::ValueScalarPending { key, buffer }, Ok(()))
            }
        },
        State::ValueStringOpen { key } => {
            match find_member(members, &key) {
                Some(i) => {
                    proof {
                        lemma_member_index(before, key@);
                    }
                    let r = match &mut members[i].1 {
                        Value::String(text) => match advance_text(text, c, decoded) {
                            TextOutcome::Grew => (State::ValueStringOpen { key }, Ok(())),
                            TextOutcome::Closed => (State::ValueStringClosed, Ok(())),
                            TextOutcome::Invalid => (
                                State::ValueStringOpen { key },
                                Err(ParseError::InvalidEscape),
                            ),
                        },
                        _ => (State::ValueStringOpen { key }, Err(ParseError::Internal)),
                    };
                    proof {
                        assert(members_view(members@) =~= before.update(
                            i as int,
                            (before[i as int].0, members@[i as int].1@),
                        ));
                        assert(before.update(i as int, before[i as int]) =~= before);
                    }
                    r
                },
                None => (State::ValueStringOpen { key }, Err(ParseError::Internal)),
            }
        },
        State::ValueStringClosed => {
            if c == ',' {
                (State::AwaitingKey, Ok(()))
            } else if c == '}' {
                (State::Closed, Ok(()))
            } else {
                fallback(State::ValueStringClosed, c)
            }
        },
        State::ValueScalarPending { key, buffer } => {
            if c == ',' || c == '}' {
                match scalar {
                    None => (
                        State::ValueScalarPending { key, buffer },
                        Err(ParseError::MalformedScalar),
                    ),
                    Some(s) => {
                        set_member(members, key, value_of_scalar(s));
                        if c == ',' {
                            (State::AwaitingKey, Ok(()))
                        } else {
                            (State::Closed, Ok(()))
                        }
                    },
                }
            } else if is_whitespace_char(c) {
                (State::ValueScalarPending { key, buffer }, Ok(()))
            } else {
                let mut buffer = buffer;
                buffer.push(c);
                (State::ValueScalarPending { key, buffer }, Ok(()))
            }
        },
        other => fallback(other, c),
    }
}

/// The text that a step hands to the JSON text reader, if any.
pub enum Request {
    Nothing,
    Decode(String),
    Scalar(String),
}

impl View for Request {
    type V = RequestView;

    open spec fn view(&self) -> RequestView {
        match self {
            Request::Nothing => RequestView::Nothing,
            Request::Decode(text) => RequestView::Decode(text@),
            Request::Scalar(text) => RequestView::Scalar(text@),
        }
    }
}

fn decode_request(text: &String, c: char) -> (r: Request)
    ensures
        r@ == (if closes_text(text@, c) {
            RequestView::Decode(text@)
        } else {
            RequestView::Nothing
        }),
{
    if c == '"' && !ends_with_odd_backslashes(text.as_str()) {
        Request::Decode(text.clone())
    } else {
        Request::Nothing
    }
}

/// Says what the step of a frame on `c` needs from the JSON text reader.
pub fn outside_request(value: &Value, state: &State, c: char) -> (r: Request)
    ensures
        r@ == request(FrameView { value: value@, state: state@ }, c),
{
    match value {
        Value::Number(_) => match state {
            State::NumberPending { buffer } => {
                if is_digit_char(c) && has_float_mark(buffer) {
                    let mut text = text_of(buffer);
                    text.push(c);
                    assert(has_float_marker(buffer@.push(c))) by {
                        lemma_contains_after_push(buffer@, c);
                    }
                    Request::Scalar(text)
                } else {
                    proof {
                        if is_digit(c) {
                            lemma_contains_after_push(buffer@, c);
                        }
                    }
                    Request::Nothing
                }
            },
            _ => Request::Nothing,
        },
        Value::String(text) => match state {
            State::StringOpen => decode_request(text, c),
            _ => Request::Nothing,
        },
        Value::Array(items) => {
            proof {
                lemma_array_view(*items);
            }
            match state {
                State::ArrayElementScalarPending { index, buffer } => {
                    if c == ',' || c == ']' {
                        Request::Scalar(buffer.clone())
                    } else {
                        Request::Nothing
                    }
                },
                State::ArrayElementStringOpen { index } => {
                    if *index < items.len() {
                        match &items[*index] {
                            Value::String(text) => decode_request(text, c),
                            _ => Request::Nothing,
                        }
                    } else {
                        Request::Nothing
                    }
                },
                _ => Request::Nothing,
            }
        },
        Value::Object(members) => {
            proof {
                lemma_object_view(*members);
            }
            match state {
                State::ValueScalarPending { key, buffer } => {
                    if c == ',' || c == '}' {
                        Request::Scalar(buffer.clone())
                    } else {
                        Request::Nothing
                    }
                },
                State::KeyOpen { buffer } => decode_request(buffer, c),
                State::ValueStringOpen { key } => {
                    match find_member(members, key) {
                        Some(i) => {
                            proof {
                                lemma_member_index(members_view(members@), key@);
                            }
                            match &members[i].1 {
                                Value::String(text) => decode_request(text, c),
                                _ => Request::Nothing,
                            }
                        },
                        None => Request::Nothing,
                    }
                },
                _ => Request::Nothing,
            }
        },
        _ => Request::Nothing,
    }
}

/// A digit added to a text adds none of the marks of a decimal number.
pub proof fn lemma_contains_after_push(buffer: Seq<char>, c: char)
    requires
        c != '.' && c != 'e' && c != 'E',
    ensures
        has_float_marker(buffer.push(c)) == has_float_marker(buffer),
        has_exponent(buffer.push(c)) == has_exponent(buffer),
{
    let after = buffer.push(c);
    assert forall|m: char| m != c implies after.contains(m) == buffer.contains(m) by {
        if buffer.contains(m) {
            let i = choose|i: int| 0 <= i < buffer.len() && buffer[i] == m;
            assert(after[i] == m);
        }
        if after.contains(m) {
            let i = choose|i: int| 0 <= i < after.len() && after[i] == m;
            assert(buffer[i] == m);
        }
    }
}

/// Takes one character into a frame, given what the JSON text reader
/// answered: `decoded` for the body of the string or key that the character
/// closes, `reading` for the text of the value that it completes. A text
/// that the reader refused, or read as a string, an array or an object, is
/// a malformed scalar. On an error the frame is left as it was.
pub fn apply_char(
    value: &mut Value,
    state: &mut State,
    c: char,
    decoded: Option<String>,
    reading: Option<Reading>,
) -> (r: Result<(), ParseError>)
    ensures
        agrees(
            step_with(
                FrameView { value: old(value)@, state: old(state)@ },
                c,
                text_view(decoded),
                reading,
            ),
            FrameView { value: old(value)@, state: old(state)@ },
            final(value)@,
            final(state)@,
            r,
        ),
        frame_wf(FrameView { value: old(value)@, state: old(state)@ }) ==> frame_wf(
            FrameView { value: final(value)@, state: final(state)@ },
        ) && r != Err::<(), ParseError>(ParseError::Internal),
{
    proof {
        if frame_wf(FrameView { value: value@, state: state@ }) {
            lemma_step_with_keeps_frame(
                FrameView { value: value@, state: state@ },
                c,
                text_view(decoded),
                reading,
            );
        }
    }
    let scalar: Option<Scalar> = match reading {
        Some(r) => r.to_scalar(),
        None => None,
    };
    let mut current = State::Ready;
    core::mem::swap(state, &mut current);
    let (next, outcome) = match value {
        Value::Array(items) => {
            proof {
                lemma_array_view(*items);
            }
            let r = advance_array(items, current, c, decoded, scalar);
            proof {
                lemma_array_view(*items);
            }
            r
        },
        Value::Object(members) => {
            proof {
                lemma_object_view(*members);
            }
            let r = advance_object(members, current, c, decoded, scalar);
            proof {
                lemma_object_view(*members);
            }
            r
        },
        _ => advance_leaf(value, current, c, decoded, scalar),
    };
    *state = next;
    outcome
}

/// Takes one character into a frame: the per-character transition. On an
/// error the frame is left as it was.
pub fn process_char(value: &mut Value, state: &mut State, c: char) -> (r: Result<(), ParseError>)
    ensures
        agrees(
            step(FrameView { value: old(value)@, state: old(state)@ }, c),
            FrameView { value: old(value)@, state: old(state)@ },
            final(value)@,
            final(state)@,
            r,
        ),
        frame_wf(FrameView { value: old(value)@, state: old(state)@ }) ==> frame_wf(
            FrameView { value: final(value)@, state: final(state)@ },
        ) && r != Err::<(), ParseError>(ParseError::Internal),
{
    match outside_request(value, state, c) {
        Request::Nothing => apply_char(value, state, c, None, None),
        Request::Decode(text) => {
            let decoded = decode_json_string(text.as_str());
            apply_char(value, state, c, decoded, None)
        },
        Request::Scalar(text) => {
            let reading = read_json_value(text.as_str());
            apply_char(value, state, c, None, reading)
        },
    }
}

} // verus!
