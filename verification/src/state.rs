//! Where parsing stands within one nesting level, and the errors it can end in.

use crate::value::{Value, ValueView};
use vstd::prelude::*;
use vstd::string::StringExecFns;

verus! {

/// The name of a `State`, without what the state carries.
#[derive(Clone, Copy, Debug, PartialEq, Eq, Structural)]
pub enum StateKind {
    Ready,
    StringOpen,
    StringClosed,
    ScalarPrefix,
    NumberPending,
    StartArray,
    ArrayElementStringOpen,
    ArrayElementStringClosed,
    ArrayElementScalarPending,
    ArrayElementNestedPending,
    AwaitingKey,
    KeyOpen,
    KeyClosed,
    AfterColon,
    ValueStringOpen,
    ValueStringClosed,
    ValueScalarPending,
    ValueNestedPending,
    Closed,
}

impl StateKind {
    /// The name of the state as text.
    pub open spec fn name_text(self) -> Seq<char> {
        match self {
            StateKind::Ready => "Ready"@,
            StateKind::StringOpen => "StringOpen"@,
            StateKind::StringClosed => "StringClosed"@,
            StateKind::ScalarPrefix => "ScalarPrefix"@,
            StateKind::NumberPending => "NumberPending"@,
            StateKind::StartArray => "StartArray"@,
            StateKind::ArrayElementStringOpen => "ArrayElementStringOpen"@,
            StateKind::ArrayElementStringClosed => "ArrayElementStringClosed"@,
            StateKind::ArrayElementScalarPending => "ArrayElementScalarPending"@,
            StateKind::ArrayElementNestedPending => "ArrayElementNestedPending"@,
            StateKind::AwaitingKey => "AwaitingKey"@,
            StateKind::KeyOpen => "KeyOpen"@,
            StateKind::KeyClosed => "KeyClosed"@,
            StateKind::AfterColon => "AfterColon"@,
            StateKind::ValueStringOpen => "ValueStringOpen"@,
            StateKind::ValueStringClosed => "ValueStringClosed"@,
            StateKind::ValueScalarPending => "ValueScalarPending"@,
            StateKind::ValueNestedPending => "ValueNestedPending"@,
            StateKind::Closed => "Closed"@,
        }
    }

    /// The name of the state.
    pub fn name(&self) -> (r: &'static str)
        ensures
            r@ == self.name_text(),
    {
        match self {
            StateKind::Ready => "Ready",
            StateKind::StringOpen => "StringOpen",
            StateKind::StringClosed => "StringClosed",
            StateKind::ScalarPrefix => "ScalarPrefix",
            StateKind::NumberPending => "NumberPending",
            StateKind::StartArray => "StartArray",
            StateKind::ArrayElementStringOpen => "ArrayElementStringOpen",
            StateKind::ArrayElementStringClosed => "ArrayElementStringClosed",
            StateKind::ArrayElementScalarPending => "ArrayElementScalarPending",
            StateKind::ArrayElementNestedPending => "ArrayElementNestedPending",
            StateKind::AwaitingKey => "AwaitingKey",
            StateKind::KeyOpen => "KeyOpen",
            StateKind::KeyClosed => "KeyClosed",
            StateKind::AfterColon => "AfterColon",
            StateKind::ValueStringOpen => "ValueStringOpen",
            StateKind::ValueStringClosed => "ValueStringClosed",
            StateKind::ValueScalarPending => "ValueScalarPending",
            StateKind::ValueNestedPending => "ValueNestedPending",
            StateKind::Closed => "Closed",
        }
    }
}

/// Where parsing stands within the grammar of one frame.
#[derive(Clone, Debug, PartialEq)]
#[allow(inconsistent_fields)]
pub enum State {
    /// Nothing read yet.
    Ready,
    /// Inside a string literal; the value holds the raw text so far.
    StringOpen,
    /// The string literal is finished.
    StringClosed,
    /// Inside `true`, `false` or `null`.
    ScalarPrefix { buffer: Vec<char> },
    /// Inside a number.
    NumberPending { buffer: Vec<char> },
    /// After `[`, or after a separator inside an array.
    StartArray,
    /// Inside a string that is the element at `index`.
    ArrayElementStringOpen { index: usize },
    /// An element has just been completed.
    ArrayElementStringClosed,
    /// Gathering the text of a scalar that is the element at `index`.
    ArrayElementScalarPending { index: usize, buffer: String },
    /// A nested array or object is being parsed as the next element.
    ArrayElementNestedPending,
    /// After `{`, or after a separator inside an object.
    AwaitingKey,
    /// Inside a key; the buffer holds its raw text so far.
    KeyOpen { buffer: String },
    /// The key is finished and decoded; a colon is due.
    KeyClosed { key: String },
    /// After the colon; the value of `key` is due.
    AfterColon { key: String },
    /// Inside a string that is the value of `key`.
    ValueStringOpen { key: String },
    /// The value of a member has just been completed.
    ValueStringClosed,
    /// Gathering the text of a scalar that is the value of `key`.
    ValueScalarPending { key: String, buffer: String },
    /// A nested array or object is being parsed as the value of `key`.
    ValueNestedPending { key: String },
    /// The frame is fully parsed.
    Closed,
}

/// What a `State` stands for.
pub enum StateView {
    Ready,
    StringOpen,
    StringClosed,
    ScalarPrefix { buffer: Seq<char> },
    NumberPending { buffer: Seq<char> },
    StartArray,
    ArrayElementStringOpen { index: int },
    ArrayElementStringClosed,
    ArrayElementScalarPending { index: int, buffer: Seq<char> },
    ArrayElementNestedPending,
    AwaitingKey,
    KeyOpen { buffer: Seq<char> },
    KeyClosed { key: Seq<char> },
    AfterColon { key: Seq<char> },
    ValueStringOpen { key: Seq<char> },
    ValueStringClosed,
    ValueScalarPending { key: Seq<char>, buffer: Seq<char> },
    ValueNestedPending { key: Seq<char> },
    Closed,
}

impl StateView {
    pub open spec fn kind(self) -> StateKind {
        match self {
            StateView::Ready => StateKind::Ready,
            StateView::StringOpen => StateKind::StringOpen,
            StateView::StringClosed => StateKind::StringClosed,
            StateView::ScalarPrefix { .. } => StateKind::ScalarPrefix,
            StateView::NumberPending { .. } => StateKind::NumberPending,
            StateView::StartArray => StateKind::StartArray,
            StateView::ArrayElementStringOpen { .. } => StateKind::ArrayElementStringOpen,
            StateView::ArrayElementStringClosed => StateKind::ArrayElementStringClosed,
            StateView::ArrayElementScalarPending { .. } => StateKind::ArrayElementScalarPending,
            StateView::ArrayElementNestedPending => StateKind::ArrayElementNestedPending,
            StateView::AwaitingKey => StateKind::AwaitingKey,
            StateView::KeyOpen { .. } => StateKind::KeyOpen,
            StateView::KeyClosed { .. } => StateKind::KeyClosed,
            StateView::AfterColon { .. } => StateKind::AfterColon,
            StateView::ValueStringOpen { .. } => StateKind::ValueStringOpen,
            StateView::ValueStringClosed => StateKind::ValueStringClosed,
            StateView::ValueScalarPending { .. } => StateKind::ValueScalarPending,
            StateView::ValueNestedPending { .. } => StateKind::ValueNestedPending,
            StateView::Closed => StateKind::Closed,
        }
    }

    /// Whether the state is inside a string literal or a key, where every
    /// character but the closing quote belongs to the text.
    pub open spec fn in_text(self) -> bool {
        self is StringOpen || self is ArrayElementStringOpen || self is ValueStringOpen
            || self is KeyOpen
    }
}

impl View for State {
    type V = StateView;

    open spec fn view(&self) -> StateView {
        match self {
            State::Ready => StateView::Ready,
            State::StringOpen => StateView::StringOpen,
            State::StringClosed => StateView::StringClosed,
            State::ScalarPrefix { buffer } => StateView::ScalarPrefix { buffer: buffer@ },
            State::NumberPending { buffer } => StateView::NumberPending { buffer: buffer@ },
            State::StartArray => StateView::StartArray,
            State::ArrayElementStringOpen { index } => StateView::ArrayElementStringOpen {
                index: *index as int,
            },
            State::ArrayElementStringClosed => StateView::ArrayElementStringClosed,
            State::ArrayElementScalarPending {
                index,
                buffer,
            } => StateView::ArrayElementScalarPending { index: *index as int, buffer: buffer@ },
            State::ArrayElementNestedPending => StateView::ArrayElementNestedPending,
            State::AwaitingKey => StateView::AwaitingKey,
            State::KeyOpen { buffer } => StateView::KeyOpen { buffer: buffer@ },
            State::KeyClosed { key } => StateView::KeyClosed { key: key@ },
            State::AfterColon { key } => StateView::AfterColon { key: key@ },
            State::ValueStringOpen { key } => StateView::ValueStringOpen { key: key@ },
            State::ValueStringClosed => StateView::ValueStringClosed,
            State::ValueScalarPending { key, buffer } => StateView::ValueScalarPending {
                key: key@,
                buffer: buffer@,
            },
            State::ValueNestedPending { key } => StateView::ValueNestedPending { key: key@ },
            State::Closed => StateView::Closed,
        }
    }
}

impl State {
    /// The name of the state.
    pub fn kind(&self) -> (k: StateKind)
        ensures
            k == self@.kind(),
    {
        match self {
            State::Ready => StateKind::Ready,
            State::StringOpen => StateKind::StringOpen,
            State::StringClosed => StateKind::StringClosed,
            State::ScalarPrefix { .. } => StateKind::ScalarPrefix,
            State::NumberPending { .. } => StateKind::NumberPending,
            State::StartArray => StateKind::StartArray,
            State::ArrayElementStringOpen { .. } => StateKind::ArrayElementStringOpen,
            State::ArrayElementStringClosed => StateKind::ArrayElementStringClosed,
            State::ArrayElementScalarPending { .. } => StateKind::ArrayElementScalarPending,
            State::ArrayElementNestedPending => StateKind::ArrayElementNestedPending,
            State::AwaitingKey => StateKind::AwaitingKey,
            State::KeyOpen { .. } => StateKind::KeyOpen,
            State::KeyClosed { .. } => StateKind::KeyClosed,
            State::AfterColon { .. } => StateKind::AfterColon,
            State::ValueStringOpen { .. } => StateKind::ValueStringOpen,
            State::ValueStringClosed => StateKind::ValueStringClosed,
            State::ValueScalarPending { .. } => StateKind::ValueScalarPending,
            State::ValueNestedPending { .. } => StateKind::ValueNestedPending,
            State::Closed => StateKind::Closed,
        }
    }
}

/// Why parsing stopped. Every error ends the parse.
#[derive(Clone, Copy, Debug, PartialEq, Eq, Structural)]
pub enum ParseError {
    /// No rule takes this character in this state.
    UnexpectedCharacter { character: char, state: StateKind },
    /// The text gathered for an element or a member's value is no scalar.
    MalformedScalar,
    /// The body of a string or of a key holds an escape that cannot be
    /// decoded.
    InvalidEscape,
    /// More characters came than the configured maximum.
    LengthLimitExceeded,
    /// The nesting is deeper than the configured maximum.
    DepthLimitExceeded,
    /// The frames do not fit together. No input leads here.
    Internal,
}

impl ParseError {
    /// What the error says, as text.
    pub open spec fn message_text(self) -> Seq<char> {
        match self {
            ParseError::UnexpectedCharacter { character, state } => "invalid character "@.push(
                character,
            ) + " in state "@ + state.name_text(),
            ParseError::MalformedScalar => "invalid scalar value"@,
            ParseError::InvalidEscape => "invalid string escape"@,
            ParseError::LengthLimitExceeded => "input length limit exceeded"@,
            ParseError::DepthLimitExceeded => "max depth exceeded"@,
            ParseError::Internal => "invalid parser state"@,
        }
    }

    /// What the error says.
    pub fn message(&self) -> (r: String)
        ensures
            r@ == self.message_text(),
    {
        match self {
            ParseError::UnexpectedCharacter { character, state } => {
                let mut r = "invalid character ".to_owned();
                r.push(*character);
                r.append(" in state ");
                r.append(state.name());
                r
            },
            ParseError::MalformedScalar => "invalid scalar value".to_owned(),
            ParseError::InvalidEscape => "invalid string escape".to_owned(),
            ParseError::LengthLimitExceeded => "input length limit exceeded".to_owned(),
            ParseError::DepthLimitExceeded => "max depth exceeded".to_owned(),
            ParseError::Internal => "invalid parser state".to_owned(),
        }
    }
}

/// One nesting level: the value built so far and where its parse stands.
#[derive(Clone, Debug, PartialEq)]
pub struct Frame {
    pub value: Value,
    pub state: State,
}

/// What a `Frame` stands for.
pub struct FrameView {
    pub value: ValueView,
    pub state: StateView,
}

impl View for Frame {
    type V = FrameView;

    open spec fn view(&self) -> FrameView {
        FrameView { value: self.value@, state: self.state@ }
    }
}

} // verus!
