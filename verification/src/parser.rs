//! The two ways in: a parser that is fed one character at a time, and the
//! functions that run it over a whole text.

use crate::stack::{add_char_into_object, fresh_frame, stack_step, stack_view};
use crate::state::{Frame, FrameView, ParseError, State};
use crate::value::{Value, ValueView};
use crate::wellformed::{frame_wf, stack_wf};
use vstd::prelude::*;

verus! {

/// What a `JsonStreamParser` stands for.
pub struct ParserView {
    /// The frames, the document's root first.
    pub stack: Seq<FrameView>,
    /// How many characters were counted against the length limit.
    pub processed: nat,
    /// The greatest number of frames that the stack may hold.
    pub max_depth: Option<nat>,
    /// The greatest number of characters that are taken.
    pub max_length: Option<nat>,
}

pub open spec fn limit_view(limit: Option<usize>) -> Option<nat> {
    match limit {
        Some(n) => Some(n as nat),
        None => None,
    }
}

impl ParserView {
    /// A parser that has read nothing.
    pub open spec fn new(max_depth: Option<nat>, max_length: Option<nat>) -> ParserView {
        ParserView { stack: seq![fresh_frame()], processed: 0, max_depth, max_length }
    }

    /// The stack is well formed and the count of characters is within the
    /// length limit.
    pub open spec fn wf(self) -> bool {
        &&& stack_wf(self.stack)
        &&& self.max_length matches Some(limit) ==> self.processed <= limit
    }

    /// The value of the document as far as it has been read.
    pub open spec fn result(self) -> ValueView
        recommends
            self.stack.len() > 0,
    {
        self.stack[0].value
    }

    /// The parser after one character, and whether the character was taken.
    ///
    /// A character beyond the length limit is refused and changes nothing.
    /// Any other character is counted, where there is a length limit, and
    /// goes to the stack of frames. After that the depth limit is checked:
    /// a stack that has grown beyond it is an error, and stays as it is.
    pub open spec fn step(self, c: char) -> (ParserView, Result<(), ParseError>) {
        if self.max_length is Some && self.processed >= self.max_length->0 {
            (self, Err(ParseError::LengthLimitExceeded))
        } else {
            let (stack, outcome) = stack_step(self.stack, c);
            let next = ParserView {
                stack,
                processed: if self.max_length is Some {
                    self.processed + 1
                } else {
                    self.processed
                },
                max_depth: self.max_depth,
                max_length: self.max_length,
            };
            if outcome is Ok && self.max_depth is Some && stack.len() > self.max_depth->0 {
                (next, Err(ParseError::DepthLimitExceeded))
            } else {
                (next, outcome)
            }
        }
    }

    /// The parser after a run of characters, stopping at the first one that
    /// is not taken.
    pub open spec fn feed(self, chars: Seq<char>) -> (ParserView, Result<(), ParseError>)
        decreases chars.len(),
    {
        if chars.len() == 0 {
            (self, Ok(()))
        } else {
            let (next, outcome) = self.step(chars[0]);
            if outcome is Ok {
                next.feed(chars.drop_first())
            } else {
                (next, outcome)
            }
        }
    }
}

/// The stack after a run of characters, stopping at the first one that is
/// not taken.
pub open spec fn feed(stack: Seq<FrameView>, chars: Seq<char>) -> (
    Seq<FrameView>,
    Result<(), ParseError>,
)
    decreases chars.len(),
{
    if chars.len() == 0 {
        (stack, Ok(()))
    } else {
        let (next, outcome) = stack_step(stack, chars[0]);
        if outcome is Ok {
            feed(next, chars.drop_first())
        } else {
            (next, outcome)
        }
    }
}

/// What `parse_stream` returns for a text: the root value after the whole
/// text, or the first error.
pub open spec fn parsed(chars: Seq<char>) -> Result<ValueView, ParseError> {
    let (stack, outcome) = feed(seq![fresh_frame()], chars);
    match outcome {
        Ok(()) => Ok(stack[0].value),
        Err(e) => Err(e),
    }
}

/// What `parse_stream_with_limits` returns for a text.
pub open spec fn parsed_with_limits(
    chars: Seq<char>,
    max_depth: Option<nat>,
    max_length: Option<nat>,
) -> Result<ValueView, ParseError> {
    let (parser, outcome) = ParserView::new(max_depth, max_length).feed(chars);
    match outcome {
        Ok(()) => Ok(parser.result()),
        Err(e) => Err(e),
    }
}

/// Whether what a one-shot parse returned is what the model gives.
pub open spec fn gives(
    r: Result<Value, ParseError>,
    expected: Result<ValueView, ParseError>,
) -> bool {
    match expected {
        Ok(v) => r is Ok && r->Ok_0@ == v,
        Err(e) => r is Err && r->Err_0 == e,
    }
}

/// A parser that is fed one character at a time and holds, at every
/// point, the value read so far.
pub struct JsonStreamParser {
    stack: Vec<Frame>,
    processed_chars: usize,
    max_depth: Option<usize>,
    max_length: Option<usize>,
}

impl View for JsonStreamParser {
    type V = ParserView;

    closed spec fn view(&self) -> ParserView {
        ParserView {
            stack: stack_view(self.stack@),
            processed: self.processed_chars as nat,
            max_depth: limit_view(self.max_depth),
            max_length: limit_view(self.max_length),
        }
    }
}

impl JsonStreamParser {
    /// A parser without limits.
    pub fn new() -> (parser: JsonStreamParser)
        ensures
            parser@ == ParserView::new(None, None),
            parser@.wf(),
    {
        JsonStreamParser::with_limits(None, None)
    }

    /// A parser that refuses a stack of more than `max_depth` frames and
    /// more than `max_length` characters.
    pub fn with_limits(max_depth: Option<usize>, max_length: Option<usize>) -> (parser:
        JsonStreamParser)
        ensures
            parser@ == ParserView::new(limit_view(max_depth), limit_view(max_length)),
            parser@.wf(),
    {
        let mut stack: Vec<Frame> = Vec::new();
        stack.push(Frame { value: Value::Null, state: State::Ready });
        assert(stack_view(stack@) =~= seq![fresh_frame()]);
        JsonStreamParser { stack, processed_chars: 0, max_depth, max_length }
    }

    /// Takes one character. After an error the parser can still be asked
    /// for its result.
    pub fn add_char(&mut self, current_char: char) -> (r: Result<(), ParseError>)
        requires
            old(self)@.wf(),
        ensures
            (final(self)@, r) == old(self)@.step(current_char),
            final(self)@.wf(),
            r != Err::<(), ParseError>(ParseError::Internal),
    {
        match self.max_length {
            Some(limit) => {
                if self.processed_chars >= limit {
                    return Err(ParseError::LengthLimitExceeded);
                }
                self.processed_chars = self.processed_chars + 1;
            },
            None => {},
        }
        let outcome = add_char_into_object(&mut self.stack, current_char);
        if outcome.is_err() {
            return outcome;
        }
        match self.max_depth {
            Some(max_depth) => {
                if self.stack.len() > max_depth {
                    return Err(ParseError::DepthLimitExceeded);
                }
            },
            None => {},
        }
        outcome
    }

    /// The value of the document as far as it has been read. It can be
    /// asked for at any time, also after an error. A string that is still
    /// open shows its raw text, escapes not yet decoded.
    pub fn get_result(&self) -> (value: &Value)
        requires
            self@.wf(),
        ensures
            value@ == self@.result(),
            value@.wf(),
    {
        assert(frame_wf(stack_view(self.stack@)[0]));
        &self.stack[0].value
    }
}

impl Default for JsonStreamParser {
    fn default() -> (parser: JsonStreamParser)
        ensures
            parser@ == ParserView::new(None, None),
            parser@.wf(),
    {
        JsonStreamParser::new()
    }
}

/// Parses a whole text and returns the root value as far as the text gives
/// it, also where the text stops early. The first character that is not
/// taken ends the parse with its error.
pub fn parse_stream(json_string: &str) -> (r: Result<Value, ParseError>)
    ensures
        gives(r, parsed(json_string@)),
        r matches Ok(value) ==> value@.wf(),
        !(r matches Err(ParseError::Internal)),
{
    let mut stack: Vec<Frame> = Vec::new();
    stack.push(Frame { value: Value::Null, state: State::Ready });
    assert(stack_view(stack@) =~= seq![fresh_frame()]);
    assert(json_string@.skip(0) =~= json_string@);
    for c in it: json_string.chars()
        invariant
            it.seq() == json_string@,
            stack_wf(stack_view(stack@)),
            feed(seq![fresh_frame()], json_string@) == feed(
                stack_view(stack@),
                json_string@.skip(it.index()),
            ),
    {
        proof {
            let rest = json_string@.skip(it.index());
            assert(rest[0] == c);
            assert(rest.drop_first() =~= json_string@.skip(it.index() + 1));
        }
        match add_char_into_object(&mut stack, c) {
            Err(e) => {
                return Err(e);
            },
            Ok(()) => {},
        }
    }
    assert(frame_wf(stack_view(stack@)[0]));
    let root = stack.swap_remove(0);
    Ok(root.value)
}

/// Parses a whole text under limits: at most `max_depth` frames on the
/// stack and at most `max_length` characters.
pub fn parse_stream_with_limits(
    json_string: &str,
    max_depth: Option<usize>,
    max_length: Option<usize>,
) -> (r: Result<Value, ParseError>)
    ensures
        gives(r, parsed_with_limits(json_string@, limit_view(max_depth), limit_view(max_length))),
        r matches Ok(value) ==> value@.wf(),
        !(r matches Err(ParseError::Internal)),
{
    let mut parser = JsonStreamParser::with_limits(max_depth, max_length);
    let ghost start = parser@;
    assert(json_string@.skip(0) =~= json_string@);
    for c in it: json_string.chars()
        invariant
            it.seq() == json_string@,
            parser@.wf(),
            start == ParserView::new(limit_view(max_depth), limit_view(max_length)),
            start.feed(json_string@) == parser@.feed(json_string@.skip(it.index())),
    {
        let ghost before = parser@;
        proof {
            let rest = json_string@.skip(it.index());
            assert(rest[0] == c);
            assert(rest.drop_first() =~= json_string@.skip(it.index() + 1));
            assert(before.feed(rest) == (if before.step(c).1 is Ok {
                before.step(c).0.feed(rest.drop_first())
            } else {
                before.step(c)
            }));
        }
        match parser.add_char(c) {
            Err(e) => {
                return Err(e);
            },
            Ok(()) => {},
        }
    }
    assert(frame_wf(stack_view(parser.stack@)[0]));
    let mut stack = parser.stack;
    let root = stack.swap_remove(0);
    Ok(root.value)
}

} // verus!
