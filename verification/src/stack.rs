//! The stack of frames: one frame for each nesting level, the document's
//! root at the bottom. A character goes to the top frame; `{` or `[` in a
//! value position opens a new frame first, and a frame that closes is
//! folded into the one below it.

use crate::state::{Frame, FrameView, ParseError, State, StateView};
use crate::transition::{process_char, step};
use crate::value::{
    items_view, lemma_array_view, lemma_object_view, set_member, with_member, Value, ValueView,
};
use crate::wellformed::{lemma_stack_step_keeps, stack_wf};
use vstd::prelude::*;

verus! {

/// The views of the frames of a stack, bottom first.
pub open spec fn stack_view(stack: Seq<Frame>) -> Seq<FrameView> {
    Seq::new(stack.len(), |i: int| stack[i]@)
}

/// The frame that every nesting level starts from.
pub open spec fn fresh_frame() -> FrameView {
    FrameView { value: ValueView::Null, state: StateView::Ready }
}

/// Whether `c` opens a nested value in `frame`: a brace or a bracket where
/// an array expects an element or an object expects a member's value.
pub open spec fn opens_nested(frame: FrameView, c: char) -> bool {
    (c == '{' || c == '[') && ((frame.value is Array && frame.state is StartArray) || (
    frame.value is Object && frame.state is AfterColon))
}

/// The frame while the value nested in it is being parsed.
pub open spec fn suspended(frame: FrameView) -> FrameView {
    FrameView {
        value: frame.value,
        state: match frame.state {
            StateView::StartArray => StateView::ArrayElementNestedPending,
            StateView::AfterColon { key } => StateView::ValueNestedPending { key },
            other => other,
        },
    }
}

/// The parent after the value of its closed child has been put into it:
/// appended to an array, or set under the key that an object kept for it.
/// `None` where the parent was not waiting for a nested value.
pub open spec fn attached(parent: FrameView, child: ValueView) -> Option<FrameView> {
    match (parent.value, parent.state) {
        (ValueView::Array(items), StateView::ArrayElementNestedPending) => Some(
            FrameView {
                value: ValueView::Array(items.push(child)),
                state: StateView::ArrayElementStringClosed,
            },
        ),
        (ValueView::Object(members), StateView::ValueNestedPending { key }) => Some(
            FrameView {
                value: ValueView::Object(with_member(members, key, child)),
                state: StateView::ValueStringClosed,
            },
        ),
        _ => None,
    }
}

/// Folds closed frames into their parents: while the stack holds more than
/// the root and its top frame is closed, the top frame leaves and its value
/// goes into the frame below. Where that frame was not waiting for it, the
/// stack stays and the outcome is an error.
pub open spec fn fold_closed(stack: Seq<FrameView>) -> (Seq<FrameView>, Result<(), ParseError>)
    decreases stack.len(),
{
    if stack.len() > 1 && stack.last().state is Closed {
        match attached(stack[stack.len() - 2], stack.last().value) {
            Some(parent) => fold_closed(stack.take(stack.len() - 2).push(parent)),
            None => (stack, Err(ParseError::Internal)),
        }
    } else {
        (stack, Ok(()))
    }
}

/// Hands `c` to the top frame and folds what closed. An error of the top
/// frame leaves the stack as it was.
pub open spec fn dispatch(stack: Seq<FrameView>, c: char) -> (
    Seq<FrameView>,
    Result<(), ParseError>,
)
    recommends
        stack.len() > 0,
{
    match step(stack.last(), c) {
        Ok(frame) => fold_closed(stack.drop_last().push(frame)),
        Err(e) => (stack, Err(e)),
    }
}

/// The stack after one character, and whether the character was taken.
pub open spec fn stack_step(stack: Seq<FrameView>, c: char) -> (
    Seq<FrameView>,
    Result<(), ParseError>,
) {
    if stack.len() == 0 {
        (stack, Err(ParseError::Internal))
    } else if opens_nested(stack.last(), c) {
        dispatch(stack.drop_last().push(suspended(stack.last())).push(fresh_frame()), c)
    } else {
        dispatch(stack, c)
    }
}

/// A fold ends after one frame: the parent that took a value is not closed.
pub proof fn lemma_fold_once(stack: Seq<FrameView>)
    ensures
        fold_closed(stack) == (if stack.len() > 1 && stack.last().state is Closed {
            match attached(stack[stack.len() - 2], stack.last().value) {
                Some(parent) => (stack.take(stack.len() - 2).push(parent), Ok::<(), ParseError>(())),
                None => (stack, Err::<(), ParseError>(ParseError::Internal)),
            }
        } else {
            (stack, Ok::<(), ParseError>(()))
        }),
{
    if stack.len() > 1 && stack.last().state is Closed {
        match attached(stack[stack.len() - 2], stack.last().value) {
            Some(parent) => {
                let folded = stack.take(stack.len() - 2).push(parent);
                assert(folded.last() == parent);
                assert(!(parent.state is Closed));
                assert(fold_closed(folded) == (folded, Ok::<(), ParseError>(())));
            },
            None => {},
        }
    }
}

fn is_closed(state: &State) -> (r: bool)
    ensures
        r == (state@ is Closed),
{
    match state {
        State::Closed => true,
        _ => false,
    }
}

fn opens_nested_frame(frame: &Frame, c: char) -> (r: bool)
    ensures
        r == opens_nested(frame@, c),
{
    if c == '{' || c == '[' {
        match (&frame.value, &frame.state) {
            (Value::Array(_), State::StartArray) => true,
            (Value::Object(_), State::AfterColon { .. }) => true,
            _ => false,
        }
    } else {
        false
    }
}

/// Marks a frame as waiting for the value nested in it.
fn suspend(state: &mut State)
    ensures
        final(state)@ == (match old(state)@ {
            StateView::StartArray => StateView::ArrayElementNestedPending,
            StateView::AfterColon { key } => StateView::ValueNestedPending { key },
            other => other,
        }),
{
    let mut current = State::Ready;
    core::mem::swap(state, &mut current);
    *state = match current {
        State::StartArray => State::ArrayElementNestedPending,
        State::AfterColon { key } => State::ValueNestedPending { key },
        other => other,
    };
}

fn awaits_nested(frame: &Frame) -> (r: bool)
    ensures
        r == (attached(frame@, ValueView::Null) is Some),
        forall|v: ValueView| (attached(frame@, v) is Some) == r,
{
    match (&frame.value, &frame.state) {
        (Value::Array(_), State::ArrayElementNestedPending) => true,
        (Value::Object(_), State::ValueNestedPending { .. }) => true,
        _ => false,
    }
}

/// Puts the value of a closed child into its parent.
fn attach(parent: &mut Frame, child: Value)
    requires
        attached(old(parent)@, child@) is Some,
    ensures
        Some(final(parent)@) == attached(old(parent)@, child@),
{
    let mut current = State::Ready;
    core::mem::swap(&mut parent.state, &mut current);
    match &mut parent.value {
        Value::Array(items) => {
            proof {
                lemma_array_view(*items);
            }
            let ghost before = items_view(items@);
            items.push(child);
            proof {
                assert(items_view(items@) =~= before.push(child@));
                lemma_array_view(*items);
            }
            parent.state = State::ArrayElementStringClosed;
        },
        Value::Object(members) => {
            proof {
                lemma_object_view(*members);
            }
            match current {
                State::ValueNestedPending { key } => {
                    set_member(members, key, child);
                },
                _ => {},
            }
            proof {
                lemma_object_view(*members);
            }
            parent.state = State::ValueStringClosed;
        },
        _ => {},
    }
}

/// Folds the top frame into the one below it, where it has closed.
fn fold_top(stack: &mut Vec<Frame>) -> (r: Result<(), ParseError>)
    ensures
        (stack_view(final(stack)@), r) == fold_closed(stack_view(old(stack)@)),
{
    let ghost before = stack_view(stack@);
    proof {
        lemma_fold_once(before);
    }
    let n: usize = stack.len();
    if n > 1 && is_closed(&stack[n - 1].state) {
        if !awaits_nested(&stack[n - 2]) {
            return Err(ParseError::Internal);
        }
        match stack.pop() {
            Some(child) => {
                attach(&mut stack[n - 2], child.value);
                assert(stack_view(stack@) =~= before.take(n - 2).push(stack@[n - 2]@));
            },
            None => {},
        }
    }
    Ok(())
}

/// Hands `c` to the top frame and folds what closed.
fn dispatch_char(stack: &mut Vec<Frame>, c: char) -> (r: Result<(), ParseError>)
    requires
        old(stack).len() > 0,
    ensures
        (stack_view(final(stack)@), r) == dispatch(stack_view(old(stack)@), c),
{
    let ghost before = stack_view(stack@);
    let n: usize = stack.len();
    let top = &mut stack[n - 1];
    let outcome = process_char(&mut top.value, &mut top.state, c);
    match outcome {
        Err(e) => {
            assert(stack_view(stack@) =~= before);
            Err(e)
        },
        Ok(()) => {
            assert(stack_view(stack@) =~= before.drop_last().push(stack@[n - 1]@));
            fold_top(stack)
        },
    }
}

/// Takes one character into the stack of frames.
///
/// A brace or a bracket in a value position marks the top frame as waiting,
/// pushes a fresh frame and hands the same character to it. Any other
/// character goes to the top frame. A frame that closes is folded into its
/// parent before the function returns.
pub fn add_char_into_object(stack: &mut Vec<Frame>, c: char) -> (r: Result<(), ParseError>)
    ensures
        (stack_view(final(stack)@), r) == stack_step(stack_view(old(stack)@), c),
        stack_wf(stack_view(old(stack)@)) ==> stack_wf(stack_view(final(stack)@)) && r != Err::<
            (),
            ParseError,
        >(ParseError::Internal),
{
    let ghost before = stack_view(stack@);
    proof {
        if stack_wf(before) {
            lemma_stack_step_keeps(before, c);
        }
    }
    let n: usize = stack.len();
    if n == 0 {
        return Err(ParseError::Internal);
    }
    if opens_nested_frame(&stack[n - 1], c) {
        suspend(&mut stack[n - 1].state);
        stack.push(Frame { value: Value::Null, state: State::Ready });
        assert(stack_view(stack@) =~= before.drop_last().push(suspended(before.last())).push(
            fresh_frame(),
        ));
    }
    dispatch_char(stack, c)
}

} // verus!
