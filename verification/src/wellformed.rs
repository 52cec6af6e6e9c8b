//! What holds of every frame and every stack that parsing can reach, and
//! the proofs that each step keeps it. One consequence: no input leads to
//! the internal error.

use crate::number::{scalar_read, Reading, Scalar};
use crate::stack::{
    attached, dispatch, fresh_frame, lemma_fold_once, opens_nested, stack_step, suspended,
};
use crate::state::{FrameView, ParseError, StateView};
use crate::transition::{
    array_step, leaf_step, object_step, request, scalar_value, step, step_with, text_step,
    RequestView, TextStep,
};
use crate::value::{
    lemma_member_index, lemma_with_member_wf, member_index, with_member, ValueView,
};
use vstd::prelude::*;

verus! {

/// A frame is well formed when its value is, and the value has the shape
/// that the state speaks of.
pub open spec fn frame_wf(frame: FrameView) -> bool {
    &&& frame.value.wf()
    &&& match frame.state {
        StateView::Ready => frame.value is Null,
        StateView::StringOpen | StateView::StringClosed => frame.value is String,
        StateView::ScalarPrefix { .. } => frame.value is Bool || frame.value is Null,
        StateView::NumberPending { .. } => frame.value is Number,
        StateView::StartArray
        | StateView::ArrayElementStringClosed
        | StateView::ArrayElementNestedPending => frame.value is Array,
        StateView::ArrayElementStringOpen { index } => {
            &&& frame.value matches ValueView::Array(items)
            &&& 0 <= index < items.len()
            &&& items[index] is String
        },
        StateView::ArrayElementScalarPending { index, .. } => {
            &&& frame.value matches ValueView::Array(items)
            &&& 0 <= index < items.len()
        },
        StateView::AwaitingKey
        | StateView::KeyOpen { .. }
        | StateView::KeyClosed { .. }
        | StateView::AfterColon { .. }
        | StateView::ValueStringClosed
        | StateView::ValueScalarPending { .. }
        | StateView::ValueNestedPending { .. } => frame.value is Object,
        StateView::ValueStringOpen { key } => {
            &&& frame.value matches ValueView::Object(members)
            &&& member_index(members, key) matches Some(i)
            &&& members[i].1 is String
        },
        StateView::Closed => true,
    }
}

/// A stack is well formed when it holds the root, every frame is well
/// formed, every frame below the top waits for the value nested in it, and
/// no frame above the root is closed.
pub open spec fn stack_wf(stack: Seq<FrameView>) -> bool {
    &&& stack.len() > 0
    &&& forall|i: int| 0 <= i < stack.len() ==> frame_wf(#[trigger] stack[i])
    &&& forall|i: int|
        0 <= i < stack.len() - 1 ==> attached(#[trigger] stack[i], ValueView::Null) is Some
    &&& stack.len() > 1 ==> !(stack.last().state is Closed)
}

/// Members that keep their keys keep the place of each key.
pub proof fn lemma_member_index_same_keys(
    before: Seq<(Seq<char>, ValueView)>,
    after: Seq<(Seq<char>, ValueView)>,
    key: Seq<char>,
)
    requires
        before.len() == after.len(),
        forall|i: int| 0 <= i < before.len() ==> (#[trigger] before[i]).0 == after[i].0,
    ensures
        member_index(after, key) == member_index(before, key),
    decreases before.len(),
{
    if before.len() > 0 {
        assert(before.last().0 == after.last().0);
        assert forall|i: int| 0 <= i < before.drop_last().len() implies (
        #[trigger] before.drop_last()[i]).0 == after.drop_last()[i].0 by {
            assert(before[i].0 == after[i].0);
        }
        lemma_member_index_same_keys(before.drop_last(), after.drop_last(), key);
    }
}

/// A value put under a key is found there.
pub proof fn lemma_with_member_found(
    members: Seq<(Seq<char>, ValueView)>,
    key: Seq<char>,
    value: ValueView,
)
    ensures
        member_index(with_member(members, key, value), key) matches Some(i) && 0 <= i
            < with_member(members, key, value).len() && with_member(members, key, value)[i].1
            == value,
{
    lemma_member_index(members, key);
    let after = with_member(members, key, value);
    match member_index(members, key) {
        Some(k) => {
            assert forall|i: int| 0 <= i < members.len() implies (#[trigger] members[i]).0
                == after[i].0 by {}
            lemma_member_index_same_keys(members, after, key);
        },
        None => {
            assert(after.drop_last() =~= members);
        },
    }
}

/// A member whose value changes and whose key stays leaves the object well
/// formed, where the new value is.
pub proof fn lemma_member_update_wf(
    members: Seq<(Seq<char>, ValueView)>,
    i: int,
    value: ValueView,
)
    requires
        ValueView::Object(members).wf(),
        0 <= i < members.len(),
        value.wf(),
    ensures
        ValueView::Object(members.update(i, (members[i].0, value))).wf(),
{
    let after = members.update(i, (members[i].0, value));
    assert forall|a: int, b: int|
        0 <= a < after.len() && 0 <= b < after.len() && a != b implies (#[trigger] after[a]).0 != (
    #[trigger] after[b]).0 by {
        assert(after[a].0 == members[a].0);
        assert(after[b].0 == members[b].0);
    }
    assert forall|a: int| 0 <= a < after.len() implies (#[trigger] after[a]).1.wf() by {
        if a != i {
            assert(after[a] == members[a]);
        }
    }
}

pub proof fn lemma_array_push_wf(items: Seq<ValueView>, value: ValueView)
    requires
        ValueView::Array(items).wf(),
        value.wf(),
    ensures
        ValueView::Array(items.push(value)).wf(),
{
    let after = items.push(value);
    assert(ValueView::Array(items)->Array_0 == items);
    assert(forall|i: int| 0 <= i < items.len() ==> (#[trigger] items[i]).wf());
    assert forall|a: int| 0 <= a < after.len() implies (#[trigger] after[a]).wf() by {
        if a < items.len() {
            assert(after[a] == items[a]);
        }
    }
}

pub proof fn lemma_array_update_wf(items: Seq<ValueView>, i: int, value: ValueView)
    requires
        ValueView::Array(items).wf(),
        0 <= i < items.len(),
        value.wf(),
    ensures
        ValueView::Array(items.update(i, value)).wf(),
{
    let after = items.update(i, value);
    assert(ValueView::Array(items)->Array_0 == items);
    assert(forall|i: int| 0 <= i < items.len() ==> (#[trigger] items[i]).wf());
    assert forall|a: int| 0 <= a < after.len() implies (#[trigger] after[a]).wf() by {
        if a != i {
            assert(after[a] == items[a]);
        }
    }
}

proof fn lemma_leaf_keeps_frame(
    frame: FrameView,
    c: char,
    decoded: Option<Seq<char>>,
    scalar: Option<Scalar>,
)
    requires
        frame_wf(frame),
        !(frame.value is Array),
        !(frame.value is Object),
    ensures
        match leaf_step(frame, c, decoded, scalar) {
            Ok(next) => frame_wf(next),
            Err(e) => e != ParseError::Internal,
        },
{
    match leaf_step(frame, c, decoded, scalar) {
        Ok(next) => {
            if next.value is Array {
                assert(next.value->Array_0.len() == 0);
            }
            if next.value is Object {
                assert(next.value->Object_0.len() == 0);
            }
        },
        Err(_) => {},
    }
}

proof fn lemma_array_keeps_frame(
    items: Seq<ValueView>,
    state: StateView,
    c: char,
    decoded: Option<Seq<char>>,
    scalar: Option<Scalar>,
)
    requires
        frame_wf(FrameView { value: ValueView::Array(items), state }),
    ensures
        match array_step(items, state, c, decoded, scalar) {
            Ok(next) => frame_wf(next),
            Err(e) => e != ParseError::Internal,
        },
{
    lemma_array_push_wf(items, ValueView::String(Seq::empty()));
    lemma_array_push_wf(items, ValueView::Null);
    match state {
        StateView::ArrayElementStringOpen { index } => {
            match text_step(items[index]->String_0, c, decoded) {
                TextStep::Grow(t) => {
                    lemma_array_update_wf(items, index, ValueView::String(t));
                },
                TextStep::Close(t) => {
                    lemma_array_update_wf(items, index, ValueView::String(t));
                },
                TextStep::Invalid => {},
            }
        },
        StateView::ArrayElementScalarPending { index, buffer } => {
            if scalar is Some {
                lemma_array_update_wf(items, index, scalar_value(scalar->0));
            }
        },
        _ => {},
    }
}

proof fn lemma_object_keeps_frame(
    members: Seq<(Seq<char>, ValueView)>,
    state: StateView,
    c: char,
    decoded: Option<Seq<char>>,
    scalar: Option<Scalar>,
)
    requires
        frame_wf(FrameView { value: ValueView::Object(members), state }),
    ensures
        match object_step(members, state, c, decoded, scalar) {
            Ok(next) => frame_wf(next),
            Err(e) => e != ParseError::Internal,
        },
{
    match state {
        StateView::KeyOpen { buffer } => {
            if decoded is Some {
                lemma_with_member_wf(members, decoded->0, ValueView::Null);
            }
        },
        StateView::AfterColon { key } => {
            lemma_with_member_wf(members, key, ValueView::String(Seq::empty()));
            lemma_with_member_found(members, key, ValueView::String(Seq::empty()));
        },
        StateView::ValueStringOpen { key } => {
            lemma_member_index(members, key);
            let i = member_index(members, key)->0;
            match text_step(members[i].1->String_0, c, decoded) {
                TextStep::Grow(t) => {
                    let after = members.update(i, (members[i].0, ValueView::String(t)));
                    lemma_member_update_wf(members, i, ValueView::String(t));
                    assert forall|a: int| 0 <= a < members.len() implies (#[trigger] members[a]).0
                        == after[a].0 by {}
                    lemma_member_index_same_keys(members, after, key);
                },
                TextStep::Close(t) => {
                    lemma_member_update_wf(members, i, ValueView::String(t));
                },
                TextStep::Invalid => {},
            }
        },
        StateView::ValueScalarPending { key, buffer } => {
            if scalar is Some {
                lemma_with_member_wf(members, key, scalar_value(scalar->0));
            }
        },
        _ => {},
    }
}

/// A step of a well-formed frame gives a well-formed frame, and never the
/// internal error, whatever the JSON text reader answered.
pub proof fn lemma_step_with_keeps_frame(
    frame: FrameView,
    c: char,
    decoded: Option<Seq<char>>,
    reading: Option<Reading>,
)
    requires
        frame_wf(frame),
    ensures
        match step_with(frame, c, decoded, reading) {
            Ok(next) => frame_wf(next),
            Err(e) => e != ParseError::Internal,
        },
{
    let scalar = scalar_read(reading);
    match frame.value {
        ValueView::Array(items) => lemma_array_keeps_frame(items, frame.state, c, decoded, scalar),
        ValueView::Object(members) => lemma_object_keeps_frame(
            members,
            frame.state,
            c,
            decoded,
            scalar,
        ),
        _ => lemma_leaf_keeps_frame(frame, c, decoded, scalar),
    }
}

/// A step of a well-formed frame gives a well-formed frame, and never the
/// internal error.
pub proof fn lemma_step_keeps_frame(frame: FrameView, c: char)
    requires
        frame_wf(frame),
    ensures
        match step(frame, c) {
            Ok(next) => frame_wf(next),
            Err(e) => e != ParseError::Internal,
        },
{
    match request(frame, c) {
        RequestView::Nothing => lemma_step_with_keeps_frame(frame, c, None, None),
        RequestView::Decode(text) => lemma_step_with_keeps_frame(
            frame,
            c,
            crate::json_text::json_string_decoded(text),
            None,
        ),
        RequestView::Scalar(text) => lemma_step_with_keeps_frame(
            frame,
            c,
            None,
            crate::json_text::json_value_read(text),
        ),
    }
}

/// The value of a closed child fits into a parent that waits for it.
proof fn lemma_attached_wf(parent: FrameView, child: ValueView)
    requires
        frame_wf(parent),
        child.wf(),
        attached(parent, ValueView::Null) is Some,
    ensures
        attached(parent, child) is Some,
        frame_wf(attached(parent, child)->0),
        !(attached(parent, child)->0.state is Closed),
{
    match (parent.value, parent.state) {
        (ValueView::Array(items), StateView::ArrayElementNestedPending) => {
            lemma_array_push_wf(items, child);
        },
        (ValueView::Object(members), StateView::ValueNestedPending { key }) => {
            lemma_with_member_wf(members, key, child);
        },
        _ => {},
    }
}

/// Handing a character to the top of a well-formed stack, the frames below
/// it waiting, gives a well-formed stack and never the internal error.
proof fn lemma_dispatch_keeps_stack(stack: Seq<FrameView>, c: char)
    requires
        stack.len() > 0,
        forall|i: int| 0 <= i < stack.len() ==> frame_wf(#[trigger] stack[i]),
        forall|i: int|
            0 <= i < stack.len() - 1 ==> attached(#[trigger] stack[i], ValueView::Null) is Some,
    ensures
        dispatch(stack, c).1 != Err::<(), ParseError>(ParseError::Internal),
        dispatch(stack, c).1 is Ok ==> stack_wf(dispatch(stack, c).0),
        dispatch(stack, c).1 is Err ==> dispatch(stack, c).0 == stack,
{
    let n = stack.len() as int;
    lemma_step_keeps_frame(stack.last(), c);
    match step(stack.last(), c) {
        Ok(frame) => {
            let stepped = stack.drop_last().push(frame);
            lemma_fold_once(stepped);
            assert(stepped.last() == frame);
            if n > 1 && frame.state is Closed {
                assert(stepped[n - 2] == stack[n - 2]);
                lemma_attached_wf(stack[n - 2], frame.value);
                let parent = attached(stack[n - 2], frame.value)->0;
                let folded = stepped.take(n - 2).push(parent);
                assert forall|i: int| 0 <= i < folded.len() implies frame_wf(
                    #[trigger] folded[i],
                ) by {
                    if i < n - 2 {
                        assert(folded[i] == stack[i]);
                    }
                }
                assert forall|i: int| 0 <= i < folded.len() - 1 implies attached(
                    #[trigger] folded[i],
                    ValueView::Null,
                ) is Some by {
                    assert(folded[i] == stack[i]);
                }
            } else {
                assert forall|i: int| 0 <= i < stepped.len() implies frame_wf(
                    #[trigger] stepped[i],
                ) by {
                    if i < n - 1 {
                        assert(stepped[i] == stack[i]);
                    }
                }
                assert forall|i: int| 0 <= i < stepped.len() - 1 implies attached(
                    #[trigger] stepped[i],
                    ValueView::Null,
                ) is Some by {
                    assert(stepped[i] == stack[i]);
                }
            }
        },
        Err(_) => {},
    }
}

/// Every character keeps a well-formed stack well formed, and no character
/// leads to the internal error. After an error the stack is as it was.
pub proof fn lemma_stack_step_keeps(stack: Seq<FrameView>, c: char)
    requires
        stack_wf(stack),
    ensures
        stack_wf(stack_step(stack, c).0),
        stack_step(stack, c).1 != Err::<(), ParseError>(ParseError::Internal),
        stack_step(stack, c).1 is Err ==> stack_step(stack, c).0 == stack,
{
    let n = stack.len() as int;
    if opens_nested(stack.last(), c) {
        let top = suspended(stack.last());
        let pushed = stack.drop_last().push(top).push(fresh_frame());
        assert(pushed.last() == fresh_frame());
        assert forall|i: int| 0 <= i < pushed.len() implies frame_wf(#[trigger] pushed[i]) by {
            if i < n - 1 {
                assert(pushed[i] == stack[i]);
            } else if i == n - 1 {
                assert(pushed[i] == top);
            }
        }
        assert forall|i: int| 0 <= i < pushed.len() - 1 implies attached(
            #[trigger] pushed[i],
            ValueView::Null,
        ) is Some by {
            if i < n - 1 {
                assert(pushed[i] == stack[i]);
            } else {
                assert(pushed[i] == top);
            }
        }
        lemma_dispatch_keeps_stack(pushed, c);
        assert(step(fresh_frame(), c) is Ok);
    } else {
        lemma_dispatch_keeps_stack(stack, c);
    }
}

} // verus!
