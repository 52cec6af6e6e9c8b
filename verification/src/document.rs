//! Documents as an encoder writes them, and the proof that the parser
//! reads such a document back.
//!
//! What the JSON text reader makes of a leaf is not known here. A document
//! therefore carries, for each string and key, its raw body beside the text
//! it stands for, and for each scalar inside a container its text beside
//! its value; `readable` asks that the reader reads each of them back.

use crate::json_text::{json_string_decoded, json_value_read};
use crate::number::{is_digit, scalar_read, Number, Scalar};
use crate::parser::{feed, parsed};
use crate::stack::{
    attached, fold_closed, fresh_frame, lemma_fold_once, opens_nested, stack_step, suspended,
};
use crate::state::{FrameView, ParseError, StateView};
use crate::text::ends_escaped;
use crate::transition::{
    closes_text, has_exponent, is_whitespace, literal_text, open_text, reparsed_number, request,
    scalar_value, step,
};
use crate::value::{lemma_member_index, member_index, with_member, ValueView};
use crate::wellformed::{lemma_member_index_same_keys, lemma_with_member_found};
use vstd::prelude::*;

verus! {

/// A member of an object in a document.
pub struct Member {
    /// The body of the key as it is written, escapes in it.
    pub raw_key: Seq<char>,
    /// The key that the body stands for.
    pub key: Seq<char>,
    pub value: Doc,
}

/// A JSON document in its compact form.
pub enum Doc {
    /// A number, `true`, `false` or `null`, by its text.
    Scalar { text: Seq<char>, value: Scalar },
    /// A string, by the body between its quotes.
    Text { raw: Seq<char>, text: Seq<char> },
    Array { items: Seq<Doc> },
    Object { members: Seq<Member> },
}

pub open spec fn quoted(raw: Seq<char>) -> Seq<char> {
    seq!['"'] + raw + seq!['"']
}

/// The parts with a comma between each two.
pub open spec fn joined(parts: Seq<Seq<char>>) -> Seq<char>
    decreases parts.len(),
{
    if parts.len() == 0 {
        Seq::empty()
    } else if parts.len() == 1 {
        parts[0]
    } else {
        parts[0] + seq![','] + joined(parts.drop_first())
    }
}

/// A document as it is written: a leaf by its text, a container by the
/// texts of what it holds.
pub enum Written {
    Leaf(Seq<char>),
    Array(Seq<Seq<char>>),
    Object(Seq<Seq<char>>),
}

impl Written {
    /// The text: the parts of a container with a comma between each two,
    /// in brackets or braces.
    pub open spec fn text(self) -> Seq<char> {
        match self {
            Written::Leaf(text) => text,
            Written::Array(parts) => seq!['['] + joined(parts) + seq![']'],
            Written::Object(parts) => seq!['{'] + joined(parts) + seq!['}'],
        }
    }
}

/// How a document is written: a scalar by its text, a string by its body
/// in quotes, an array by the texts of its elements, an object by the texts
/// of its members, each the key in quotes, a colon and the value.
pub open spec fn written(doc: Doc) -> Written
    decreases doc,
{
    match doc {
        Doc::Scalar { text, .. } => Written::Leaf(text),
        Doc::Text { raw, .. } => Written::Leaf(quoted(raw)),
        Doc::Array { items } => Written::Array(
            Seq::new(
                items.len(),
                |i: int|
                    if 0 <= i < items.len() {
                        written(items[i]).text()
                    } else {
                        Seq::empty()
                    },
            ),
        ),
        Doc::Object { members } => Written::Object(
            Seq::new(
                members.len(),
                |i: int|
                    if 0 <= i < members.len() {
                        quoted(members[i].raw_key) + seq![':'] + written(members[i].value).text()
                    } else {
                        Seq::empty()
                    },
            ),
        ),
    }
}

/// The text of a document: no whitespace, a comma between the elements of
/// an array and between the members of an object, a colon after each key.
pub open spec fn doc_text(doc: Doc) -> Seq<char> {
    written(doc).text()
}

/// The value that a document stands for.
pub open spec fn doc_value(doc: Doc) -> ValueView
    decreases doc,
{
    match doc {
        Doc::Scalar { value, .. } => scalar_value(value),
        Doc::Text { text, .. } => ValueView::String(text),
        Doc::Array { items } => ValueView::Array(
            Seq::new(
                items.len(),
                |i: int|
                    if 0 <= i < items.len() {
                        doc_value(items[i])
                    } else {
                        ValueView::Null
                    },
            ),
        ),
        Doc::Object { members } => ValueView::Object(
            Seq::new(
                members.len(),
                |i: int|
                    if 0 <= i < members.len() {
                        (members[i].key, doc_value(members[i].value))
                    } else {
                        (Seq::empty(), ValueView::Null)
                    },
            ),
        ),
    }
}

/// The text of a scalar as an encoder writes it: not empty, no whitespace,
/// no comma and no closing bracket or brace in it, and no quote, brace or
/// bracket at its start.
pub open spec fn plain_scalar_text(text: Seq<char>) -> bool {
    &&& text.len() > 0
    &&& text[0] != '"' && text[0] != '{' && text[0] != '['
    &&& forall|i: int|
        0 <= i < text.len() ==> !is_whitespace(#[trigger] text[i]) && text[i] != ',' && text[i]
            != ']' && text[i] != '}'
}

/// The body of a string as an encoder writes it, read back by the reader:
/// every quote in it is escaped, it does not end in the middle of an
/// escape, and the reader decodes it to `text`.
pub open spec fn readable_text(raw: Seq<char>, text: Seq<char>) -> bool {
    &&& forall|i: int| 0 <= i < raw.len() && raw[i] == '"' ==> ends_escaped(#[trigger] raw.take(i))
    &&& !ends_escaped(raw)
    &&& json_string_decoded(raw) == Some(text)
}

/// A document whose leaves the JSON text reader reads back, and whose
/// objects hold each key once.
pub open spec fn readable(doc: Doc) -> bool
    decreases doc,
{
    match doc {
        Doc::Scalar { text, value } => {
            &&& plain_scalar_text(text)
            &&& json_value_read(text) matches Some(reading)
            &&& reading.scalar() == Some(value)
        },
        Doc::Text { raw, text } => readable_text(raw, text),
        Doc::Array { items } => forall|i: int| 0 <= i < items.len() ==> readable(#[trigger] items[i]),
        Doc::Object { members } => {
            &&& forall|i: int|
                0 <= i < members.len() ==> readable_text(
                    (#[trigger] members[i]).raw_key,
                    members[i].key,
                ) && readable(members[i].value)
            &&& forall|i: int, j: int|
                0 <= i < members.len() && 0 <= j < members.len() && i != j ==> (
                #[trigger] members[i]).key != (#[trigger] members[j]).key
        },
    }
}

/// The frame with the text of its open string or key replaced.
pub open spec fn with_open_text(frame: FrameView, text: Seq<char>) -> FrameView {
    match (frame.value, frame.state) {
        (ValueView::String(_), StateView::StringOpen) => FrameView {
            value: ValueView::String(text),
            state: frame.state,
        },
        (ValueView::Object(_), StateView::KeyOpen { .. }) => FrameView {
            value: frame.value,
            state: StateView::KeyOpen { buffer: text },
        },
        (ValueView::Array(items), StateView::ArrayElementStringOpen { index }) => FrameView {
            value: ValueView::Array(items.update(index, ValueView::String(text))),
            state: frame.state,
        },
        (ValueView::Object(members), StateView::ValueStringOpen { key }) => match member_index(
            members,
            key,
        ) {
            Some(i) => FrameView {
                value: ValueView::Object(members.update(i, (members[i].0, ValueView::String(text)))),
                state: frame.state,
            },
            None => frame,
        },
        _ => frame,
    }
}

/// The frame after its open string or key has closed with `text`.
pub open spec fn with_closed_text(frame: FrameView, text: Seq<char>) -> FrameView {
    match (frame.value, frame.state) {
        (ValueView::String(_), StateView::StringOpen) => FrameView {
            value: ValueView::String(text),
            state: StateView::StringClosed,
        },
        (ValueView::Object(members), StateView::KeyOpen { .. }) => FrameView {
            value: ValueView::Object(with_member(members, text, ValueView::Null)),
            state: StateView::KeyClosed { key: text },
        },
        (ValueView::Array(_), StateView::ArrayElementStringOpen { .. }) => FrameView {
            value: with_open_text(frame, text).value,
            state: StateView::ArrayElementStringClosed,
        },
        (ValueView::Object(_), StateView::ValueStringOpen { .. }) => FrameView {
            value: with_open_text(frame, text).value,
            state: StateView::ValueStringClosed,
        },
        _ => frame,
    }
}

/// Replacing the open text keeps it open, and the last replacement counts.
pub proof fn lemma_with_open_text(frame: FrameView, first: Seq<char>, second: Seq<char>)
    requires
        open_text(frame) is Some,
    ensures
        open_text(with_open_text(frame, first)) == Some(first),
        with_open_text(with_open_text(frame, first), second) == with_open_text(frame, second),
        with_open_text(frame, first).state.in_text(),
        with_open_text(frame, open_text(frame)->0) == frame,
{
    match (frame.value, frame.state) {
        (ValueView::Array(items), StateView::ArrayElementStringOpen { index }) => {
            assert(items.update(index, ValueView::String(first)).update(
                index,
                ValueView::String(second),
            ) =~= items.update(index, ValueView::String(second)));
            assert(items.update(index, items[index]) =~= items);
        },
        (ValueView::Object(members), StateView::ValueStringOpen { key }) => {
            lemma_member_index(members, key);
            let i = member_index(members, key)->0;
            let once = members.update(i, (members[i].0, ValueView::String(first)));
            assert forall|a: int| 0 <= a < members.len() implies (#[trigger] members[a]).0
                == once[a].0 by {}
            lemma_member_index_same_keys(members, once, key);
            assert(once.update(i, (once[i].0, ValueView::String(second))) =~= members.update(
                i,
                (members[i].0, ValueView::String(second)),
            ));
            assert(members.update(i, members[i]) =~= members);
        },
        _ => {},
    }
}

/// A character that does not close the open text joins it.
pub proof fn lemma_text_grows(frame: FrameView, c: char)
    requires
        open_text(frame) is Some,
        !closes_text(open_text(frame)->0, c),
    ensures
        step(frame, c) == Ok::<FrameView, ParseError>(
            with_open_text(frame, open_text(frame)->0.push(c)),
        ),
{
    assert(request(frame, c) is Nothing);
    match (frame.value, frame.state) {
        (ValueView::Object(members), StateView::ValueStringOpen { key }) => {
            lemma_member_index(members, key);
        },
        _ => {},
    }
}

/// The quote that closes the open text puts the decoded text in its place.
pub proof fn lemma_text_closes(frame: FrameView, text: Seq<char>)
    requires
        open_text(frame) is Some,
        !ends_escaped(open_text(frame)->0),
        json_string_decoded(open_text(frame)->0) == Some(text),
    ensures
        step(frame, '"') == Ok::<FrameView, ParseError>(with_closed_text(frame, text)),
{
    assert(request(frame, '"') == crate::transition::RequestView::Decode(open_text(frame)->0));
    match (frame.value, frame.state) {
        (ValueView::Object(members), StateView::ValueStringOpen { key }) => {
            lemma_member_index(members, key);
        },
        _ => {},
    }
}

/// Feeding one text after another.
pub proof fn lemma_feed_concat(stack: Seq<FrameView>, first: Seq<char>, second: Seq<char>)
    ensures
        feed(stack, first + second) == (if feed(stack, first).1 is Ok {
            feed(feed(stack, first).0, second)
        } else {
            feed(stack, first)
        }),
{
    let whole = first + second;
    assert(whole.take(first.len() as int) =~= first);
    assert(whole.skip(first.len() as int) =~= second);
    crate::laws::lemma_feed_split(stack, whole, first.len() as int);
}

/// Feeding one character is one step.
pub proof fn lemma_feed_one(stack: Seq<FrameView>, c: char)
    ensures
        feed(stack, seq![c]) == (
            stack_step(stack, c).0,
            if stack_step(stack, c).1 is Ok {
                Ok::<(), ParseError>(())
            } else {
                stack_step(stack, c).1
            },
        ),
{
    let one = seq![c];
    assert(one.len() == 1);
    assert(one[0] == c);
    assert(one.drop_first() =~= Seq::<char>::empty());
    let next = stack_step(stack, one[0]).0;
    let outcome = stack_step(stack, one[0]).1;
    assert(feed(next, Seq::<char>::empty()) == (next, Ok::<(), ParseError>(())));
    assert(feed(stack, one) == (if outcome is Ok {
        feed(next, one.drop_first())
    } else {
        (next, outcome)
    }));
}

/// A step of the top frame that opens no frame and closes none changes the
/// top frame alone.
pub proof fn lemma_top_step(stack: Seq<FrameView>, c: char, next: FrameView)
    requires
        stack.len() > 0,
        !opens_nested(stack.last(), c),
        step(stack.last(), c) == Ok::<FrameView, ParseError>(next),
        !(next.state is Closed),
    ensures
        stack_step(stack, c) == (stack.drop_last().push(next), Ok::<(), ParseError>(())),
        feed(stack, seq![c]) == (stack.drop_last().push(next), Ok::<(), ParseError>(())),
{
    let stepped = stack.drop_last().push(next);
    assert(stepped.last() == next);
    lemma_fold_once(stepped);
    lemma_feed_one(stack, c);
}

/// A step of the top frame that closes it folds it.
pub proof fn lemma_top_closes(stack: Seq<FrameView>, c: char, next: FrameView)
    requires
        stack.len() > 0,
        !opens_nested(stack.last(), c),
        step(stack.last(), c) == Ok::<FrameView, ParseError>(next),
    ensures
        stack_step(stack, c) == fold_closed(stack.drop_last().push(next)),
        feed(stack, seq![c]) == fold_closed(stack.drop_last().push(next)),
{
    lemma_feed_one(stack, c);
    lemma_fold_once(stack.drop_last().push(next));
}

/// The first `k` characters of a string body join the open text.
proof fn lemma_feed_raw_prefix(stack: Seq<FrameView>, raw: Seq<char>, k: int)
    requires
        stack.len() > 0,
        open_text(stack.last()) == Some(Seq::<char>::empty()),
        forall|i: int| 0 <= i < raw.len() && raw[i] == '"' ==> ends_escaped(#[trigger] raw.take(i)),
        0 <= k <= raw.len(),
    ensures
        feed(stack, raw.take(k)) == (
            stack.drop_last().push(with_open_text(stack.last(), raw.take(k))),
            Ok::<(), ParseError>(()),
        ),
    decreases k,
{
    let top = stack.last();
    lemma_with_open_text(top, raw.take(k), raw.take(k));
    if k == 0 {
        assert(raw.take(0) =~= Seq::<char>::empty());
        assert(stack.drop_last().push(top) =~= stack);
    } else {
        lemma_feed_raw_prefix(stack, raw, k - 1);
        let before = raw.take(k - 1);
        let c = raw[k - 1];
        let grown = with_open_text(top, before);
        let here = stack.drop_last().push(grown);
        lemma_with_open_text(top, before, before.push(c));
        assert(before.push(c) =~= raw.take(k));
        assert(raw.take(k).take(k - 1) =~= before);
        assert(raw.take(k).skip(k - 1) =~= seq![c]);
        crate::laws::lemma_feed_split(stack, raw.take(k), k - 1);
        assert(!closes_text(before, c)) by {
            if c == '"' {
                assert(ends_escaped(raw.take(k - 1)));
            }
        }
        lemma_text_grows(grown, c);
        assert(here.last() == grown);
        lemma_top_step(here, c, with_open_text(top, raw.take(k)));
        assert(here.drop_last() =~= stack.drop_last());
    }
}

/// A string body and its closing quote, fed to a frame that has just
/// opened a string or a key, close it with the text that the body stands
/// for.
pub proof fn lemma_feed_body(stack: Seq<FrameView>, raw: Seq<char>, text: Seq<char>)
    requires
        stack.len() > 0,
        open_text(stack.last()) == Some(Seq::<char>::empty()),
        readable_text(raw, text),
    ensures
        feed(stack, raw + seq!['"']) == (
            stack.drop_last().push(with_closed_text(stack.last(), text)),
            Ok::<(), ParseError>(()),
        ),
{
    let top = stack.last();
    lemma_feed_raw_prefix(stack, raw, raw.len() as int);
    assert(raw.take(raw.len() as int) =~= raw);
    let grown = with_open_text(top, raw);
    let here = stack.drop_last().push(grown);
    lemma_with_open_text(top, raw, text);
    lemma_text_closes(grown, text);
    assert(here.last() == grown);
    assert(with_closed_text(grown, text) == with_closed_text(top, text)) by {
        match (top.value, top.state) {
            (ValueView::Array(items), StateView::ArrayElementStringOpen { index }) => {},
            (ValueView::Object(members), StateView::ValueStringOpen { key }) => {},
            _ => {},
        }
    }
    lemma_top_step(here, '"', with_closed_text(top, text));
    assert(here.drop_last() =~= stack.drop_last());
    lemma_feed_concat(stack, raw, seq!['"']);
}

/// Whether the frame is at a place where a value is due: an array before
/// an element, or an object after a colon.
pub open spec fn expects_value(frame: FrameView) -> bool {
    (frame.value is Array && frame.state is StartArray) || (frame.value is Object
        && frame.state is AfterColon)
}

/// The character that closes the container of the frame.
pub open spec fn closer(frame: FrameView) -> char {
    if frame.value is Array {
        ']'
    } else {
        '}'
    }
}

/// The value of a frame that expects a value, after `value` took the place.
pub open spec fn placed(frame: FrameView, value: ValueView) -> ValueView {
    match (frame.value, frame.state) {
        (ValueView::Array(items), _) => ValueView::Array(items.push(value)),
        (ValueView::Object(members), StateView::AfterColon { key }) => ValueView::Object(
            with_member(members, key, value),
        ),
        _ => frame.value,
    }
}

/// The frame after a value took the place that was due.
pub open spec fn completed(frame: FrameView, value: ValueView) -> FrameView {
    FrameView {
        value: placed(frame, value),
        state: if frame.value is Array {
            StateView::ArrayElementStringClosed
        } else {
            StateView::ValueStringClosed
        },
    }
}

/// The frame after a value took the place that was due and a comma or the
/// closing character followed it.
pub open spec fn separated(frame: FrameView, value: ValueView, sep: char) -> FrameView {
    FrameView {
        value: placed(frame, value),
        state: if sep != ',' {
            StateView::Closed
        } else if frame.value is Array {
            StateView::StartArray
        } else {
            StateView::AwaitingKey
        },
    }
}

pub open spec fn plain_char(c: char) -> bool {
    !is_whitespace(c) && c != ',' && c != ']' && c != '}'
}

/// The frame with the text gathered for its scalar replaced.
pub open spec fn with_buffer(frame: FrameView, buffer: Seq<char>) -> FrameView {
    FrameView {
        value: frame.value,
        state: match frame.state {
            StateView::ArrayElementScalarPending { index, .. } => {
                StateView::ArrayElementScalarPending { index, buffer }
            },
            StateView::ValueScalarPending { key, .. } => StateView::ValueScalarPending {
                key,
                buffer,
            },
            other => other,
        },
    }
}

/// Whether the frame gathers the text of a scalar.
pub open spec fn gathers(frame: FrameView) -> bool {
    (frame.value is Array && frame.state is ArrayElementScalarPending) || (frame.value is Object
        && frame.state is ValueScalarPending)
}

/// The characters of a scalar join the text gathered for it.
proof fn lemma_feed_buffer_prefix(
    stack: Seq<FrameView>,
    start: Seq<char>,
    text: Seq<char>,
    k: int,
)
    requires
        stack.len() > 0,
        gathers(stack.last()),
        stack.last() == with_buffer(stack.last(), start),
        forall|i: int| 0 <= i < text.len() ==> plain_char(#[trigger] text[i]),
        0 <= k <= text.len(),
    ensures
        feed(stack, text.take(k)) == (
            stack.drop_last().push(with_buffer(stack.last(), start + text.take(k))),
            Ok::<(), ParseError>(()),
        ),
    decreases k,
{
    let top = stack.last();
    if k == 0 {
        assert(text.take(0) =~= Seq::<char>::empty());
        assert(start + Seq::<char>::empty() =~= start);
        assert(stack.drop_last().push(top) =~= stack);
    } else {
        lemma_feed_buffer_prefix(stack, start, text, k - 1);
        let c = text[k - 1];
        let grown = with_buffer(top, start + text.take(k - 1));
        let here = stack.drop_last().push(grown);
        assert((start + text.take(k - 1)).push(c) =~= start + text.take(k));
        assert(text.take(k).take(k - 1) =~= text.take(k - 1));
        assert(text.take(k).skip(k - 1) =~= seq![c]);
        crate::laws::lemma_feed_split(stack, text.take(k), k - 1);
        assert(plain_char(c));
        assert(request(grown, c) is Nothing);
        assert(here.last() == grown);
        lemma_top_step(here, c, with_buffer(top, start + text.take(k)));
        assert(here.drop_last() =~= stack.drop_last());
    }
}

/// A scalar and the comma or closing character after it, fed to a frame
/// that expects a value, put the value that the reader reads in the place.
pub proof fn lemma_scalar_element(
    stack: Seq<FrameView>,
    text: Seq<char>,
    value: Scalar,
    sep: char,
)
    requires
        stack.len() > 0,
        expects_value(stack.last()),
        readable(Doc::Scalar { text, value }),
        sep == ',' || sep == closer(stack.last()),
    ensures
        feed(stack, text + seq![sep]) == fold_closed(
            stack.drop_last().push(separated(stack.last(), scalar_value(value), sep)),
        ),
{
    let top = stack.last();
    let c = text[0];
    let rest = text.drop_first();
    assert(plain_char(c));
    // the first character begins the scalar
    let begun = FrameView {
        value: if top.value is Array {
            ValueView::Array(top.value->Array_0.push(ValueView::Null))
        } else {
            top.value
        },
        state: match top.state {
            StateView::AfterColon { key } => StateView::ValueScalarPending { key, buffer: seq![c] },
            _ => StateView::ArrayElementScalarPending {
                index: top.value->Array_0.len() as int,
                buffer: seq![c],
            },
        },
    };
    assert(request(top, c) is Nothing);
    assert(step(top, c) == Ok::<FrameView, ParseError>(begun));
    lemma_top_step(stack, c, begun);
    let one = stack.drop_last().push(begun);
    assert(one.last() == begun);
    // the others join it
    assert forall|i: int| 0 <= i < rest.len() implies plain_char(#[trigger] rest[i]) by {
        assert(rest[i] == text[i + 1]);
    }
    lemma_feed_buffer_prefix(one, seq![c], rest, rest.len() as int);
    assert(rest.take(rest.len() as int) =~= rest);
    assert(seq![c] + rest =~= text);
    let gathered = with_buffer(begun, text);
    let two = one.drop_last().push(gathered);
    assert(two.last() == gathered);
    assert(two.drop_last() =~= stack.drop_last());
    // the separator hands the text to the reader
    let after = separated(top, scalar_value(value), sep);
    assert(request(gathered, sep) == crate::transition::RequestView::Scalar(text));
    assert(step(gathered, sep) == Ok::<FrameView, ParseError>(after)) by {
        if top.value is Array {
            let items = top.value->Array_0;
            assert(items.push(ValueView::Null).update(items.len() as int, scalar_value(value))
                =~= items.push(scalar_value(value)));
        }
    }
    lemma_top_closes(two, sep, after);
    assert(text =~= seq![c] + rest);
    lemma_feed_concat(stack, seq![c], rest);
    lemma_feed_concat(stack, text, seq![sep]);
}

/// A value under a key, replaced by another: the second is what is there.
pub proof fn lemma_member_replaced(
    members: Seq<(Seq<char>, ValueView)>,
    key: Seq<char>,
    first: ValueView,
    second: ValueView,
)
    ensures
        member_index(with_member(members, key, first), key) is Some,
        ({
            let once = with_member(members, key, first);
            let i = member_index(once, key)->0;
            once.update(i, (once[i].0, second)) == with_member(members, key, second)
        }),
        with_member(with_member(members, key, first), key, second) == with_member(
            members,
            key,
            second,
        ),
{
    let once = with_member(members, key, first);
    lemma_member_index(members, key);
    lemma_member_index(once, key);
    lemma_with_member_found(members, key, first);
    let i = member_index(once, key)->0;
    match member_index(members, key) {
        Some(j) => {
            assert forall|a: int| 0 <= a < members.len() implies (#[trigger] members[a]).0
                == once[a].0 by {}
            lemma_member_index_same_keys(members, once, key);
            assert(once.update(i, (once[i].0, second)) =~= members.update(j, (key, second)));
            assert(once.update(i, (key, second)) =~= members.update(j, (key, second)));
        },
        None => {
            if i < members.len() {
                assert(once[i] == members[i]);
            }
            assert(once.update(i, (once[i].0, second)) =~= members.push((key, second)));
            assert(once.update(i, (key, second)) =~= members.push((key, second)));
        },
    }
}

/// The frame after the opening quote of a string that takes the place of a
/// value.
pub open spec fn string_opened(frame: FrameView) -> FrameView {
    match (frame.value, frame.state) {
        (ValueView::Object(members), StateView::AfterColon { key }) => FrameView {
            value: ValueView::Object(with_member(members, key, ValueView::String(Seq::empty()))),
            state: StateView::ValueStringOpen { key },
        },
        _ => FrameView {
            value: ValueView::Array(
                frame.value->Array_0.push(ValueView::String(Seq::empty())),
            ),
            state: StateView::ArrayElementStringOpen { index: frame.value->Array_0.len() as int },
        },
    }
}

/// A string, fed to a frame that expects a value, takes the place with the
/// text that the reader decodes.
pub proof fn lemma_text_element(stack: Seq<FrameView>, raw: Seq<char>, text: Seq<char>)
    requires
        stack.len() > 0,
        expects_value(stack.last()),
        readable_text(raw, text),
    ensures
        feed(stack, quoted(raw)) == (
            stack.drop_last().push(completed(stack.last(), ValueView::String(text))),
            Ok::<(), ParseError>(()),
        ),
{
    let top = stack.last();
    let opened = string_opened(top);
    assert(request(top, '"') is Nothing);
    assert(step(top, '"') == Ok::<FrameView, ParseError>(opened));
    lemma_top_step(stack, '"', opened);
    let one = stack.drop_last().push(opened);
    assert(one.last() == opened);
    assert(one.drop_last() =~= stack.drop_last());
    match (top.value, top.state) {
        (ValueView::Object(members), StateView::AfterColon { key }) => {
            lemma_with_member_found(members, key, ValueView::String(Seq::empty()));
            lemma_member_replaced(
                members,
                key,
                ValueView::String(Seq::empty()),
                ValueView::String(text),
            );
        },
        _ => {
            let items = top.value->Array_0;
            assert(items.push(ValueView::String(Seq::empty())).update(
                items.len() as int,
                ValueView::String(text),
            ) =~= items.push(ValueView::String(text)));
        },
    }
    assert(open_text(opened) == Some(Seq::<char>::empty()));
    lemma_feed_body(one, raw, text);
    assert(with_closed_text(opened, text) == completed(top, ValueView::String(text)));
    assert(quoted(raw) =~= seq!['"'] + (raw + seq!['"']));
    lemma_feed_concat(stack, seq!['"'], raw + seq!['"']);
}

/// A comma or the closing character after a value that is complete.
pub proof fn lemma_separator(stack: Seq<FrameView>, frame: FrameView, value: ValueView, sep: char)
    requires
        stack.len() > 0,
        expects_value(frame),
        stack.last() == completed(frame, value),
        sep == ',' || sep == closer(frame),
    ensures
        feed(stack, seq![sep]) == fold_closed(
            stack.drop_last().push(separated(frame, value, sep)),
        ),
{
    let top = stack.last();
    assert(request(top, sep) is Nothing);
    assert(step(top, sep) == Ok::<FrameView, ParseError>(separated(frame, value, sep)));
    lemma_top_closes(stack, sep, separated(frame, value, sep));
}

pub open spec fn item_texts(items: Seq<Doc>) -> Seq<Seq<char>> {
    Seq::new(items.len(), |i: int| doc_text(items[i]))
}

pub open spec fn item_values(items: Seq<Doc>) -> Seq<ValueView> {
    Seq::new(items.len(), |i: int| doc_value(items[i]))
}

pub open spec fn member_text(member: Member) -> Seq<char> {
    quoted(member.raw_key) + seq![':'] + doc_text(member.value)
}

pub open spec fn member_texts(members: Seq<Member>) -> Seq<Seq<char>> {
    Seq::new(members.len(), |i: int| member_text(members[i]))
}

pub open spec fn member_values(members: Seq<Member>) -> Seq<(Seq<char>, ValueView)> {
    Seq::new(members.len(), |i: int| (members[i].key, doc_value(members[i].value)))
}

/// The number of elements or members of a container.
pub open spec fn width(doc: Doc) -> nat {
    match doc {
        Doc::Array { items } => items.len(),
        Doc::Object { members } => members.len(),
        _ => 0,
    }
}

pub proof fn lemma_doc_array(items: Seq<Doc>)
    ensures
        doc_text(Doc::Array { items }) == seq!['['] + joined(item_texts(items)) + seq![']'],
        doc_value(Doc::Array { items }) == ValueView::Array(item_values(items)),
{
    let parts = written(Doc::Array { items })->Array_0;
    assert(parts =~= item_texts(items));
    let values = doc_value(Doc::Array { items })->Array_0;
    assert(values =~= item_values(items));
}

pub proof fn lemma_doc_object(members: Seq<Member>)
    ensures
        doc_text(Doc::Object { members }) == seq!['{'] + joined(member_texts(members)) + seq![
            '}',
        ],
        doc_value(Doc::Object { members }) == ValueView::Object(member_values(members)),
{
    let parts = written(Doc::Object { members })->Object_0;
    assert(parts =~= member_texts(members));
    let values = doc_value(Doc::Object { members })->Object_0;
    assert(values =~= member_values(members));
}

/// The parts from the `k`-th on, joined: the `k`-th, then a comma and the
/// others where there are others.
pub proof fn lemma_joined_from(parts: Seq<Seq<char>>, k: int)
    requires
        0 <= k < parts.len(),
    ensures
        joined(parts.skip(k)) == (if k == parts.len() - 1 {
            parts[k]
        } else {
            parts[k] + seq![','] + joined(parts.skip(k + 1))
        }),
{
    let rest = parts.skip(k);
    assert(rest[0] == parts[k]);
    assert(rest.drop_first() =~= parts.skip(k + 1));
}

/// Where a container lands when it is complete: in the place that was due
/// in the frame below, or, for the document's root, in the root frame.
pub open spec fn landed(stack: Seq<FrameView>, value: ValueView) -> Seq<FrameView> {
    if stack.last() == fresh_frame() {
        stack.drop_last().push(FrameView { value, state: StateView::Closed })
    } else {
        stack.drop_last().push(completed(stack.last(), value))
    }
}

/// The stack after the opening bracket or brace of a container.
pub open spec fn container_opened(stack: Seq<FrameView>, first: FrameView) -> Seq<FrameView> {
    if stack.last() == fresh_frame() {
        stack.drop_last().push(first)
    } else {
        stack.drop_last().push(suspended(stack.last())).push(first)
    }
}

/// The opening bracket or brace of a container opens a frame, or, for the
/// document's root, begins the container in the root frame.
proof fn lemma_container_opens(stack: Seq<FrameView>, c: char)
    requires
        stack.len() > 0,
        expects_value(stack.last()) || stack =~= seq![fresh_frame()],
        c == '[' || c == '{',
    ensures
        feed(stack, seq![c]) == (
            container_opened(stack, step(fresh_frame(), c)->Ok_0),
            Ok::<(), ParseError>(()),
        ),
        step(fresh_frame(), c) == Ok::<FrameView, ParseError>(
            if c == '[' {
                FrameView { value: ValueView::Array(Seq::empty()), state: StateView::StartArray }
            } else {
                FrameView { value: ValueView::Object(Seq::empty()), state: StateView::AwaitingKey }
            },
        ),
{
    assert(request(fresh_frame(), c) is Nothing);
    let first = step(fresh_frame(), c)->Ok_0;
    lemma_feed_one(stack, c);
    if stack.last() == fresh_frame() {
        lemma_top_step(stack, c, first);
    } else {
        let pushed = stack.drop_last().push(suspended(stack.last())).push(fresh_frame());
        assert(pushed.last() == fresh_frame());
        let stepped = pushed.drop_last().push(first);
        assert(stepped.last() == first);
        lemma_fold_once(stepped);
        assert(stepped =~= stack.drop_last().push(suspended(stack.last())).push(first));
    }
}

/// A closed container at the top of the stack lands.
proof fn lemma_container_lands(stack: Seq<FrameView>, opened: FrameView, value: ValueView)
    requires
        stack.len() > 0,
        expects_value(stack.last()) || stack =~= seq![fresh_frame()],
    ensures
        fold_closed(
            container_opened(stack, opened).drop_last().push(
                FrameView { value, state: StateView::Closed },
            ),
        ) == (landed(stack, value), Ok::<(), ParseError>(())),
{
    let closed = FrameView { value, state: StateView::Closed };
    let before = container_opened(stack, opened).drop_last().push(closed);
    assert(before.last() == closed);
    lemma_fold_once(before);
    if stack.last() == fresh_frame() {
        assert(before =~= stack.drop_last().push(closed));
    } else {
        let top = stack.last();
        assert(before =~= stack.drop_last().push(suspended(top)).push(closed));
        assert(before[before.len() - 2] == suspended(top));
        assert(attached(suspended(top), value) == Some(completed(top, value)));
        assert(before.take(before.len() - 2) =~= stack.drop_last());
    }
}

/// A document and the comma or closing character after it, fed to a frame
/// that expects a value, put the document's value in the place.
pub proof fn lemma_element(stack: Seq<FrameView>, doc: Doc, sep: char)
    requires
        stack.len() > 0,
        expects_value(stack.last()),
        readable(doc),
        sep == ',' || sep == closer(stack.last()),
    ensures
        feed(stack, doc_text(doc) + seq![sep]) == fold_closed(
            stack.drop_last().push(separated(stack.last(), doc_value(doc), sep)),
        ),
    decreases doc, width(doc) + 2,
{
    let top = stack.last();
    match doc {
        Doc::Scalar { text, value } => {
            lemma_scalar_element(stack, text, value, sep);
        },
        Doc::Text { raw, text } => {
            lemma_text_element(stack, raw, text);
            let here = stack.drop_last().push(completed(top, ValueView::String(text)));
            assert(here.last() == completed(top, ValueView::String(text)));
            lemma_separator(here, top, ValueView::String(text), sep);
            assert(here.drop_last() =~= stack.drop_last());
            lemma_feed_concat(stack, quoted(raw), seq![sep]);
        },
        _ => {
            lemma_container(stack, doc);
            let here = stack.drop_last().push(completed(top, doc_value(doc)));
            assert(here.last() == completed(top, doc_value(doc)));
            lemma_separator(here, top, doc_value(doc), sep);
            assert(here.drop_last() =~= stack.drop_last());
            lemma_feed_concat(stack, doc_text(doc), seq![sep]);
        },
    }
}

/// An array or an object, fed where a value is due or as the document's
/// root, lands with its value.
pub proof fn lemma_container(stack: Seq<FrameView>, doc: Doc)
    requires
        stack.len() > 0,
        expects_value(stack.last()) || stack =~= seq![fresh_frame()],
        doc is Array || doc is Object,
        readable(doc),
    ensures
        feed(stack, doc_text(doc)) == (landed(stack, doc_value(doc)), Ok::<(), ParseError>(())),
    decreases doc, width(doc) + 1,
{
    match doc {
        Doc::Array { items } => {
            lemma_doc_array(items);
            lemma_container_opens(stack, '[');
            let first = FrameView {
                value: ValueView::Array(Seq::empty()),
                state: StateView::StartArray,
            };
            let inside = container_opened(stack, first);
            assert(inside.last() == first);
            let closed = FrameView { value: doc_value(doc), state: StateView::Closed };
            lemma_container_lands(stack, first, doc_value(doc));
            let rest = joined(item_texts(items)) + seq![']'];
            if items.len() == 0 {
                assert(joined(item_texts(items)) =~= Seq::<char>::empty());
                assert(rest =~= seq![']']);
                assert(item_values(items) =~= Seq::<ValueView>::empty());
                assert(request(first, ']') is Nothing);
                lemma_top_closes(inside, ']', closed);
            } else {
                assert(item_values(items).take(0) =~= Seq::<ValueView>::empty());
                assert(item_texts(items).skip(0) =~= item_texts(items));
                lemma_array_rest(inside, doc, 0);
            }
            assert(doc_text(doc) =~= seq!['['] + rest);
            lemma_feed_concat(stack, seq!['['], rest);
        },
        Doc::Object { members } => {
            lemma_doc_object(members);
            lemma_container_opens(stack, '{');
            let first = FrameView {
                value: ValueView::Object(Seq::empty()),
                state: StateView::AwaitingKey,
            };
            let inside = container_opened(stack, first);
            assert(inside.last() == first);
            let closed = FrameView { value: doc_value(doc), state: StateView::Closed };
            lemma_container_lands(stack, first, doc_value(doc));
            let rest = joined(member_texts(members)) + seq!['}'];
            if members.len() == 0 {
                assert(joined(member_texts(members)) =~= Seq::<char>::empty());
                assert(rest =~= seq!['}']);
                assert(member_values(members) =~= Seq::<(Seq<char>, ValueView)>::empty());
                assert(request(first, '}') is Nothing);
                lemma_top_closes(inside, '}', closed);
            } else {
                assert(member_values(members).take(0) =~= Seq::<(Seq<char>, ValueView)>::empty());
                assert(member_texts(members).skip(0) =~= member_texts(members));
                lemma_object_rest(inside, doc, 0);
            }
            assert(doc_text(doc) =~= seq!['{'] + rest);
            lemma_feed_concat(stack, seq!['{'], rest);
        },
        _ => {},
    }
}

/// The elements of an array from the `k`-th on and the closing bracket,
/// fed to the array's frame, complete the array and close it.
pub proof fn lemma_array_rest(stack: Seq<FrameView>, doc: Doc, k: int)
    requires
        doc is Array,
        readable(doc),
        0 <= k < doc->items.len(),
        stack.len() > 0,
        stack.last() == (FrameView {
            value: ValueView::Array(item_values(doc->items).take(k)),
            state: StateView::StartArray,
        }),
    ensures
        feed(stack, joined(item_texts(doc->items).skip(k)) + seq![']']) == fold_closed(
            stack.drop_last().push(
                FrameView {
                    value: ValueView::Array(item_values(doc->items)),
                    state: StateView::Closed,
                },
            ),
        ),
    decreases doc, doc->items.len() - k,
{
    let items = doc->items;
    let parts = item_texts(items);
    let values = item_values(items);
    let top = stack.last();
    let last = k == items.len() - 1;
    let sep = if last {
        ']'
    } else {
        ','
    };
    lemma_joined_from(parts, k);
    assert(readable(items[k]));
    lemma_element(stack, items[k], sep);
    assert(values.take(k).push(doc_value(items[k])) =~= values.take(k + 1));
    let after = separated(top, doc_value(items[k]), sep);
    let here = stack.drop_last().push(after);
    assert(here.last() == after);
    if last {
        assert(values.take(k + 1) =~= values);
    } else {
        lemma_fold_once(here);
        lemma_array_rest(here, doc, k + 1);
        assert(here.drop_last() =~= stack.drop_last());
        assert(joined(parts.skip(k)) + seq![']'] =~= (doc_text(items[k]) + seq![',']) + (joined(
            parts.skip(k + 1),
        ) + seq![']']));
        lemma_feed_concat(
            stack,
            doc_text(items[k]) + seq![','],
            joined(parts.skip(k + 1)) + seq![']'],
        );
    }
}

/// The members of an object from the `k`-th on and the closing brace, fed
/// to the object's frame, complete the object and close it.
pub proof fn lemma_object_rest(stack: Seq<FrameView>, doc: Doc, k: int)
    requires
        doc is Object,
        readable(doc),
        0 <= k < doc->members.len(),
        stack.len() > 0,
        stack.last() == (FrameView {
            value: ValueView::Object(member_values(doc->members).take(k)),
            state: StateView::AwaitingKey,
        }),
    ensures
        feed(stack, joined(member_texts(doc->members).skip(k)) + seq!['}']) == fold_closed(
            stack.drop_last().push(
                FrameView {
                    value: ValueView::Object(member_values(doc->members)),
                    state: StateView::Closed,
                },
            ),
        ),
    decreases doc, doc->members.len() - k,
{
    let members = doc->members;
    let parts = member_texts(members);
    let values = member_values(members);
    let done = values.take(k);
    let member = members[k];
    let key = member.key;
    let top = stack.last();
    let below = stack.drop_last();
    let last = k == members.len() - 1;
    let sep = if last {
        '}'
    } else {
        ','
    };
    lemma_joined_from(parts, k);
    assert(readable_text(member.raw_key, key) && readable(member.value));
    // the opening quote of the key
    let key_open = FrameView {
        value: top.value,
        state: StateView::KeyOpen { buffer: Seq::empty() },
    };
    assert(request(top, '"') is Nothing);
    lemma_top_step(stack, '"', key_open);
    let one = below.push(key_open);
    assert(one.last() == key_open);
    assert(one.drop_last() =~= below);
    // the key and its closing quote
    lemma_feed_body(one, member.raw_key, key);
    let key_closed = with_closed_text(key_open, key);
    let two = below.push(key_closed);
    assert(two.last() == key_closed);
    assert(two.drop_last() =~= below);
    // the colon
    let slot = FrameView { value: key_closed.value, state: StateView::AfterColon { key } };
    assert(request(key_closed, ':') is Nothing);
    lemma_top_step(two, ':', slot);
    let three = below.push(slot);
    assert(three.last() == slot);
    assert(three.drop_last() =~= below);
    // the value and what follows it
    lemma_element(three, member.value, sep);
    let value = doc_value(member.value);
    let after = separated(slot, value, sep);
    lemma_member_replaced(done, key, ValueView::Null, value);
    lemma_member_index(done, key);
    assert(member_index(done, key) is None) by {
        if member_index(done, key) is Some {
            let i = member_index(done, key)->0;
            assert(done[i].0 == members[i].key);
            assert(members[i].key != members[k].key);
        }
    }
    assert(done.push((key, value)) =~= values.take(k + 1));
    assert(after.value == ValueView::Object(values.take(k + 1)));
    let here = below.push(after);
    assert(here.last() == after);
    assert(here.drop_last() =~= below);
    // the text of the member, piece by piece
    let body = member.raw_key + seq!['"'];
    let tail = doc_text(member.value) + seq![sep];
    assert(member_text(member) + seq![sep] =~= seq!['"'] + (body + (seq![':'] + tail)));
    lemma_feed_concat(two, seq![':'], tail);
    lemma_feed_concat(one, body, seq![':'] + tail);
    lemma_feed_concat(stack, seq!['"'], body + (seq![':'] + tail));
    if last {
        assert(values.take(k + 1) =~= values);
        assert(joined(parts.skip(k)) + seq!['}'] =~= member_text(member) + seq![sep]);
    } else {
        lemma_fold_once(here);
        lemma_object_rest(here, doc, k + 1);
        assert(joined(parts.skip(k)) + seq!['}'] =~= (member_text(member) + seq![',']) + (joined(
            parts.skip(k + 1),
        ) + seq!['}']));
        lemma_feed_concat(
            stack,
            member_text(member) + seq![','],
            joined(parts.skip(k + 1)) + seq!['}'],
        );
    }
}

/// The parser reads a document back: the text of a document that is a
/// string, an array or an object, whose leaves the JSON text reader reads
/// back, parses to the value of the document.
pub proof fn law_document_is_read_back(doc: Doc)
    requires
        readable(doc),
        !(doc is Scalar),
    ensures
        parsed(doc_text(doc)) == Ok::<ValueView, ParseError>(doc_value(doc)),
{
    let start = seq![fresh_frame()];
    match doc {
        Doc::Text { raw, text } => {
            let opened = FrameView {
                value: ValueView::String(Seq::empty()),
                state: StateView::StringOpen,
            };
            assert(request(fresh_frame(), '"') is Nothing);
            lemma_top_step(start, '"', opened);
            let one = start.drop_last().push(opened);
            assert(one.last() == opened);
            lemma_feed_body(one, raw, text);
            assert(quoted(raw) =~= seq!['"'] + (raw + seq!['"']));
            lemma_feed_concat(start, seq!['"'], raw + seq!['"']);
            let end = one.drop_last().push(with_closed_text(opened, text));
            assert(end[0] == with_closed_text(opened, text));
        },
        _ => {
            lemma_container(start, doc);
            let end = landed(start, doc_value(doc));
            assert(end[0] == FrameView { value: doc_value(doc), state: StateView::Closed });
        },
    }
}

/// The first `k` characters of a literal, fed to a parser that has read
/// nothing, commit the value and leave the literal open; all of them close
/// it.
proof fn lemma_literal_prefix(value: ValueView, k: int)
    requires
        value == ValueView::Bool(true) || value == ValueView::Bool(false) || value
            == ValueView::Null,
        1 <= k <= literal_text(value).len(),
    ensures
        feed(seq![fresh_frame()], literal_text(value).take(k)) == (
            seq![
                FrameView {
                    value,
                    state: if k == literal_text(value).len() {
                        StateView::Closed
                    } else {
                        StateView::ScalarPrefix { buffer: literal_text(value).take(k) }
                    },
                },
            ],
            Ok::<(), ParseError>(()),
        ),
    decreases k,
{
    let literal = literal_text(value);
    let start = seq![fresh_frame()];
    let after = FrameView {
        value,
        state: if k == literal.len() {
            StateView::Closed
        } else {
            StateView::ScalarPrefix { buffer: literal.take(k) }
        },
    };
    if k == 1 {
        let c = literal[0];
        assert(literal.take(1) =~= seq![c]);
        assert(request(fresh_frame(), c) is Nothing);
        assert(step(fresh_frame(), c) == Ok::<FrameView, ParseError>(after));
        lemma_top_step(start, c, after);
        assert(start.drop_last().push(after) =~= seq![after]);
    } else {
        lemma_literal_prefix(value, k - 1);
        let before = FrameView {
            value,
            state: StateView::ScalarPrefix { buffer: literal.take(k - 1) },
        };
        let here = seq![before];
        let c = literal[k - 1];
        assert(literal.take(k - 1).push(c) =~= literal.take(k));
        assert(literal.take(k).take(k - 1) =~= literal.take(k - 1));
        assert(literal.take(k).skip(k - 1) =~= seq![c]);
        crate::laws::lemma_feed_split(start, literal.take(k), k - 1);
        assert(request(before, c) is Nothing);
        assert(step(before, c) == Ok::<FrameView, ParseError>(after));
        lemma_top_closes(here, c, after);
        lemma_fold_once(here.drop_last().push(after));
        assert(here.drop_last().push(after) =~= seq![after]);
    }
}

/// The parser reads `true`, `false` and `null` back.
pub proof fn law_literal_is_read_back(value: ValueView)
    requires
        value == ValueView::Bool(true) || value == ValueView::Bool(false) || value
            == ValueView::Null,
    ensures
        parsed(literal_text(value)) == Ok::<ValueView, ParseError>(value),
{
    let literal = literal_text(value);
    lemma_literal_prefix(value, literal.len() as int);
    assert(literal.take(literal.len() as int) =~= literal);
}

/// The text of a number as the parser takes it at the root of a document:
/// a digit or a minus sign first; after that digits, points, one `e` or
/// `E`, and a sign right after it; a digit last.
pub open spec fn number_text(text: Seq<char>) -> bool {
    &&& text.len() > 0
    &&& is_digit(text[0]) || text[0] == '-'
    &&& is_digit(text.last())
    &&& forall|i: int|
        1 <= i < text.len() ==> {
            ||| is_digit(#[trigger] text[i])
            ||| text[i] == '.'
            ||| ((text[i] == 'e' || text[i] == 'E') && !has_exponent(text.take(i)))
            ||| ((text[i] == '+' || text[i] == '-') && (text[i - 1] == 'e' || text[i - 1] == 'E'))
        }
}

/// The number that the whole text of a number stands for: read as an
/// integer where the text has no point and no exponent, and as the JSON
/// text reader reads it where it has.
pub open spec fn number_read(text: Seq<char>) -> Option<Number> {
    reparsed_number(text, scalar_read(json_value_read(text)))
}

/// The frame after the first `k` characters of a number.
pub open spec fn number_frame(text: Seq<char>, k: int) -> FrameView
    decreases k,
{
    if k <= 1 {
        step(fresh_frame(), text[0])->Ok_0
    } else {
        step(number_frame(text, k - 1), text[k - 1])->Ok_0
    }
}

/// The first `k` characters of a number are taken, and the text of the
/// number so far is kept.
proof fn lemma_number_prefix(text: Seq<char>, k: int)
    requires
        number_text(text),
        1 <= k <= text.len(),
    ensures
        feed(seq![fresh_frame()], text.take(k)) == (
            seq![number_frame(text, k)],
            Ok::<(), ParseError>(()),
        ),
        number_frame(text, k).value is Number,
        number_frame(text, k).state == (StateView::NumberPending { buffer: text.take(k) }),
        is_digit(text[k - 1]) && number_read(text.take(k)) is Some ==> number_frame(text, k).value
            == ValueView::Number(number_read(text.take(k))->0),
    decreases k,
{
    let start = seq![fresh_frame()];
    let after = number_frame(text, k);
    if k == 1 {
        let c = text[0];
        assert(text.take(1) =~= seq![c]);
        assert(request(fresh_frame(), c) is Nothing);
        assert(step(fresh_frame(), c) is Ok);
        lemma_top_step(start, c, after);
        assert(start.drop_last().push(after) =~= seq![after]);
        if is_digit(c) {
            lemma_one_digit(c);
        }
    } else {
        lemma_number_prefix(text, k - 1);
        let before = number_frame(text, k - 1);
        let here = seq![before];
        let c = text[k - 1];
        let buffer = text.take(k - 1);
        assert(buffer.push(c) =~= text.take(k));
        assert(text.take(k).take(k - 1) =~= buffer);
        assert(text.take(k).skip(k - 1) =~= seq![c]);
        assert(buffer.last() == text[k - 2]);
        crate::laws::lemma_feed_split(start, text.take(k), k - 1);
        if is_digit(c) {
            crate::transition::lemma_contains_after_push(buffer, c);
        }
        assert(step(before, c) is Ok);
        lemma_top_step(here, c, after);
        assert(here.drop_last().push(after) =~= seq![after]);
    }
}

/// One digit reads as its value.
proof fn lemma_one_digit(c: char)
    requires
        is_digit(c),
    ensures
        number_read(seq![c]) == Some(Number::PosInt(crate::number::digit_value(c) as u64)),
{
    let text = seq![c];
    assert(!text.contains('.') && !text.contains('e') && !text.contains('E'));
    assert(crate::number::all_digits(text));
    assert(text.drop_last() =~= Seq::<char>::empty());
    assert(crate::number::digits_value(text) == crate::number::digit_value(c)) by {
        assert(crate::number::digits_value(text.drop_last()) == 0);
    }
}

/// The parser reads a number at the root of a document back: it holds the
/// number that the whole text stands for, where the text stands for one.
pub proof fn law_number_is_read_back(text: Seq<char>)
    requires
        number_text(text),
        number_read(text) is Some,
    ensures
        parsed(text) == Ok::<ValueView, ParseError>(ValueView::Number(number_read(text)->0)),
{
    lemma_number_prefix(text, text.len() as int);
    assert(text.take(text.len() as int) =~= text);
}

/// Cutting a document short never makes it fail: every prefix of the text
/// of a document that is read back is taken.
pub proof fn law_truncated_document_is_taken(doc: Doc, n: int)
    requires
        readable(doc),
        !(doc is Scalar),
        0 <= n <= doc_text(doc).len(),
    ensures
        parsed(doc_text(doc).take(n)) is Ok,
{
    law_document_is_read_back(doc);
    crate::laws::law_prefix_is_taken(doc_text(doc), n);
}

/// Every prefix of a number that is read back at the root is taken.
pub proof fn law_truncated_number_is_taken(text: Seq<char>, n: int)
    requires
        number_text(text),
        number_read(text) is Some,
        0 <= n <= text.len(),
    ensures
        parsed(text.take(n)) is Ok,
{
    law_number_is_read_back(text);
    crate::laws::law_prefix_is_taken(text, n);
}

} // verus!
