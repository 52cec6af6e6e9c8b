//! Laws of the parser, each proved from the model that the functions'
//! contracts are stated over.

use crate::parser::{feed, parsed, parsed_with_limits, ParserView};
use crate::stack::{fresh_frame, lemma_fold_once, opens_nested, stack_step, suspended};
use crate::state::{FrameView, ParseError, StateView};
use crate::transition::{is_whitespace, request, step, step_with};
use crate::value::ValueView;
use crate::wellformed::{lemma_stack_step_keeps, stack_wf};
use vstd::prelude::*;

verus! {

/// What parsing can reach is well formed: the stack stays well formed over
/// any run of characters, and no run ends in the internal error.
pub proof fn law_stack_stays_well_formed(stack: Seq<FrameView>, chars: Seq<char>)
    requires
        stack_wf(stack),
    ensures
        stack_wf(feed(stack, chars).0),
        feed(stack, chars).1 != Err::<(), ParseError>(ParseError::Internal),
    decreases chars.len(),
{
    if chars.len() > 0 {
        lemma_stack_step_keeps(stack, chars[0]);
        if stack_step(stack, chars[0]).1 is Ok {
            law_stack_stays_well_formed(stack_step(stack, chars[0]).0, chars.drop_first());
        }
    }
}

/// A parser stays well formed over any run of characters, under any
/// limits, and no run ends in the internal error.
pub proof fn law_parser_stays_well_formed(parser: ParserView, chars: Seq<char>)
    requires
        parser.wf(),
    ensures
        parser.feed(chars).0.wf(),
        parser.feed(chars).1 != Err::<(), ParseError>(ParseError::Internal),
    decreases chars.len(),
{
    if chars.len() > 0 {
        lemma_stack_step_keeps(parser.stack, chars[0]);
        if parser.step(chars[0]).1 is Ok {
            law_parser_stays_well_formed(parser.step(chars[0]).0, chars.drop_first());
        }
    }
}

/// Feeding a text is feeding its first part and then, where that was
/// taken, the rest.
pub proof fn lemma_feed_split(stack: Seq<FrameView>, chars: Seq<char>, n: int)
    requires
        0 <= n <= chars.len(),
    ensures
        feed(stack, chars) == (if feed(stack, chars.take(n)).1 is Ok {
            feed(feed(stack, chars.take(n)).0, chars.skip(n))
        } else {
            feed(stack, chars.take(n))
        }),
    decreases n,
{
    if n == 0 {
        assert(chars.take(0) =~= Seq::<char>::empty());
        assert(chars.skip(0) =~= chars);
    } else {
        let first = chars.take(n);
        assert(first[0] == chars[0]);
        assert(first.drop_first() =~= chars.drop_first().take(n - 1));
        assert(chars.drop_first().skip(n - 1) =~= chars.skip(n));
        if stack_step(stack, chars[0]).1 is Ok {
            lemma_feed_split(stack_step(stack, chars[0]).0, chars.drop_first(), n - 1);
        }
    }
}

/// A parser without limits moves as its stack does.
pub proof fn lemma_unlimited_feed(parser: ParserView, chars: Seq<char>)
    requires
        parser.max_depth is None,
        parser.max_length is None,
    ensures
        parser.feed(chars).0.stack == feed(parser.stack, chars).0,
        parser.feed(chars).1 == feed(parser.stack, chars).1,
    decreases chars.len(),
{
    if chars.len() > 0 {
        if parser.step(chars[0]).1 is Ok {
            lemma_unlimited_feed(parser.step(chars[0]).0, chars.drop_first());
        }
    }
}

/// One-shot and incremental parsing agree: the whole-text parse returns
/// what a parser without limits holds after it was fed the same text one
/// character at a time, and fails with the same error where the parser
/// refuses a character.
pub proof fn law_one_shot_matches_incremental(chars: Seq<char>)
    ensures
        parsed(chars) == parsed_with_limits(chars, None, None),
        parsed(chars) == (match ParserView::new(None, None).feed(chars).1 {
            Ok(()) => Ok::<ValueView, ParseError>(
                ParserView::new(None, None).feed(chars).0.result(),
            ),
            Err(e) => Err::<ValueView, ParseError>(e),
        }),
{
    lemma_unlimited_feed(ParserView::new(None, None), chars);
}

/// A whitespace character changes nothing where the top frame is not
/// inside a string literal or a key.
pub proof fn law_whitespace_absorbed(stack: Seq<FrameView>, c: char)
    requires
        stack_wf(stack),
        is_whitespace(c),
        !stack.last().state.in_text(),
    ensures
        stack_step(stack, c) == (stack, Ok::<(), ParseError>(())),
{
    let top = stack.last();
    assert(request(top, c) is Nothing);
    assert(step_with(top, c, None, None) == Ok::<FrameView, ParseError>(top));
    assert(stack.drop_last().push(top) =~= stack);
    lemma_fold_once(stack);
}

/// Whitespace put into a text at a place where the parser is not inside a
/// string literal or a key does not change what the text parses to; taking
/// such whitespace out does not either.
pub proof fn law_whitespace_between_tokens(chars: Seq<char>, at: int, c: char)
    requires
        0 <= at <= chars.len(),
        is_whitespace(c),
        feed(seq![fresh_frame()], chars.take(at)).1 is Ok,
        !feed(seq![fresh_frame()], chars.take(at)).0.last().state.in_text(),
    ensures
        parsed(chars.take(at).push(c) + chars.skip(at)) == parsed(chars),
{
    let start = seq![fresh_frame()];
    let spaced = chars.take(at).push(c) + chars.skip(at);
    let here = feed(start, chars.take(at)).0;
    assert(stack_wf(start));
    law_stack_stays_well_formed(start, chars.take(at));
    law_whitespace_absorbed(here, c);
    // the spaced text up to and with the whitespace
    assert(spaced.take(at + 1) =~= chars.take(at).push(c));
    assert(spaced.skip(at + 1) =~= chars.skip(at));
    lemma_feed_split(start, spaced, at + 1);
    lemma_feed_split(start, spaced.take(at + 1), at);
    assert(spaced.take(at + 1).take(at) =~= chars.take(at));
    assert(spaced.take(at + 1).skip(at) =~= seq![c]);
    assert(feed(here, seq![c]) == (here, Ok::<(), ParseError>(()))) by {
        assert(seq![c].drop_first() =~= Seq::<char>::empty());
        assert(feed(here, Seq::<char>::empty()) == (here, Ok::<(), ParseError>(())));
    }
    lemma_feed_split(start, chars, at);
}

/// Cutting a text short never makes it fail: where the whole text is taken,
/// each of its prefixes is taken, and parsing the rest from where the prefix
/// ended gives the parse of the whole.
pub proof fn law_prefix_is_taken(chars: Seq<char>, n: int)
    requires
        0 <= n <= chars.len(),
        parsed(chars) is Ok,
    ensures
        parsed(chars.take(n)) is Ok,
        feed(seq![fresh_frame()], chars) == feed(
            feed(seq![fresh_frame()], chars.take(n)).0,
            chars.skip(n),
        ),
{
    lemma_feed_split(seq![fresh_frame()], chars, n);
}

/// No error comes from the end of a text: the empty text is taken, and a
/// text that fails has a character up to which it is taken and with which
/// it fails as the whole does.
pub proof fn law_error_comes_from_a_character(chars: Seq<char>)
    ensures
        parsed(Seq::<char>::empty()) is Ok,
        parsed(chars) is Err ==> exists|n: int|
            0 <= n < chars.len() && parsed(chars.take(n)) is Ok && #[trigger] parsed(
                chars.take(n + 1),
            ) == parsed(chars),
{
    if parsed(chars) is Err {
        lemma_first_refused(seq![fresh_frame()], chars);
        let n = choose|n: int|
            0 <= n < chars.len() && feed(seq![fresh_frame()], chars.take(n)).1 is Ok
                && #[trigger] feed(seq![fresh_frame()], chars.take(n + 1)) == feed(
                seq![fresh_frame()],
                chars,
            );
        assert(parsed(chars.take(n + 1)) == parsed(chars));
    }
}

/// A run that is not taken has a first character that is refused.
pub proof fn lemma_first_refused(stack: Seq<FrameView>, chars: Seq<char>)
    requires
        feed(stack, chars).1 is Err,
    ensures
        exists|n: int|
            0 <= n < chars.len() && feed(stack, chars.take(n)).1 is Ok && #[trigger] feed(
                stack,
                chars.take(n + 1),
            ) == feed(stack, chars),
    decreases chars.len(),
{
    let (next, outcome) = stack_step(stack, chars[0]);
    if outcome is Ok {
        let rest = chars.drop_first();
        lemma_first_refused(next, rest);
        let m = choose|m: int|
            0 <= m < rest.len() && feed(next, rest.take(m)).1 is Ok && #[trigger] feed(
                next,
                rest.take(m + 1),
            ) == feed(next, rest);
        assert(chars.take(m + 1).drop_first() =~= rest.take(m));
        assert(chars.take(m + 2).drop_first() =~= rest.take(m + 1));
        assert(chars.take(m + 1)[0] == chars[0]);
        assert(chars.take(m + 2)[0] == chars[0]);
        assert(feed(stack, chars.take(m + 1 + 1)) == feed(stack, chars));
    } else {
        assert(chars.take(0) =~= Seq::<char>::empty());
        assert(chars.take(1)[0] == chars[0]);
        assert(feed(stack, chars.take(0int + 1)) == feed(stack, chars));
    }
}

/// The stack after `n` opening brackets: an empty array at each level, the
/// levels below the top waiting for the array nested in them.
pub open spec fn open_arrays(n: nat) -> Seq<FrameView> {
    if n == 0 {
        seq![fresh_frame()]
    } else {
        Seq::new(
            n,
            |i: int|
                FrameView {
                    value: ValueView::Array(Seq::empty()),
                    state: if i == n - 1 {
                        StateView::StartArray
                    } else {
                        StateView::ArrayElementNestedPending
                    },
                },
        )
    }
}

/// The text of `n` opening brackets.
pub open spec fn brackets(n: nat) -> Seq<char> {
    Seq::new(n, |i: int| '[')
}

/// One more bracket opens one more level.
pub proof fn lemma_bracket_opens_level(n: nat)
    ensures
        stack_step(open_arrays(n), '[') == (open_arrays(n + 1), Ok::<(), ParseError>(())),
{
    let stack = open_arrays(n);
    let opened = FrameView { value: ValueView::Array(Seq::empty()), state: StateView::StartArray };
    assert(request(fresh_frame(), '[') is Nothing);
    assert(step(fresh_frame(), '[') == Ok::<FrameView, ParseError>(opened));
    if n == 0 {
        assert(!opens_nested(stack.last(), '['));
        let stepped = stack.drop_last().push(opened);
        lemma_fold_once(stepped);
        assert(stepped =~= open_arrays(1));
    } else {
        assert(opens_nested(stack.last(), '['));
        let pushed = stack.drop_last().push(suspended(stack.last())).push(fresh_frame());
        let stepped = pushed.drop_last().push(opened);
        assert(pushed.last() == fresh_frame());
        assert(stepped.last() == opened);
        lemma_fold_once(stepped);
        assert(stepped =~= open_arrays(n + 1));
    }
}

/// A parser that stands after `k` brackets and is fed `n` more fails with
/// the depth error exactly where that takes the stack beyond the limit.
proof fn lemma_brackets_from(parser: ParserView, k: nat, n: nat)
    requires
        parser.stack == open_arrays(k),
        parser.max_length is None,
        parser.max_depth is Some,
    ensures
        n == 0 || k + n <= parser.max_depth->0 ==> parser.feed(brackets(n)).1 is Ok
            && parser.feed(brackets(n)).0.stack == open_arrays(k + n),
        n > 0 && k + n > parser.max_depth->0 ==> parser.feed(brackets(n)).1 == Err::<
            (),
            ParseError,
        >(ParseError::DepthLimitExceeded),
    decreases n,
{
    if n > 0 {
        let text = brackets(n);
        assert(text[0] == '[');
        assert(text.drop_first() =~= brackets((n - 1) as nat));
        lemma_bracket_opens_level(k);
        if parser.step('[').1 is Ok {
            lemma_brackets_from(parser.step('[').0, k + 1, (n - 1) as nat);
        }
    }
}

/// The depth limit on nested arrays: `n` opening brackets make a stack of
/// `n` frames, so under a limit below `n` the parse fails with the depth
/// error, and under a limit above `n` it is taken. The limit `n` itself is
/// left out.
pub proof fn law_depth_limit(n: nat, max_depth: nat)
    requires
        max_depth != n,
    ensures
        max_depth < n + 1 ==> parsed_with_limits(brackets(n), Some(max_depth), None) == Err::<
            ValueView,
            ParseError,
        >(ParseError::DepthLimitExceeded),
        max_depth >= n + 1 ==> parsed_with_limits(brackets(n), Some(max_depth), None) is Ok,
{
    law_nested_arrays_depth(n, max_depth);
}

/// What the depth limit does to `n` opening brackets, for every limit: the
/// parse fails with the depth error where the limit is below `n`, and is
/// taken otherwise.
pub proof fn law_nested_arrays_depth(n: nat, max_depth: nat)
    ensures
        max_depth < n ==> parsed_with_limits(brackets(n), Some(max_depth), None) == Err::<
            ValueView,
            ParseError,
        >(ParseError::DepthLimitExceeded),
        max_depth >= n ==> parsed_with_limits(brackets(n), Some(max_depth), None) is Ok,
{
    let parser = ParserView::new(Some(max_depth), None);
    assert(parser.stack =~= open_arrays(0));
    lemma_brackets_from(parser, 0, n);
}

/// A parser that has counted its characters refuses a text that is longer
/// than what the length limit leaves.
pub proof fn lemma_length_from(parser: ParserView, chars: Seq<char>)
    requires
        parser.max_length is Some,
        parser.processed <= parser.max_length->0,
        chars.len() > parser.max_length->0 - parser.processed,
    ensures
        parser.feed(chars).1 is Err,
        parser.feed(chars.take(parser.max_length->0 - parser.processed)).1 is Ok
            ==> parser.feed(chars).1 == Err::<(), ParseError>(ParseError::LengthLimitExceeded),
    decreases chars.len(),
{
    let left = parser.max_length->0 - parser.processed;
    if left == 0 {
        assert(chars.take(0) =~= Seq::<char>::empty());
    } else {
        let next = parser.step(chars[0]).0;
        let first = chars.take(left);
        assert(first[0] == chars[0]);
        assert(first.drop_first() =~= chars.drop_first().take(left - 1));
        if parser.step(chars[0]).1 is Ok {
            lemma_length_from(next, chars.drop_first());
        }
    }
}

/// The length limit: a text longer than the limit is refused, whatever it
/// holds. Where its first characters up to the limit are taken, the error
/// is the length error, raised by the first character beyond the limit.
pub proof fn law_length_limit(chars: Seq<char>, max_depth: Option<nat>, max_length: nat)
    requires
        chars.len() > max_length,
    ensures
        parsed_with_limits(chars, max_depth, Some(max_length)) is Err,
        parsed_with_limits(chars.take(max_length as int), max_depth, Some(max_length)) is Ok
            ==> parsed_with_limits(chars, max_depth, Some(max_length)) == Err::<
            ValueView,
            ParseError,
        >(ParseError::LengthLimitExceeded),
{
    lemma_length_from(ParserView::new(max_depth, Some(max_length)), chars);
}

} // verus!
