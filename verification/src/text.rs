//! Character buffers: escape parity of a string body, and building text.

use vstd::prelude::*;

verus! {

/// `String::push` of the standard library appends one character to the end
/// of the string and changes nothing else.
pub assume_specification[ std::string::String::push ](s: &mut std::string::String, c: char)
    ensures
        final(s)@ == old(s)@.push(c),
;

/// The number of backslashes at the end of a text.
pub open spec fn trailing_backslashes(s: Seq<char>) -> nat
    decreases s.len(),
{
    if s.len() > 0 && s.last() == '\\' {
        1 + trailing_backslashes(s.drop_last())
    } else {
        0
    }
}

/// Whether a quote that follows the text is escaped: the text ends in an
/// odd number of backslashes.
pub open spec fn ends_escaped(s: Seq<char>) -> bool {
    trailing_backslashes(s) % 2 == 1
}

/// Tells whether a text ends in an odd number of backslashes.
pub fn ends_with_odd_backslashes(s: &str) -> (r: bool)
    ensures
        r == ends_escaped(s@),
{
    let mut odd: bool = false;
    for c in it: s.chars()
        invariant
            it.seq() == s@,
            odd == ends_escaped(s@.take(it.index())),
    {
        proof {
            let before = s@.take(it.index());
            let after = s@.take(it.index() + 1);
            assert(after.drop_last() =~= before);
            assert(after.last() == c);
        }
        if c == '\\' {
            odd = !odd;
        } else {
            odd = false;
        }
    }
    proof {
        assert(s@.take(s@.len() as int) =~= s@);
    }
    odd
}

/// The text made of the characters of a buffer, in order.
pub fn text_of(chars: &Vec<char>) -> (s: String)
    ensures
        s@ == chars@,
{
    let mut s = String::new();
    let mut i: usize = 0;
    while i < chars.len()
        invariant
            i <= chars.len(),
            s@ == chars@.take(i as int),
        decreases chars.len() - i,
    {
        s.push(chars[i]);
        assert(chars@.take(i + 1) =~= chars@.take(i as int).push(chars@[i as int]));
        i = i + 1;
    }
    assert(chars@.take(i as int) =~= chars@);
    s
}

} // verus!
