//! JSON numbers and the conversion of integer text.

use vstd::prelude::*;

verus! {

/// A JSON number.
///
/// An integer is held exactly: `PosInt` for zero and above, `NegInt` for
/// values below zero. Any other number is held as the bit pattern of its
/// IEEE-754 binary64 value, so that the type stays made of integers.
#[derive(Clone, Copy, Debug, PartialEq, Eq, Structural)]
pub enum Number {
    PosInt(u64),
    NegInt(i64),
    Float { bits: u64 },
}

impl Number {
    /// A number is in canonical form when `NegInt` holds a negative value.
    pub open spec fn wf(self) -> bool {
        self matches Number::NegInt(i) ==> i < 0
    }

    /// The number that stands for the integer `v`.
    pub open spec fn of_int(v: int) -> Number
        recommends
            i64::MIN <= v <= i64::MAX,
    {
        if v < 0 {
            Number::NegInt(v as i64)
        } else {
            Number::PosInt(v as u64)
        }
    }

    /// The same number in canonical form.
    pub open spec fn canonical(self) -> Number {
        match self {
            Number::NegInt(i) => if i < 0 {
                self
            } else {
                Number::PosInt(i as u64)
            },
            _ => self,
        }
    }

    /// Brings a number into canonical form.
    pub fn to_canonical(self) -> (n: Number)
        ensures
            n == self.canonical(),
            n.wf(),
    {
        match self {
            Number::NegInt(i) => if i < 0 {
                self
            } else {
                Number::PosInt(i as u64)
            },
            _ => self,
        }
    }

    /// Builds the number for a signed integer.
    pub fn from_i64(v: i64) -> (n: Number)
        ensures
            n == Number::of_int(v as int),
            n.wf(),
    {
        if v < 0 {
            Number::NegInt(v)
        } else {
            Number::PosInt(v as u64)
        }
    }
}

/// A JSON value that is neither text nor a container.
#[derive(Clone, Copy, Debug, PartialEq, Eq, Structural)]
pub enum Scalar {
    Null,
    Bool(bool),
    Number(Number),
}

/// What the JSON text reader made of a text: one variant for each kind of
/// value. A string, an array or an object comes without what it holds.
#[derive(Clone, Copy, Debug, PartialEq, Eq, Structural)]
pub enum Reading {
    Null,
    Bool(bool),
    Number(Number),
    String,
    Array,
    Object,
}

impl Reading {
    /// The scalar that was read, if it was one.
    pub open spec fn scalar(self) -> Option<Scalar> {
        match self {
            Reading::Null => Some(Scalar::Null),
            Reading::Bool(b) => Some(Scalar::Bool(b)),
            Reading::Number(n) => Some(Scalar::Number(n)),
            _ => None,
        }
    }

    /// The scalar that was read, if it was one.
    pub fn to_scalar(self) -> (r: Option<Scalar>)
        ensures
            r == self.scalar(),
    {
        match self {
            Reading::Null => Some(Scalar::Null),
            Reading::Bool(b) => Some(Scalar::Bool(b)),
            Reading::Number(n) => Some(Scalar::Number(n)),
            _ => None,
        }
    }
}

/// The scalar in an answer of the reader: none where the reader gave no
/// answer, or read a value that is no scalar.
pub open spec fn scalar_read(reading: Option<Reading>) -> Option<Scalar> {
    match reading {
        Some(r) => r.scalar(),
        None => None,
    }
}

pub open spec fn is_digit(c: char) -> bool {
    '0' <= c <= '9'
}

pub open spec fn digit_value(c: char) -> int
    recommends
        is_digit(c),
{
    c as int - '0' as int
}

pub open spec fn all_digits(s: Seq<char>) -> bool {
    forall|i: int| 0 <= i < s.len() ==> is_digit(#[trigger] s[i])
}

/// The value of a run of decimal digits, most significant first.
pub open spec fn digits_value(s: Seq<char>) -> int
    decreases s.len(),
{
    if s.len() == 0 {
        0
    } else {
        digits_value(s.drop_last()) * 10 + digit_value(s.last())
    }
}

/// The value of a non-empty run of digits under a sign, if digits they are.
pub open spec fn signed_digits_value(negative: bool, digits: Seq<char>) -> Option<int> {
    if digits.len() > 0 && all_digits(digits) {
        if negative {
            Some(-digits_value(digits))
        } else {
            Some(digits_value(digits))
        }
    } else {
        None
    }
}

/// The integer that a text denotes: an optional sign, then one or more
/// decimal digits and nothing else. Leading zeros are allowed.
pub open spec fn integer_text_value(s: Seq<char>) -> Option<int> {
    if s.len() > 0 && (s[0] == '-' || s[0] == '+') {
        signed_digits_value(s[0] == '-', s.subrange(1, s.len() as int))
    } else {
        signed_digits_value(false, s)
    }
}

/// What `parse_integer` returns for a text: its value, where the text
/// denotes an integer that fits in 64 signed bits.
pub open spec fn integer_text_i64(s: Seq<char>) -> Option<i64> {
    match integer_text_value(s) {
        Some(v) => if i64::MIN <= v <= i64::MAX {
            Some(v as i64)
        } else {
            None
        },
        None => None,
    }
}

pub proof fn lemma_digits_value_nonnegative(s: Seq<char>)
    requires
        all_digits(s),
    ensures
        digits_value(s) >= 0,
    decreases s.len(),
{
    if s.len() > 0 {
        lemma_digits_value_nonnegative(s.drop_last());
    }
}

/// Reading more digits never makes the value smaller.
pub proof fn lemma_digits_value_grows(s: Seq<char>, k: int)
    requires
        all_digits(s),
        0 <= k <= s.len(),
    ensures
        digits_value(s.take(k)) <= digits_value(s),
    decreases s.len() - k,
{
    if k == s.len() {
        assert(s.take(k) =~= s);
    } else {
        lemma_digits_value_grows(s.drop_last(), k);
        assert(s.drop_last().take(k) =~= s.take(k));
        lemma_digits_value_nonnegative(s.drop_last());
    }
}

pub fn is_digit_char(c: char) -> (r: bool)
    ensures
        r == is_digit(c),
{
    '0' <= c && c <= '9'
}

/// The value of a decimal digit.
pub fn digit_of(c: char) -> (d: u8)
    requires
        is_digit(c),
    ensures
        d as int == digit_value(c),
        d <= 9,
{
    ((c as u32) - ('0' as u32)) as u8
}

/// Converts integer text to a signed 64-bit value: `None` where the text is
/// not an optional sign followed by digits, or the value does not fit.
pub fn parse_integer(text: &Vec<char>) -> (r: Option<i64>)
    ensures
        r == integer_text_i64(text@),
{
    let n: usize = text.len();
    if n == 0 {
        return None;
    }
    let negative: bool = text[0] == '-';
    let start: usize = if text[0] == '-' || text[0] == '+' {
        1
    } else {
        0
    };
    let ghost digits: Seq<char> = text@.subrange(start as int, n as int);
    proof {
        if start == 0 {
            assert(digits =~= text@);
        }
    }
    if start == n {
        return None;
    }
    assert(integer_text_value(text@) == signed_digits_value(negative, digits));
    // The magnitude is gathered below zero, where the range is one wider.
    let mut acc: i64 = 0;
    let mut i: usize = start;
    proof {
        assert(digits.take(0) =~= Seq::<char>::empty());
    }
    while i < n
        invariant
            start <= i <= n,
            start < n,
            n == text.len(),
            digits == text@.subrange(start as int, n as int),
            all_digits(digits.take(i - start)),
            acc as int == -digits_value(digits.take(i - start)),
            !negative ==> acc > i64::MIN,
            integer_text_value(text@) == signed_digits_value(negative, digits),
        decreases n - i,
    {
        let c: char = text[i];
        assert(digits[i - start] == c);
        if !is_digit_char(c) {
            assert(!all_digits(digits));
            return None;
        }
        let d: i64 = digit_of(c) as i64;
        let ghost before: Seq<char> = digits.take(i - start);
        let ghost after: Seq<char> = digits.take(i - start + 1);
        proof {
            assert(after.drop_last() =~= before);
            assert(after.last() == c);
            assert(all_digits(after)) by {
                assert forall|j: int| 0 <= j < after.len() implies is_digit(#[trigger] after[j]) by {
                    if j < before.len() {
                        assert(before[j] == after[j]);
                    }
                }
            }
            lemma_digits_value_nonnegative(before);
            if all_digits(digits) {
                lemma_digits_value_grows(digits, i - start + 1);
            }
        }
        let next: Option<i64> = match acc.checked_mul(10) {
            Some(m) => m.checked_sub(d),
            None => None,
        };
        match next {
            Some(v) => {
                if !negative && v == i64::MIN {
                    return None;
                }
                acc = v;
            },
            None => {
                return None;
            },
        }
        i = i + 1;
    }
    proof {
        assert(digits.take(n - start) =~= digits);
    }
    if negative {
        Some(acc)
    } else {
        Some(-acc)
    }
}

} // verus!
