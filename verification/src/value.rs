//! The value tree that the parser builds, and its mathematical view.

use crate::number::Number;
use vstd::prelude::*;

verus! {

/// A JSON value. An object keeps its members in the order in which their
/// keys first came, each key once.
#[derive(Debug, PartialEq)]
pub enum Value {
    Null,
    Bool(bool),
    Number(Number),
    String(String),
    Array(Vec<Value>),
    Object(Vec<(String, Value)>),
}

/// What a `Value` stands for: the same tree over sequences.
pub enum ValueView {
    Null,
    Bool(bool),
    Number(Number),
    String(Seq<char>),
    Array(Seq<ValueView>),
    Object(Seq<(Seq<char>, ValueView)>),
}

/// The view of a value, by recursion over the tree.
pub open spec fn value_view(value: Value) -> ValueView
    decreases value,
{
    match value {
        Value::Null => ValueView::Null,
        Value::Bool(b) => ValueView::Bool(b),
        Value::Number(n) => ValueView::Number(n),
        Value::String(s) => ValueView::String(s@),
        Value::Array(items) => ValueView::Array(
            Seq::new(
                items@.len(),
                |i: int|
                    if 0 <= i < items@.len() {
                        value_view(items@[i])
                    } else {
                        ValueView::Null
                    },
            ),
        ),
        Value::Object(members) => ValueView::Object(
            Seq::new(
                members@.len(),
                |i: int|
                    if 0 <= i < members@.len() {
                        (members@[i].0@, value_view(members@[i].1))
                    } else {
                        (Seq::empty(), ValueView::Null)
                    },
            ),
        ),
    }
}

impl View for Value {
    type V = ValueView;

    open spec fn view(&self) -> ValueView {
        value_view(*self)
    }
}

/// The views of the elements of an array.
pub open spec fn items_view(items: Seq<Value>) -> Seq<ValueView> {
    Seq::new(items.len(), |i: int| items[i]@)
}

/// The views of the members of an object.
pub open spec fn members_view(members: Seq<(String, Value)>) -> Seq<(Seq<char>, ValueView)> {
    Seq::new(members.len(), |i: int| (members[i].0@, members[i].1@))
}

pub proof fn lemma_array_view(items: Vec<Value>)
    ensures
        Value::Array(items)@ == ValueView::Array(items_view(items@)),
{
    let direct = Value::Array(items)@;
    assert(direct->Array_0 =~= items_view(items@));
}

pub proof fn lemma_object_view(members: Vec<(String, Value)>)
    ensures
        Value::Object(members)@ == ValueView::Object(members_view(members@)),
{
    let direct = Value::Object(members)@;
    assert(direct->Object_0 =~= members_view(members@));
}

impl Clone for Value {
    /// A copy of the whole tree.
    fn clone(&self) -> (copy: Value)
        ensures
            copy@ == self@,
        decreases self,
    {
        match self {
            Value::Null => Value::Null,
            Value::Bool(b) => Value::Bool(*b),
            Value::Number(n) => Value::Number(*n),
            Value::String(s) => Value::String(s.clone()),
            Value::Array(items) => {
                let mut copies: Vec<Value> = Vec::new();
                let mut i: usize = 0;
                while i < items.len()
                    invariant
                        i <= items.len(),
                        copies.len() == i,
                        self == Value::Array(*items),
                        forall|j: int| 0 <= j < i ==> copies@[j]@ == items@[j]@,
                    decreases items.len() - i,
                {
                    proof {
                        assert(decreases_to!(*self => self->Array_0));
                        assert(decreases_to!(self->Array_0 => self->Array_0@));
                        assert(decreases_to!(self->Array_0@ => self->Array_0@[i as int]));
                    }
                    copies.push(items[i].clone());
                    i = i + 1;
                }
                proof {
                    lemma_array_view(*items);
                    lemma_array_view(copies);
                    assert(items_view(copies@) =~= items_view(items@));
                }
                Value::Array(copies)
            },
            Value::Object(members) => {
                let mut copies: Vec<(String, Value)> = Vec::new();
                let mut i: usize = 0;
                while i < members.len()
                    invariant
                        i <= members.len(),
                        copies.len() == i,
                        self == Value::Object(*members),
                        forall|j: int|
                            0 <= j < i ==> copies@[j].0@ == members@[j].0@ && copies@[j].1@
                                == members@[j].1@,
                    decreases members.len() - i,
                {
                    proof {
                        assert(decreases_to!(*self => self->Object_0));
                        assert(decreases_to!(self->Object_0 => self->Object_0@));
                        assert(decreases_to!(self->Object_0@ => self->Object_0@[i as int]));
                        assert(decreases_to!(self->Object_0@[i as int] => self->Object_0@[i as int].1));
                    }
                    copies.push((members[i].0.clone(), members[i].1.clone()));
                    i = i + 1;
                }
                proof {
                    lemma_object_view(*members);
                    lemma_object_view(copies);
                    assert(members_view(copies@) =~= members_view(members@));
                }
                Value::Object(copies)
            },
        }
    }
}

/// The place of the first member under `key`, if there is one.
pub open spec fn member_index(members: Seq<(Seq<char>, ValueView)>, key: Seq<char>) -> Option<int>
    decreases members.len(),
{
    if members.len() == 0 {
        None
    } else {
        match member_index(members.drop_last(), key) {
            Some(i) => Some(i),
            None => if members.last().0 == key {
                Some(members.len() - 1)
            } else {
                None
            },
        }
    }
}

/// The members after `value` is put under `key`: in the place of the member
/// that had the key, or at the end where none had it.
pub open spec fn with_member(
    members: Seq<(Seq<char>, ValueView)>,
    key: Seq<char>,
    value: ValueView,
) -> Seq<(Seq<char>, ValueView)> {
    match member_index(members, key) {
        Some(i) => members.update(i, (key, value)),
        None => members.push((key, value)),
    }
}

pub open spec fn keys_unique(members: Seq<(Seq<char>, ValueView)>) -> bool {
    forall|i: int, j: int|
        0 <= i < members.len() && 0 <= j < members.len() && i != j ==> (#[trigger] members[i]).0
            != (#[trigger] members[j]).0
}

impl ValueView {
    /// Numbers are in canonical form and no object holds a key twice, at
    /// every depth.
    pub open spec fn wf(self) -> bool
        decreases self,
    {
        match self {
            ValueView::Number(n) => n.wf(),
            ValueView::Array(items) => forall|i: int|
                0 <= i < items.len() ==> (#[trigger] items[i]).wf(),
            ValueView::Object(members) => keys_unique(members) && forall|i: int|
                0 <= i < members.len() ==> (#[trigger] members[i]).1.wf(),
            _ => true,
        }
    }
}

pub proof fn lemma_member_index(members: Seq<(Seq<char>, ValueView)>, key: Seq<char>)
    ensures
        match member_index(members, key) {
            Some(i) => 0 <= i < members.len() && members[i].0 == key && forall|j: int|
                0 <= j < i ==> (#[trigger] members[j]).0 != key,
            None => forall|j: int| 0 <= j < members.len() ==> (#[trigger] members[j]).0 != key,
        },
    decreases members.len(),
{
    if members.len() > 0 {
        let front = members.drop_last();
        lemma_member_index(front, key);
        match member_index(front, key) {
            Some(i) => {
                assert forall|j: int| 0 <= j < i implies (#[trigger] members[j]).0 != key by {
                    assert(front[j] == members[j]);
                }
            },
            None => {
                assert forall|j: int| 0 <= j < members.len() - 1 implies (#[trigger] members[j]).0
                    != key by {
                    assert(front[j] == members[j]);
                }
            },
        }
    }
}

/// Putting a value under a key keeps the keys apart and the values well formed.
pub proof fn lemma_with_member_wf(
    members: Seq<(Seq<char>, ValueView)>,
    key: Seq<char>,
    value: ValueView,
)
    requires
        ValueView::Object(members).wf(),
        value.wf(),
    ensures
        ValueView::Object(with_member(members, key, value)).wf(),
{
    lemma_member_index(members, key);
    let after = with_member(members, key, value);
    assert forall|i: int, j: int|
        0 <= i < after.len() && 0 <= j < after.len() && i != j implies (#[trigger] after[i]).0 != (
    #[trigger] after[j]).0 by {
        match member_index(members, key) {
            Some(k) => {
                assert(after[i].0 == members[i].0);
                assert(after[j].0 == members[j].0);
            },
            None => {
                if i < members.len() {
                    assert(after[i] == members[i]);
                }
                if j < members.len() {
                    assert(after[j] == members[j]);
                }
            },
        }
    }
    assert forall|i: int| 0 <= i < after.len() implies (#[trigger] after[i]).1.wf() by {
        match member_index(members, key) {
            Some(k) => {
                if i != k {
                    assert(after[i] == members[i]);
                }
            },
            None => {
                if i < members.len() {
                    assert(after[i] == members[i]);
                }
            },
        }
    }
}

/// Finds the place of the first member under `key`.
pub fn find_member(members: &Vec<(String, Value)>, key: &String) -> (r: Option<usize>)
    ensures
        match r {
            Some(i) => member_index(members_view(members@), key@) == Some(i as int),
            None => member_index(members_view(members@), key@) is None,
        },
{
    let ghost all = members_view(members@);
    let mut i: usize = 0;
    proof {
        assert(all.take(0) =~= Seq::empty());
    }
    while i < members.len()
        invariant
            i <= members.len(),
            all == members_view(members@),
            member_index(all.take(i as int), key@) is None,
        decreases members.len() - i,
    {
        proof {
            assert(all.take(i + 1).drop_last() =~= all.take(i as int));
            assert(all.take(i + 1).last() == all[i as int]);
        }
        if members[i].0 == *key {
            proof {
                lemma_member_index_extends(all, key@, i + 1);
            }
            return Some(i);
        }
        i = i + 1;
    }
    proof {
        assert(all.take(i as int) =~= all);
    }
    None
}

/// A key found among the first `k` members is found at the same place
/// among all of them.
pub proof fn lemma_member_index_extends(
    members: Seq<(Seq<char>, ValueView)>,
    key: Seq<char>,
    k: int,
)
    requires
        0 <= k <= members.len(),
        member_index(members.take(k), key) is Some,
    ensures
        member_index(members, key) == member_index(members.take(k), key),
    decreases members.len() - k,
{
    if k == members.len() {
        assert(members.take(k) =~= members);
    } else {
        assert(members.drop_last().take(k) =~= members.take(k));
        lemma_member_index_extends(members.drop_last(), key, k);
    }
}

/// Puts `value` under `key`: in place where the key is there already, at
/// the end where it is new.
pub fn set_member(members: &mut Vec<(String, Value)>, key: String, value: Value)
    ensures
        members_view(final(members)@) == with_member(members_view(old(members)@), key@, value@),
{
    let ghost before = members_view(members@);
    match find_member(members, &key) {
        Some(i) => {
            proof {
                lemma_member_index(before, key@);
            }
            members[i].1 = value;
            assert(members_view(members@) =~= before.update(i as int, (key@, value@)));
        },
        None => {
            members.push((key, value));
            assert(members_view(members@) =~= before.push((key@, value@)));
        },
    }
}

} // verus!
