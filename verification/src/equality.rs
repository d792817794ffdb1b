//! Equality of values: two values are equal when they stand for the same
//! thing. The order of an object's members does not count, nor a member that
//! a later one with the same key replaces. Numbers are equal when their
//! literals are, and strings when their texts are, as they are written.

use crate::value::{
    lemma_members_of_key, lemma_members_of_member, models_of, JsonObject, JsonValue,
};
use vstd::prelude::*;
use vstd::std_specs::cmp::PartialEqSpecImpl;

verus! {

/// Whether `b` has every key of `a`, with an equal value.
fn members_within(a: &JsonObject, b: &JsonObject) -> (within: bool)
    ensures
        within == (forall|key: Seq<char>| #[trigger]
            a@.contains_key(key) ==> b@.contains_key(key) && a@[key] == b@[key]),
    decreases a, 0int,
{
    let mut i: usize = 0;
    while i < a.entries.len()
        invariant
            i <= a.entries.len(),
            forall|j: int|
                0 <= j < i ==> b@.contains_key((#[trigger] a.entries@[j]).0@) && a@[a.entries@[j].0@]
                    == b@[a.entries@[j].0@],
        decreases a.entries.len() - i,
    {
        let key = a.entries[i].0.as_str();
        proof {
            lemma_members_of_member(a.entries@, a.entries@.len() as int, i as int);
        }
        let equal = match a.position(key) {
            Some(m) => match b.position(key) {
                Some(n) => values_equal(&a.entries[m].1, &b.entries[n].1),
                None => false,
            },
            None => false,
        };
        if !equal {
            return false;
        }
        i += 1;
    }
    proof {
        assert forall|key: Seq<char>| #[trigger] a@.contains_key(key) implies b@.contains_key(
            key,
        ) && a@[key] == b@[key] by {
            lemma_members_of_key(a.entries@, a.entries@.len() as int, key);
        }
    }
    true
}

/// Whether `b` has every key of `a`.
fn keys_within(a: &JsonObject, b: &JsonObject) -> (within: bool)
    ensures
        within == (forall|key: Seq<char>| #[trigger] a@.contains_key(key) ==> b@.contains_key(key)),
{
    let mut i: usize = 0;
    while i < a.entries.len()
        invariant
            i <= a.entries.len(),
            forall|j: int| 0 <= j < i ==> b@.contains_key((#[trigger] a.entries@[j]).0@),
        decreases a.entries.len() - i,
    {
        let key = a.entries[i].0.as_str();
        if !b.contains_key(key) {
            proof {
                lemma_members_of_member(a.entries@, a.entries@.len() as int, i as int);
            }
            assert(a@.contains_key(key@));
            return false;
        }
        i += 1;
    }
    proof {
        assert forall|key: Seq<char>| #[trigger] a@.contains_key(key) implies b@.contains_key(
            key,
        ) by {
            lemma_members_of_key(a.entries@, a.entries@.len() as int, key);
        }
    }
    true
}

/// Whether the values of `a` and of `b` are equal, one by one.
fn elements_equal(a: &Vec<JsonValue>, b: &Vec<JsonValue>) -> (equal: bool)
    ensures
        equal == (models_of(a@) == models_of(b@)),
    decreases a, 0int,
{
    if a.len() != b.len() {
        assert(models_of(a@).len() != models_of(b@).len());
        return false;
    }
    let mut i: usize = 0;
    while i < a.len()
        invariant
            i <= a.len(),
            a.len() == b.len(),
            forall|j: int| 0 <= j < i ==> (#[trigger] a@[j])@ == b@[j]@,
        decreases a.len() - i,
    {
        if !values_equal(&a[i], &b[i]) {
            assert(models_of(a@)[i as int] != models_of(b@)[i as int]);
            return false;
        }
        i += 1;
    }
    assert(models_of(a@) =~= models_of(b@));
    true
}

/// Whether `a` and `b` stand for the same value.
pub fn values_equal(a: &JsonValue, b: &JsonValue) -> (equal: bool)
    ensures
        equal == (a@ == b@),
    decreases a, 1int,
{
    match a {
        JsonValue::Object(x) => match b {
            JsonValue::Object(y) => {
                let within = members_within(x, y);
                let equal = within && keys_within(y, x);
                proof {
                    if equal {
                        assert(x@ =~= y@);
                    }
                }
                equal
            },
            _ => false,
        },
        JsonValue::Array(x) => match b {
            JsonValue::Array(y) => elements_equal(x, y),
            _ => false,
        },
        JsonValue::String(x) => match b {
            JsonValue::String(y) => *x == *y,
            _ => false,
        },
        JsonValue::Number(x) => match b {
            JsonValue::Number(y) => *x == *y,
            _ => false,
        },
        JsonValue::Bool(x) => match b {
            JsonValue::Bool(y) => *x == *y,
            _ => false,
        },
        JsonValue::Null => match b {
            JsonValue::Null => true,
            _ => false,
        },
    }
}

impl PartialEq for JsonValue {
    /// Whether the two values stand for the same thing.
    fn eq(&self, other: &JsonValue) -> (equal: bool) {
        values_equal(self, other)
    }
}

impl PartialEqSpecImpl for JsonValue {
    open spec fn obeys_eq_spec() -> bool {
        true
    }

    open spec fn eq_spec(&self, other: &JsonValue) -> bool {
        self@ == other@
    }
}

} // verus!
