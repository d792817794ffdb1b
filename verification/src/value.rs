//! The value model: what a JSON document stands for.

use vstd::prelude::*;

verus! {

/// The mathematical content of a JSON value.
pub ghost enum JsonModel {
    /// A mapping from keys to values; each key occurs once.
    Object(Map<Seq<char>, JsonModel>),
    /// Values in their order.
    Array(Seq<JsonModel>),
    /// The characters between the quotes of a string literal, as they are
    /// written: an escape stays the backslash and the characters after it.
    String(Seq<char>),
    /// The characters of a number literal.
    Number(Seq<char>),
    Bool(bool),
    Null,
}

/// A JSON value.
///
/// A string holds the text between its quotes as it is written, escapes
/// unresolved. A number holds its literal; to turn it into a binary number is
/// left to the caller.
#[derive(Debug)]
pub enum JsonValue {
    Object(JsonObject),
    Array(Vec<JsonValue>),
    String(String),
    Number(String),
    Bool(bool),
    Null,
}

/// The members of a JSON object, in the order in which they were added. A key
/// may occur more than once; the last member with a key is the one that
/// counts.
#[derive(Debug)]
pub struct JsonObject {
    pub entries: Vec<(String, JsonValue)>,
}

/// The models of a sequence of values, one by one.
pub open spec fn models_of(values: Seq<JsonValue>) -> Seq<JsonModel>
    decreases values, 0int, 0int,
{
    Seq::new(
        values.len(),
        |i: int|
            if 0 <= i < values.len() {
                values[i]@
            } else {
                JsonModel::Null
            },
    )
}

/// The mapping that the first `n` members describe: a later member replaces
/// an earlier one with the same key.
pub open spec fn members_of(entries: Seq<(String, JsonValue)>, n: int) -> Map<
    Seq<char>,
    JsonModel,
>
    decreases entries, 0int, n,
{
    if n <= 0 || n > entries.len() {
        Map::empty()
    } else {
        members_of(entries, n - 1).insert(entries[n - 1].0@, entries[n - 1].1@)
    }
}

impl View for JsonValue {
    type V = JsonModel;

    open spec fn view(&self) -> JsonModel
        decreases self, 1int, 0int,
    {
        match self {
            JsonValue::Object(o) => JsonModel::Object(o@),
            JsonValue::Array(items) => JsonModel::Array(models_of(items@)),
            JsonValue::String(s) => JsonModel::String(s@),
            JsonValue::Number(n) => JsonModel::Number(n@),
            JsonValue::Bool(b) => JsonModel::Bool(*b),
            JsonValue::Null => JsonModel::Null,
        }
    }
}

impl View for JsonObject {
    type V = Map<Seq<char>, JsonModel>;

    open spec fn view(&self) -> Map<Seq<char>, JsonModel>
        decreases self, 1int, 0int,
    {
        members_of(self.entries@, self.entries@.len() as int)
    }
}

/// The value that an object holds under `key`; nothing where the value is no
/// object or the object has no such key.
pub open spec fn field(value: JsonModel, key: Seq<char>) -> Option<JsonModel> {
    match value {
        JsonModel::Object(members) => if members.contains_key(key) {
            Some(members[key])
        } else {
            None
        },
        _ => None,
    }
}

/// Members added after the first `n` leave what the first `n` describe.
pub proof fn lemma_members_of_push(
    entries: Seq<(String, JsonValue)>,
    entry: (String, JsonValue),
    n: int,
)
    requires
        0 <= n <= entries.len(),
    ensures
        members_of(entries.push(entry), n) == members_of(entries, n),
    decreases n,
{
    if n > 0 {
        lemma_members_of_push(entries, entry, n - 1);
    }
}

/// Members whose key is not `key` do not change what is found under `key`.
pub proof fn lemma_members_of_other_keys(
    entries: Seq<(String, JsonValue)>,
    from: int,
    n: int,
    key: Seq<char>,
)
    requires
        0 <= from <= n <= entries.len(),
        forall|j: int| from <= j < n ==> (#[trigger] entries[j]).0@ != key,
    ensures
        members_of(entries, n).contains_key(key) == members_of(entries, from).contains_key(key),
        members_of(entries, n).contains_key(key) ==> members_of(entries, n)[key] == members_of(
            entries,
            from,
        )[key],
    decreases n - from,
{
    if from < n {
        lemma_members_of_other_keys(entries, from, n - 1, key);
        let before = members_of(entries, n - 1);
        assert(members_of(entries, n) == before.insert(entries[n - 1].0@, entries[n - 1].1@));
    }
}

/// Every key of the mapping is the key of a member.
pub proof fn lemma_members_of_key(entries: Seq<(String, JsonValue)>, n: int, key: Seq<char>) -> (i:
    int)
    requires
        members_of(entries, n).contains_key(key),
    ensures
        0 <= i < n <= entries.len(),
        entries[i].0@ == key,
    decreases n,
{
    assert(members_of(entries, n) == members_of(entries, n - 1).insert(
        entries[n - 1].0@,
        entries[n - 1].1@,
    ));
    if entries[n - 1].0@ == key {
        n - 1
    } else {
        lemma_members_of_key(entries, n - 1, key)
    }
}

/// The key of every member is a key of the mapping.
pub proof fn lemma_members_of_member(entries: Seq<(String, JsonValue)>, n: int, i: int)
    requires
        0 <= i < n <= entries.len(),
    ensures
        members_of(entries, n).contains_key(entries[i].0@),
    decreases n,
{
    assert(members_of(entries, n) == members_of(entries, n - 1).insert(
        entries[n - 1].0@,
        entries[n - 1].1@,
    ));
    if i < n - 1 {
        lemma_members_of_member(entries, n - 1, i);
    }
}

/// Members with the same keys and values, one by one, describe the same
/// mapping.
pub proof fn lemma_members_of_same(
    a: Seq<(String, JsonValue)>,
    b: Seq<(String, JsonValue)>,
    n: int,
)
    requires
        0 <= n <= a.len(),
        n <= b.len(),
        forall|i: int| 0 <= i < n ==> (#[trigger] a[i]).0@ == b[i].0@ && a[i].1@ == b[i].1@,
    ensures
        members_of(a, n) == members_of(b, n),
    decreases n,
{
    if n > 0 {
        lemma_members_of_same(a, b, n - 1);
    }
}

impl Clone for JsonValue {
    /// A copy that stands for the same value.
    fn clone(&self) -> (copy: JsonValue)
        ensures
            copy@ == self@,
        decreases self, 1int,
    {
        match self {
            JsonValue::Object(object) => JsonValue::Object(object.clone()),
            JsonValue::Array(items) => JsonValue::Array(clone_values(items)),
            JsonValue::String(text) => JsonValue::String(text.clone()),
            JsonValue::Number(literal) => JsonValue::Number(literal.clone()),
            JsonValue::Bool(b) => JsonValue::Bool(*b),
            JsonValue::Null => JsonValue::Null,
        }
    }
}

/// Copies of the values, in their order.
fn clone_values(items: &Vec<JsonValue>) -> (copies: Vec<JsonValue>)
    ensures
        models_of(copies@) == models_of(items@),
    decreases items, 0int,
{
    let mut copies: Vec<JsonValue> = Vec::new();
    let mut i: usize = 0;
    while i < items.len()
        invariant
            i <= items.len(),
            copies.len() == i,
            forall|j: int| 0 <= j < i ==> (#[trigger] copies@[j])@ == items@[j]@,
        decreases items.len() - i,
    {
        let copy = items[i].clone();
        copies.push(copy);
        i += 1;
    }
    copies
}

impl Clone for JsonObject {
    /// A copy with the same members.
    fn clone(&self) -> (copy: JsonObject)
        ensures
            copy@ == self@,
        decreases self, 0int,
    {
        let mut entries: Vec<(String, JsonValue)> = Vec::new();
        let mut i: usize = 0;
        while i < self.entries.len()
            invariant
                i <= self.entries.len(),
                entries.len() == i,
                forall|j: int|
                    0 <= j < i ==> (#[trigger] entries@[j]).0@ == self.entries@[j].0@
                        && entries@[j].1@ == self.entries@[j].1@,
            decreases self.entries.len() - i,
        {
            let key = self.entries[i].0.clone();
            let value = self.entries[i].1.clone();
            entries.push((key, value));
            i += 1;
        }
        proof {
            lemma_members_of_same(entries@, self.entries@, i as int);
        }
        JsonObject { entries }
    }
}

impl JsonObject {
    /// An object without members.
    pub fn new() -> (object: JsonObject)
        ensures
            object@ == Map::<Seq<char>, JsonModel>::empty(),
    {
        JsonObject { entries: Vec::new() }
    }

    /// Puts `value` under `key`, in place of what the object held there.
    pub fn insert(&mut self, key: String, value: JsonValue)
        ensures
            final(self)@ == old(self)@.insert(key@, value@),
    {
        proof {
            lemma_members_of_push(
                self.entries@,
                (key, value),
                self.entries@.len() as int,
            );
        }
        self.entries.push((key, value));
    }

    /// The index of the last member with the key `key`, if the object has
    /// that key: the member that counts.
    pub fn position(&self, key: &str) -> (found: Option<usize>)
        ensures
            match found {
                Some(i) => i < self.entries.len() && self.entries@[i as int].0@ == key@
                    && self@.contains_key(key@) && self@[key@] == self.entries@[i as int].1@,
                None => !self@.contains_key(key@),
            },
    {
        let wanted = String::from_str(key);
        let mut i: usize = self.entries.len();
        while i > 0
            invariant
                i <= self.entries.len(),
                wanted@ == key@,
                forall|j: int|
                    i <= j < self.entries.len() ==> (#[trigger] self.entries@[j]).0@ != key@,
            decreases i,
        {
            i -= 1;
            if self.entries[i].0 == wanted {
                proof {
                    lemma_members_of_other_keys(
                        self.entries@,
                        i + 1,
                        self.entries@.len() as int,
                        key@,
                    );
                    assert(members_of(self.entries@, i + 1) == members_of(
                        self.entries@,
                        i as int,
                    ).insert(self.entries@[i as int].0@, self.entries@[i as int].1@));
                }
                return Some(i);
            }
        }
        proof {
            lemma_members_of_other_keys(self.entries@, 0, self.entries@.len() as int, key@);
        }
        None
    }

    /// The value under `key`, if the object has that key.
    pub fn get(&self, key: &str) -> (found: Option<&JsonValue>)
        ensures
            match found {
                Some(value) => self@.contains_key(key@) && self@[key@] == value@,
                None => !self@.contains_key(key@),
            },
    {
        match self.position(key) {
            Some(i) => Some(&self.entries[i].1),
            None => None,
        }
    }

    /// Whether the object has the key `key`.
    pub fn contains_key(&self, key: &str) -> (found: bool)
        ensures
            found == self@.contains_key(key@),
    {
        self.get(key).is_some()
    }
}

/// The value of the field `key` of `value`: nothing unless `value` is an
/// object that has the key. It looks into this one object only, not into the
/// values within it.
pub fn get_field<'a>(value: &'a JsonValue, key: &str) -> (found: Option<&'a JsonValue>)
    ensures
        match found {
            Some(v) => field(value@, key@) == Some(v@),
            None => field(value@, key@) is None,
        },
{
    match value {
        JsonValue::Object(object) => object.get(key),
        _ => None,
    }
}

} // verus!
