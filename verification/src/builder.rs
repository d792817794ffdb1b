//! The builder: it turns a match tree into the value that the tree stands
//! for.

use crate::error::{ErrorModel, ParseError};
use crate::grammar::{number_end, rule_name, word_true, Failure, Rule, Tree};
use crate::matcher::{match_number, Pair};
use crate::shape::well_formed;
use crate::text::string_of;
use crate::value::{models_of, JsonModel, JsonObject, JsonValue};
use vstd::prelude::*;

verus! {

/// The text that a tree spans.
pub open spec fn span(s: Seq<char>, t: Tree) -> Seq<char> {
    s.subrange(t.start, t.end)
}

/// The text that a tree spans, without its first and its last character: of
/// a string literal, what stands between the quotes.
pub open spec fn string_content(s: Seq<char>, t: Tree) -> Seq<char> {
    s.subrange(t.start + 1, t.end - 1)
}

/// The value of a number node: its text, provided that the text is a number
/// literal, that is, that a number matched at the node's start ends at the
/// node's end.
pub open spec fn number_value(t: Tree, s: Seq<char>) -> Result<JsonModel, ErrorModel> {
    if number_end(s, t.start) == Ok::<int, Failure>(t.end) {
        Ok(JsonModel::Number(span(s, t)))
    } else {
        Err(ErrorModel::InvalidNumber(span(s, t)))
    }
}

/// The value that a tree over the text `s` stands for.
///
/// A value node stands for what its sub-match stands for, and a member for
/// its first sub-match, the key. An object holds its members' values under
/// their keys, a later member replacing an earlier one with the same key; an
/// array holds its elements' values in order. A document node stands for no
/// value, and neither does a value node or a member without sub-matches.
pub open spec fn tree_value(t: Tree, s: Seq<char>) -> Result<JsonModel, ErrorModel>
    decreases t, 1int, 0int,
{
    match t.rule {
        Rule::Value | Rule::KeyValue => if t.inner.len() > 0 {
            tree_value(t.inner[0], s)
        } else {
            Err(ErrorModel::UnexpectedRule(rule_name(t.rule)))
        },
        Rule::Object => object_value(t, s),
        Rule::Array => array_value(t, s),
        Rule::String => Ok(JsonModel::String(string_content(s, t))),
        Rule::Number => number_value(t, s),
        Rule::Boolean => Ok(JsonModel::Bool(span(s, t) == word_true())),
        Rule::Null => Ok(JsonModel::Null),
        Rule::Json => Err(ErrorModel::UnexpectedRule(rule_name(t.rule))),
    }
}

/// The object that the sub-matches of a node describe.
pub open spec fn object_value(t: Tree, s: Seq<char>) -> Result<JsonModel, ErrorModel>
    decreases t, 0int, t.inner.len() + 1,
{
    match members_value(t, t.inner.len() as int, s) {
        Ok(members) => Ok(JsonModel::Object(members)),
        Err(e) => Err(e),
    }
}

/// The array that the sub-matches of a node describe.
pub open spec fn array_value(t: Tree, s: Seq<char>) -> Result<JsonModel, ErrorModel>
    decreases t, 0int, t.inner.len() + 1,
{
    match elements_value(t, t.inner.len() as int, s) {
        Ok(elements) => Ok(JsonModel::Array(elements)),
        Err(e) => Err(e),
    }
}

/// The mapping that the first `n` sub-matches of an object node describe, or
/// the error of the first of them whose value has none. Only members count;
/// each puts its value under its key.
pub open spec fn members_value(t: Tree, n: int, s: Seq<char>) -> Result<
    Map<Seq<char>, JsonModel>,
    ErrorModel,
>
    decreases t, 0int, n,
{
    if n <= 0 || n > t.inner.len() {
        Ok(Map::empty())
    } else {
        match members_value(t, n - 1, s) {
            Err(e) => Err(e),
            Ok(members) => {
                let member = t.inner[n - 1];
                if member.rule == Rule::KeyValue && member.inner.len() >= 2 {
                    match tree_value(member.inner[1], s) {
                        Err(e) => Err(e),
                        Ok(value) => Ok(members.insert(string_content(s, member.inner[0]), value)),
                    }
                } else {
                    Ok(members)
                }
            },
        }
    }
}

/// The values of the first `n` sub-matches of an array node, in order, or the
/// error of the first of them whose value has none. Only values count.
pub open spec fn elements_value(t: Tree, n: int, s: Seq<char>) -> Result<
    Seq<JsonModel>,
    ErrorModel,
>
    decreases t, 0int, n,
{
    if n <= 0 || n > t.inner.len() {
        Ok(Seq::empty())
    } else {
        match elements_value(t, n - 1, s) {
            Err(e) => Err(e),
            Ok(elements) => {
                let element = t.inner[n - 1];
                if element.rule == Rule::Value {
                    match tree_value(element, s) {
                        Err(e) => Err(e),
                        Ok(value) => Ok(elements.push(value)),
                    }
                } else {
                    Ok(elements)
                }
            },
        }
    }
}

/// The builder gave what the tree stands for: that value, or that error.
pub open spec fn built(
    result: Result<JsonValue, ParseError>,
    expected: Result<JsonModel, ErrorModel>,
) -> bool {
    match result {
        Ok(value) => expected == Ok::<JsonModel, ErrorModel>(value@),
        Err(e) => expected == Err::<JsonModel, ErrorModel>(e@),
    }
}

/// An error among the first sub-matches of an object node is the error of
/// the whole node.
pub proof fn lemma_members_value_error(t: Tree, k: int, n: int, s: Seq<char>)
    requires
        0 <= k <= n <= t.inner.len(),
        members_value(t, k, s) is Err,
    ensures
        members_value(t, n, s) == members_value(t, k, s),
    decreases n - k,
{
    if k < n {
        lemma_members_value_error(t, k, n - 1, s);
    }
}

/// An error among the first sub-matches of an array node is the error of the
/// whole node.
pub proof fn lemma_elements_value_error(t: Tree, k: int, n: int, s: Seq<char>)
    requires
        0 <= k <= n <= t.inner.len(),
        elements_value(t, k, s) is Err,
    ensures
        elements_value(t, n, s) == elements_value(t, k, s),
    decreases n - k,
{
    if k < n {
        lemma_elements_value_error(t, k, n - 1, s);
    }
}

/// Builds the value of a string node: the text between its quotes.
pub fn parse_string(pair: &Pair, text: &[char]) -> (value: JsonValue)
    requires
        pair.start + 2 <= pair.end <= text.len(),
    ensures
        value@ == JsonModel::String(string_content(text@, pair@)),
{
    JsonValue::String(string_of(text, pair.start + 1, pair.end - 1))
}

/// Builds the value of a number node: its text, if that is a number literal.
pub fn parse_number(pair: &Pair, text: &[char]) -> (result: Result<JsonValue, ParseError>)
    requires
        pair.start <= pair.end <= text.len(),
    ensures
        built(result, number_value(pair@, text@)),
{
    let literal = string_of(text, pair.start, pair.end);
    match match_number(text, pair.start) {
        Ok(number) => {
            if number.end == pair.end {
                Ok(JsonValue::Number(literal))
            } else {
                Err(ParseError::InvalidNumber(literal))
            }
        },
        Err(_) => Err(ParseError::InvalidNumber(literal)),
    }
}

/// Builds the value of a boolean node: true if its text is `true`.
pub fn parse_bool(pair: &Pair, text: &[char]) -> (value: JsonValue)
    requires
        pair.start <= pair.end <= text.len(),
    ensures
        value@ == JsonModel::Bool(span(text@, pair@) == word_true()),
{
    let start = pair.start;
    let is_true = pair.end - start == 4 && text[start] == 't' && text[start + 1] == 'r' && text[start
        + 2] == 'u' && text[start + 3] == 'e';
    proof {
        if is_true {
            assert(span(text@, pair@) =~= word_true());
        }
    }
    JsonValue::Bool(is_true)
}

/// Builds the value that a node stands for.
pub fn parse_value(pair: &Pair, text: &[char]) -> (result: Result<JsonValue, ParseError>)
    requires
        well_formed(pair@, text.len() as int),
    ensures
        built(result, tree_value(pair@, text@)),
    decreases pair@, 1int, 0int,
{
    match pair.rule {
        Rule::Value | Rule::KeyValue => parse_value(&pair.inner[0], text),
        Rule::Object => parse_object(pair, text),
        Rule::Array => parse_array(pair, text),
        Rule::String => Ok(parse_string(pair, text)),
        Rule::Number => parse_number(pair, text),
        Rule::Boolean => Ok(parse_bool(pair, text)),
        Rule::Null => Ok(JsonValue::Null),
        Rule::Json => Err(ParseError::UnexpectedRule(String::from_str(pair.rule.name()))),
    }
}

/// Builds the object that the members under a node describe.
pub fn parse_object(pair: &Pair, text: &[char]) -> (result: Result<JsonValue, ParseError>)
    requires
        well_formed(pair@, text.len() as int),
    ensures
        built(result, object_value(pair@, text@)),
    decreases pair@, 0int, 0int,
{
    let mut object = JsonObject::new();
    let mut i: usize = 0;
    while i < pair.inner.len()
        invariant
            i <= pair.inner.len(),
            well_formed(pair@, text.len() as int),
            members_value(pair@, i as int, text@) == Ok::<Map<Seq<char>, JsonModel>, ErrorModel>(
                object@,
            ),
        decreases pair.inner.len() - i,
    {
        let member = &pair.inner[i];
        assert(pair@.inner[i as int] == member@);
        assert(well_formed(member@, text.len() as int));
        match member.rule {
            Rule::KeyValue => {
                assert(member@.inner[1] == member.inner[1]@);
                assert(well_formed(member.inner[0]@, text.len() as int));
                let key = parse_string(&member.inner[0], text);
                let value = match parse_value(&member.inner[1], text) {
                    Ok(value) => value,
                    Err(e) => {
                        proof {
                            lemma_members_value_error(
                                pair@,
                                i + 1,
                                pair@.inner.len() as int,
                                text@,
                            );
                        }
                        return Err(e);
                    },
                };
                match key {
                    JsonValue::String(k) => {
                        object.insert(k, value);
                    },
                    _ => {},
                }
            },
            _ => {},
        }
        i += 1;
    }
    Ok(JsonValue::Object(object))
}

/// Builds the array of the values under a node.
pub fn parse_array(pair: &Pair, text: &[char]) -> (result: Result<JsonValue, ParseError>)
    requires
        well_formed(pair@, text.len() as int),
    ensures
        built(result, array_value(pair@, text@)),
    decreases pair@, 0int, 0int,
{
    let mut items: Vec<JsonValue> = Vec::new();
    let mut i: usize = 0;
    proof {
        assert(models_of(items@) =~= Seq::<JsonModel>::empty());
    }
    while i < pair.inner.len()
        invariant
            i <= pair.inner.len(),
            well_formed(pair@, text.len() as int),
            elements_value(pair@, i as int, text@) == Ok::<Seq<JsonModel>, ErrorModel>(
                models_of(items@),
            ),
        decreases pair.inner.len() - i,
    {
        let element = &pair.inner[i];
        assert(pair@.inner[i as int] == element@);
        match element.rule {
            Rule::Value => {
                let value = match parse_value(element, text) {
                    Ok(value) => value,
                    Err(e) => {
                        proof {
                            lemma_elements_value_error(
                                pair@,
                                i + 1,
                                pair@.inner.len() as int,
                                text@,
                            );
                        }
                        return Err(e);
                    },
                };
                let ghost before = models_of(items@);
                let ghost model = value@;
                items.push(value);
                proof {
                    assert(models_of(items@) =~= before.push(model));
                }
            },
            _ => {},
        }
        i += 1;
    }
    Ok(JsonValue::Array(items))
}

} // verus!
