//! What holds of the grammar and the builder together.

use crate::builder::{array_value, elements_value, members_value, object_value, tree_value};
use crate::derivation::{conforms, lemma_conforms_document};
use crate::document::document_value;
use crate::error::ErrorModel;
use crate::grammar::{
    array_tree, char_at, digit_at, elements_tree, is_json, json_tree, key_value_tree,
    lemma_string_end_bounds, lemma_whitespace_end_bounds, members_tree, number_end,
    object_tree, string_end, string_tree, value_tree, whitespace_end, Failure, Rule, Tree,
};
use crate::shape::{lemma_key_value_tree, lemma_value_tree};
use crate::value::JsonModel;
use vstd::prelude::*;

verus! {

/// The tree stands for a value.
pub open spec fn has_value(t: Tree, s: Seq<char>) -> bool {
    tree_value(t, s) is Ok
}

/// Every tree of the sequence stands for a value.
pub open spec fn all_have_value(trees: Seq<Tree>, s: Seq<char>) -> bool {
    forall|i: int| 0 <= i < trees.len() ==> has_value(#[trigger] trees[i], s)
}

/// The tree is a member whose second sub-match stands for a value.
pub open spec fn member_has_value(t: Tree, s: Seq<char>) -> bool {
    t.rule == Rule::KeyValue && t.inner.len() == 2 && has_value(t.inner[1], s)
}

/// Every tree of the sequence is a member whose second sub-match stands for a
/// value.
pub open spec fn all_members_have_value(trees: Seq<Tree>, s: Seq<char>) -> bool {
    forall|i: int| 0 <= i < trees.len() ==> member_has_value(#[trigger] trees[i], s)
}

/// An array node whose sub-matches all stand for values stands for a value.
pub proof fn lemma_elements_value_ok(t: Tree, n: int, s: Seq<char>)
    requires
        0 <= n <= t.inner.len(),
        all_have_value(t.inner, s),
    ensures
        elements_value(t, n, s) is Ok,
    decreases n,
{
    if n > 0 {
        lemma_elements_value_ok(t, n - 1, s);
    }
}

/// An object node whose sub-matches are all members with a value stands for a
/// value.
pub proof fn lemma_members_value_ok(t: Tree, n: int, s: Seq<char>)
    requires
        0 <= n <= t.inner.len(),
        all_members_have_value(t.inner, s),
    ensures
        members_value(t, n, s) is Ok,
    decreases n,
{
    if n > 0 {
        lemma_members_value_ok(t, n - 1, s);
    }
}

/// Every value that the grammar matches stands for a value of the model.
pub proof fn lemma_value_tree_has_value(s: Seq<char>, pos: int)
    requires
        0 <= pos <= s.len(),
    ensures
        value_tree(s, pos) is Ok ==> has_value(value_tree(s, pos)->Ok_0, s),
    decreases s.len() - pos, 1int,
{
    if pos < s.len() && value_tree(s, pos) is Ok {
        let c = s[pos];
        let kind = value_tree(s, pos)->Ok_0.inner[0];
        if c == '{' {
            lemma_object_tree_has_value(s, pos);
            assert(tree_value(kind, s) is Ok);
        } else if c == '[' {
            lemma_array_tree_has_value(s, pos);
        }
    }
}

pub proof fn lemma_array_tree_has_value(s: Seq<char>, pos: int)
    requires
        0 <= pos <= s.len(),
    ensures
        array_tree(s, pos) is Ok ==> has_value(array_tree(s, pos)->Ok_0, s),
    decreases s.len() - pos, 0int,
{
    if char_at(s, pos, '[') {
        lemma_whitespace_end_bounds(s, pos + 1);
        let first = whitespace_end(s, pos + 1);
        if !char_at(s, first, ']') {
            lemma_elements_tree_has_value(s, pos, first, Seq::empty());
        }
        if array_tree(s, pos) is Ok {
            let t = array_tree(s, pos)->Ok_0;
            lemma_elements_value_ok(t, t.inner.len() as int, s);
            assert(array_value(t, s) is Ok);
        }
    }
}

pub proof fn lemma_elements_tree_has_value(s: Seq<char>, open: int, pos: int, found: Seq<Tree>)
    requires
        0 <= open < pos <= s.len(),
        all_have_value(found, s),
    ensures
        match elements_tree(s, open, pos, found) {
            Ok(t) => t.rule == Rule::Array && all_have_value(t.inner, s),
            Err(_) => true,
        },
    decreases s.len() - pos, 2int,
{
    lemma_value_tree(s, pos);
    lemma_value_tree_has_value(s, pos);
    if let Ok(t) = value_tree(s, pos) {
        lemma_whitespace_end_bounds(s, t.end);
        let after = whitespace_end(s, t.end);
        if !char_at(s, after, ']') && char_at(s, after, ',') {
            lemma_whitespace_end_bounds(s, after + 1);
            lemma_elements_tree_has_value(s, open, whitespace_end(s, after + 1), found.push(t));
        }
    }
}

pub proof fn lemma_object_tree_has_value(s: Seq<char>, pos: int)
    requires
        0 <= pos <= s.len(),
    ensures
        object_tree(s, pos) is Ok ==> has_value(object_tree(s, pos)->Ok_0, s),
    decreases s.len() - pos, 0int,
{
    if char_at(s, pos, '{') {
        lemma_whitespace_end_bounds(s, pos + 1);
        let first = whitespace_end(s, pos + 1);
        if !char_at(s, first, '}') {
            lemma_members_tree_has_value(s, pos, first, Seq::empty());
        }
        if object_tree(s, pos) is Ok {
            let t = object_tree(s, pos)->Ok_0;
            lemma_members_value_ok(t, t.inner.len() as int, s);
            assert(object_value(t, s) is Ok);
        }
    }
}

pub proof fn lemma_members_tree_has_value(s: Seq<char>, open: int, pos: int, found: Seq<Tree>)
    requires
        0 <= open < pos <= s.len(),
        all_members_have_value(found, s),
    ensures
        match members_tree(s, open, pos, found) {
            Ok(t) => t.rule == Rule::Object && all_members_have_value(t.inner, s),
            Err(_) => true,
        },
    decreases s.len() - pos, 3int,
{
    lemma_key_value_tree(s, pos);
    lemma_key_value_tree_has_value(s, pos);
    if let Ok(t) = key_value_tree(s, pos) {
        lemma_whitespace_end_bounds(s, t.end);
        let after = whitespace_end(s, t.end);
        if !char_at(s, after, '}') && char_at(s, after, ',') {
            lemma_whitespace_end_bounds(s, after + 1);
            lemma_members_tree_has_value(s, open, whitespace_end(s, after + 1), found.push(t));
        }
    }
}

pub proof fn lemma_key_value_tree_has_value(s: Seq<char>, pos: int)
    requires
        0 <= pos <= s.len(),
    ensures
        key_value_tree(s, pos) is Ok ==> member_has_value(key_value_tree(s, pos)->Ok_0, s),
    decreases s.len() - pos, 2int,
{
    lemma_string_end_bounds(s, pos);
    if let Ok(key) = string_tree(s, pos) {
        lemma_whitespace_end_bounds(s, key.end);
        let colon = whitespace_end(s, key.end);
        if char_at(s, colon, ':') {
            lemma_whitespace_end_bounds(s, colon + 1);
            lemma_value_tree_has_value(s, whitespace_end(s, colon + 1));
        }
    }
}

/// Every text that the grammar accepts has a value: the builder fails on no
/// document.
pub proof fn lemma_document_has_value(s: Seq<char>)
    ensures
        is_json(s) <==> document_value(s) is Ok,
{
    lemma_whitespace_end_bounds(s, 0);
    lemma_value_tree_has_value(s, whitespace_end(s, 0));
}

/// Every text that the grammar derives is accepted and has a value: where a
/// tree of a document conforms to the text, the text is a document, and the
/// builder does not fail on it.
pub proof fn lemma_derived_text_is_accepted(t: Tree, s: Seq<char>)
    requires
        conforms(t, s),
        t.rule == Rule::Json,
    ensures
        is_json(s),
        json_tree(s) == Ok::<Tree, Failure>(t),
        document_value(s) is Ok,
{
    lemma_conforms_document(t, s);
    lemma_document_has_value(s);
}

/// The value of a document that is a string literal is the text between its
/// quotes, character by character: an escape stays as it is written.
pub proof fn lemma_string_document_value(s: Seq<char>)
    requires
        is_json(s),
        char_at(s, whitespace_end(s, 0), '"'),
    ensures
        string_end(s, whitespace_end(s, 0)) is Ok,
        document_value(s) == Ok::<JsonModel, ErrorModel>(
            JsonModel::String(
                s.subrange(
                    whitespace_end(s, 0) + 1,
                    string_end(s, whitespace_end(s, 0))->Ok_0 - 1,
                ),
            ),
        ),
{
    let t = json_tree(s)->Ok_0;
    assert(tree_value(t.inner[0], s) == tree_value(t.inner[0].inner[0], s));
}

/// The value of a document that is a number is the text of the number,
/// character by character.
pub proof fn lemma_number_document_value(s: Seq<char>)
    requires
        is_json(s),
        char_at(s, whitespace_end(s, 0), '-') || digit_at(s, whitespace_end(s, 0)),
    ensures
        number_end(s, whitespace_end(s, 0)) is Ok,
        document_value(s) == Ok::<JsonModel, ErrorModel>(
            JsonModel::Number(
                s.subrange(whitespace_end(s, 0), number_end(s, whitespace_end(s, 0))->Ok_0),
            ),
        ),
{
    let t = json_tree(s)->Ok_0;
    assert(tree_value(t.inner[0], s) == tree_value(t.inner[0].inner[0], s));
}

} // verus!
