//! The shape of match trees: what holds of every tree that the grammar
//! yields, and what the functions that read a tree rely on.

use crate::grammar::{
    array_tree, boolean_tree, char_at, elements_tree, is_digit, json_tree, key_value_tree,
    lemma_number_end_bounds, lemma_string_end_bounds, lemma_whitespace_end_bounds,
    lemma_word_run_bounds, members_tree, null_tree, number_tree, object_tree, rule_tree,
    string_tree, value_tree, whitespace_end, word_end, word_false, word_null, word_true,
    Failure, Rule, Tree,
};
use vstd::prelude::*;

verus! {

/// A tree is well formed for a text of `len` characters: every span lies in
/// the text, a value has one sub-match, a member has two, of which the first
/// is a string, and a string holds at least its two quotes.
pub open spec fn well_formed(t: Tree, len: int) -> bool
    decreases t,
{
    &&& 0 <= t.start <= t.end <= len
    &&& forall|i: int| 0 <= i < t.inner.len() ==> well_formed(#[trigger] t.inner[i], len)
    &&& match t.rule {
        Rule::Value => t.inner.len() == 1,
        Rule::KeyValue => t.inner.len() == 2 && t.inner[0].rule == Rule::String,
        Rule::String => t.start + 2 <= t.end,
        _ => true,
    }
}

/// Every tree of the sequence is well formed.
pub open spec fn all_well_formed(trees: Seq<Tree>, len: int) -> bool {
    forall|i: int| 0 <= i < trees.len() ==> well_formed(#[trigger] trees[i], len)
}

/// What holds of the outcome of a rule matched at `pos`: a tree is of that
/// rule, starts at `pos`, is not empty and is well formed; a failure lies at
/// or after `pos`, within the text or at its end.
pub open spec fn sound(outcome: Result<Tree, Failure>, rule: Rule, pos: int, len: int) -> bool {
    match outcome {
        Ok(t) => t.rule == rule && t.start == pos && pos < t.end <= len && well_formed(t, len),
        Err(f) => pos <= f.position <= len,
    }
}

pub proof fn lemma_string_tree(s: Seq<char>, pos: int)
    requires
        0 <= pos <= s.len(),
    ensures
        sound(string_tree(s, pos), Rule::String, pos, s.len() as int),
{
    lemma_string_end_bounds(s, pos);
}

pub proof fn lemma_number_tree(s: Seq<char>, pos: int)
    requires
        0 <= pos <= s.len(),
    ensures
        sound(number_tree(s, pos), Rule::Number, pos, s.len() as int),
{
    lemma_number_end_bounds(s, pos);
}

pub proof fn lemma_word_end(s: Seq<char>, pos: int, word: Seq<char>, rule: Rule)
    requires
        0 <= pos <= s.len(),
        word.len() > 0,
    ensures
        match word_end(s, pos, word, rule) {
            Ok(end) => pos < end <= s.len(),
            Err(f) => pos <= f.position <= s.len(),
        },
{
    lemma_word_run_bounds(s, pos, word);
}

pub proof fn lemma_boolean_tree(s: Seq<char>, pos: int)
    requires
        0 <= pos <= s.len(),
    ensures
        sound(boolean_tree(s, pos), Rule::Boolean, pos, s.len() as int),
{
    lemma_word_end(s, pos, word_true(), Rule::Boolean);
    lemma_word_end(s, pos, word_false(), Rule::Boolean);
}

pub proof fn lemma_null_tree(s: Seq<char>, pos: int)
    requires
        0 <= pos <= s.len(),
    ensures
        sound(null_tree(s, pos), Rule::Null, pos, s.len() as int),
{
    lemma_word_end(s, pos, word_null(), Rule::Null);
}

pub proof fn lemma_value_tree(s: Seq<char>, pos: int)
    requires
        0 <= pos <= s.len(),
    ensures
        sound(value_tree(s, pos), Rule::Value, pos, s.len() as int),
    decreases s.len() - pos, 1int,
{
    if pos < s.len() {
        let c = s[pos];
        if c == '{' {
            lemma_object_tree(s, pos);
        } else if c == '[' {
            lemma_array_tree(s, pos);
        } else if c == '"' {
            lemma_string_tree(s, pos);
        } else if c == '-' || is_digit(c) {
            lemma_number_tree(s, pos);
        } else if c == 't' || c == 'f' {
            lemma_boolean_tree(s, pos);
        } else if c == 'n' {
            lemma_null_tree(s, pos);
        }
    }
}

pub proof fn lemma_array_tree(s: Seq<char>, pos: int)
    requires
        0 <= pos <= s.len(),
    ensures
        sound(array_tree(s, pos), Rule::Array, pos, s.len() as int),
    decreases s.len() - pos, 0int,
{
    if char_at(s, pos, '[') {
        lemma_whitespace_end_bounds(s, pos + 1);
        let first = whitespace_end(s, pos + 1);
        if !char_at(s, first, ']') {
            lemma_elements_tree(s, pos, first, Seq::empty());
        }
    }
}

pub proof fn lemma_elements_tree(s: Seq<char>, open: int, pos: int, found: Seq<Tree>)
    requires
        0 <= open < pos <= s.len(),
        all_well_formed(found, s.len() as int),
    ensures
        match elements_tree(s, open, pos, found) {
            Ok(t) => t.rule == Rule::Array && t.start == open && pos < t.end <= s.len()
                && well_formed(t, s.len() as int),
            Err(f) => pos <= f.position <= s.len(),
        },
    decreases s.len() - pos, 2int,
{
    lemma_value_tree(s, pos);
    if let Ok(t) = value_tree(s, pos) {
        lemma_whitespace_end_bounds(s, t.end);
        let after = whitespace_end(s, t.end);
        if !char_at(s, after, ']') && char_at(s, after, ',') {
            lemma_whitespace_end_bounds(s, after + 1);
            lemma_elements_tree(s, open, whitespace_end(s, after + 1), found.push(t));
        }
    }
}

pub proof fn lemma_object_tree(s: Seq<char>, pos: int)
    requires
        0 <= pos <= s.len(),
    ensures
        sound(object_tree(s, pos), Rule::Object, pos, s.len() as int),
    decreases s.len() - pos, 0int,
{
    if char_at(s, pos, '{') {
        lemma_whitespace_end_bounds(s, pos + 1);
        let first = whitespace_end(s, pos + 1);
        if !char_at(s, first, '}') {
            lemma_members_tree(s, pos, first, Seq::empty());
        }
    }
}

pub proof fn lemma_members_tree(s: Seq<char>, open: int, pos: int, found: Seq<Tree>)
    requires
        0 <= open < pos <= s.len(),
        all_well_formed(found, s.len() as int),
    ensures
        match members_tree(s, open, pos, found) {
            Ok(t) => t.rule == Rule::Object && t.start == open && pos < t.end <= s.len()
                && well_formed(t, s.len() as int),
            Err(f) => pos <= f.position <= s.len(),
        },
    decreases s.len() - pos, 3int,
{
    lemma_key_value_tree(s, pos);
    if let Ok(t) = key_value_tree(s, pos) {
        lemma_whitespace_end_bounds(s, t.end);
        let after = whitespace_end(s, t.end);
        if !char_at(s, after, '}') && char_at(s, after, ',') {
            lemma_whitespace_end_bounds(s, after + 1);
            lemma_members_tree(s, open, whitespace_end(s, after + 1), found.push(t));
        }
    }
}

pub proof fn lemma_key_value_tree(s: Seq<char>, pos: int)
    requires
        0 <= pos <= s.len(),
    ensures
        sound(key_value_tree(s, pos), Rule::KeyValue, pos, s.len() as int),
    decreases s.len() - pos, 2int,
{
    lemma_string_tree(s, pos);
    if let Ok(key) = string_tree(s, pos) {
        lemma_whitespace_end_bounds(s, key.end);
        let colon = whitespace_end(s, key.end);
        if char_at(s, colon, ':') {
            lemma_whitespace_end_bounds(s, colon + 1);
            lemma_value_tree(s, whitespace_end(s, colon + 1));
        }
    }
}

/// A document's tree spans the whole text and holds the tree of its value.
pub proof fn lemma_json_tree(s: Seq<char>)
    ensures
        match json_tree(s) {
            Ok(t) => t.rule == Rule::Json && t.start == 0 && t.end == s.len() && t.inner.len() == 1
                && t.inner[0].rule == Rule::Value && well_formed(t, s.len() as int),
            Err(f) => 0 <= f.position <= s.len(),
        },
{
    lemma_whitespace_end_bounds(s, 0);
    lemma_value_tree(s, whitespace_end(s, 0));
    if let Ok(t) = value_tree(s, whitespace_end(s, 0)) {
        lemma_whitespace_end_bounds(s, t.end);
    }
}

/// Whatever rule is matched on a text, its tree is well formed for the text,
/// and its failure lies within the text or at its end.
pub proof fn lemma_rule_tree(rule: Rule, s: Seq<char>)
    ensures
        match rule_tree(rule, s) {
            Ok(t) => t.rule == rule && t.start == 0 && t.end <= s.len() && well_formed(
                t,
                s.len() as int,
            ),
            Err(f) => 0 <= f.position <= s.len(),
        },
{
    match rule {
        Rule::Json => lemma_json_tree(s),
        Rule::Value => lemma_value_tree(s, 0),
        Rule::Object => lemma_object_tree(s, 0),
        Rule::KeyValue => lemma_key_value_tree(s, 0),
        Rule::Array => lemma_array_tree(s, 0),
        Rule::String => lemma_string_tree(s, 0),
        Rule::Number => lemma_number_tree(s, 0),
        Rule::Boolean => lemma_boolean_tree(s, 0),
        Rule::Null => lemma_null_tree(s, 0),
    }
}

/// The sub-matches of every node of the tree lie within the node's span, one
/// behind the other.
pub open spec fn in_order(t: Tree) -> bool
    decreases t, 1int,
{
    row(t.inner, t.start, t.end)
}

/// The trees lie between `lo` and `hi`, one behind the other, and each is in
/// order.
pub open spec fn row(trees: Seq<Tree>, lo: int, hi: int) -> bool
    decreases trees, 0int,
{
    &&& forall|i: int|
        0 <= i < trees.len() ==> lo <= (#[trigger] trees[i]).start && trees[i].end <= hi
            && in_order(trees[i])
    &&& forall|i: int, j: int|
        0 <= i < j < trees.len() ==> (#[trigger] trees[i]).end <= (#[trigger] trees[j]).start
}

pub proof fn lemma_value_tree_in_order(s: Seq<char>, pos: int)
    requires
        0 <= pos <= s.len(),
    ensures
        value_tree(s, pos) is Ok ==> in_order(value_tree(s, pos)->Ok_0),
    decreases s.len() - pos, 1int,
{
    if pos < s.len() && value_tree(s, pos) is Ok {
        let c = s[pos];
        let kind = value_tree(s, pos)->Ok_0.inner[0];
        if c == '{' {
            lemma_object_tree_in_order(s, pos);
        } else if c == '[' {
            lemma_array_tree_in_order(s, pos);
        }
        assert(in_order(kind));
    }
}

pub proof fn lemma_array_tree_in_order(s: Seq<char>, pos: int)
    requires
        0 <= pos <= s.len(),
    ensures
        array_tree(s, pos) is Ok ==> in_order(array_tree(s, pos)->Ok_0),
    decreases s.len() - pos, 0int,
{
    if char_at(s, pos, '[') {
        lemma_whitespace_end_bounds(s, pos + 1);
        let first = whitespace_end(s, pos + 1);
        if !char_at(s, first, ']') {
            lemma_elements_tree_in_order(s, pos, first, Seq::empty());
        }
    }
}

pub proof fn lemma_elements_tree_in_order(s: Seq<char>, open: int, pos: int, found: Seq<Tree>)
    requires
        0 <= open < pos <= s.len(),
        row(found, open, pos),
    ensures
        elements_tree(s, open, pos, found) is Ok ==> in_order(
            elements_tree(s, open, pos, found)->Ok_0,
        ),
    decreases s.len() - pos, 2int,
{
    lemma_value_tree(s, pos);
    lemma_value_tree_in_order(s, pos);
    if let Ok(t) = value_tree(s, pos) {
        lemma_whitespace_end_bounds(s, t.end);
        let after = whitespace_end(s, t.end);
        if !char_at(s, after, ']') && char_at(s, after, ',') {
            lemma_whitespace_end_bounds(s, after + 1);
            lemma_elements_tree_in_order(s, open, whitespace_end(s, after + 1), found.push(t));
        }
    }
}

pub proof fn lemma_object_tree_in_order(s: Seq<char>, pos: int)
    requires
        0 <= pos <= s.len(),
    ensures
        object_tree(s, pos) is Ok ==> in_order(object_tree(s, pos)->Ok_0),
    decreases s.len() - pos, 0int,
{
    if char_at(s, pos, '{') {
        lemma_whitespace_end_bounds(s, pos + 1);
        let first = whitespace_end(s, pos + 1);
        if !char_at(s, first, '}') {
            lemma_members_tree_in_order(s, pos, first, Seq::empty());
        }
    }
}

pub proof fn lemma_members_tree_in_order(s: Seq<char>, open: int, pos: int, found: Seq<Tree>)
    requires
        0 <= open < pos <= s.len(),
        row(found, open, pos),
    ensures
        members_tree(s, open, pos, found) is Ok ==> in_order(
            members_tree(s, open, pos, found)->Ok_0,
        ),
    decreases s.len() - pos, 3int,
{
    lemma_key_value_tree(s, pos);
    lemma_key_value_tree_in_order(s, pos);
    if let Ok(t) = key_value_tree(s, pos) {
        lemma_whitespace_end_bounds(s, t.end);
        let after = whitespace_end(s, t.end);
        if !char_at(s, after, '}') && char_at(s, after, ',') {
            lemma_whitespace_end_bounds(s, after + 1);
            lemma_members_tree_in_order(s, open, whitespace_end(s, after + 1), found.push(t));
        }
    }
}

pub proof fn lemma_key_value_tree_in_order(s: Seq<char>, pos: int)
    requires
        0 <= pos <= s.len(),
    ensures
        key_value_tree(s, pos) is Ok ==> in_order(key_value_tree(s, pos)->Ok_0),
    decreases s.len() - pos, 2int,
{
    lemma_string_tree(s, pos);
    if let Ok(key) = string_tree(s, pos) {
        lemma_whitespace_end_bounds(s, key.end);
        let colon = whitespace_end(s, key.end);
        if char_at(s, colon, ':') {
            lemma_whitespace_end_bounds(s, colon + 1);
            let at = whitespace_end(s, colon + 1);
            lemma_value_tree(s, at);
            lemma_value_tree_in_order(s, at);
            assert(in_order(key));
        }
    }
}

/// Whatever rule is matched on a text, the sub-matches of every node of its
/// tree lie within the node's span, one behind the other.
pub proof fn lemma_rule_tree_in_order(rule: Rule, s: Seq<char>)
    ensures
        rule_tree(rule, s) is Ok ==> in_order(rule_tree(rule, s)->Ok_0),
{
    match rule {
        Rule::Json => {
            lemma_whitespace_end_bounds(s, 0);
            let start = whitespace_end(s, 0);
            lemma_value_tree(s, start);
            lemma_value_tree_in_order(s, start);
        },
        Rule::Value => lemma_value_tree_in_order(s, 0),
        Rule::Object => lemma_object_tree_in_order(s, 0),
        Rule::KeyValue => lemma_key_value_tree_in_order(s, 0),
        Rule::Array => lemma_array_tree_in_order(s, 0),
        _ => {},
    }
}

} // verus!
