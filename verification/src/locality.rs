//! A match depends on nothing but the text that it reads: a rule matched on
//! two texts that hold the same characters, up to and including the place
//! where the match on the first ends or fails, gives the same on both.
//!
//! So a failure is final: no text that shares the characters up to the place
//! of the failure is a document.

use crate::grammar::{
    array_tree, boolean_end, char_at, digit_at, digits_end, elements_tree, exponent_end,
    fraction_end, hex_run, integer_end, is_digit, is_escape_letter, is_json, is_whitespace,
    json_tree, key_value_tree, lemma_digits_end_bounds, lemma_string_body_end_bounds,
    lemma_string_end_bounds, lemma_whitespace_end_bounds, lemma_word_run_bounds, members_tree,
    null_end, number_end, object_tree, string_body_end, string_tree, value_tree, whitespace_end,
    word_false, word_null, word_run, word_true, Failure, Tree,
};
use crate::shape::{
    all_well_formed, lemma_elements_tree, lemma_key_value_tree, lemma_members_tree,
    lemma_value_tree,
};
use vstd::prelude::*;

verus! {

/// The texts `s` and `r` hold the same characters up to and including the
/// position `n`, which lies in both.
pub open spec fn same_through(s: Seq<char>, r: Seq<char>, n: int) -> bool {
    &&& 0 <= n < s.len()
    &&& n < r.len()
    &&& forall|i: int| 0 <= i <= n ==> #[trigger] s[i] == r[i]
}

/// Where a scan stopped reading: where it ended, or where it failed.
pub open spec fn scan_reach(outcome: Result<int, Failure>) -> int {
    match outcome {
        Ok(end) => end,
        Err(f) => f.position,
    }
}

/// Where a match stopped reading: where it ended, or where it failed.
pub open spec fn match_reach(outcome: Result<Tree, Failure>) -> int {
    match outcome {
        Ok(t) => t.end,
        Err(f) => f.position,
    }
}

pub proof fn lemma_same_whitespace(s: Seq<char>, r: Seq<char>, pos: int)
    requires
        0 <= pos <= s.len(),
    ensures
        same_through(s, r, whitespace_end(s, pos)) ==> whitespace_end(r, pos) == whitespace_end(
            s,
            pos,
        ),
    decreases s.len() - pos,
{
    lemma_whitespace_end_bounds(s, pos);
    if same_through(s, r, whitespace_end(s, pos)) && is_whitespace(s[pos]) {
        lemma_same_whitespace(s, r, pos + 1);
    }
}

pub proof fn lemma_same_digits(s: Seq<char>, r: Seq<char>, pos: int)
    requires
        0 <= pos <= s.len(),
    ensures
        same_through(s, r, digits_end(s, pos)) ==> digits_end(r, pos) == digits_end(s, pos),
    decreases s.len() - pos,
{
    lemma_digits_end_bounds(s, pos);
    if same_through(s, r, digits_end(s, pos)) && digit_at(s, pos) {
        lemma_same_digits(s, r, pos + 1);
    }
}

pub proof fn lemma_same_integer(s: Seq<char>, r: Seq<char>, pos: int)
    requires
        0 <= pos <= s.len(),
    ensures
        same_through(s, r, scan_reach(integer_end(s, pos))) ==> integer_end(r, pos)
            == integer_end(s, pos),
{
    lemma_digits_end_bounds(s, pos);
    if same_through(s, r, scan_reach(integer_end(s, pos))) {
        lemma_same_digits(s, r, pos);
    }
}

pub proof fn lemma_same_fraction(s: Seq<char>, r: Seq<char>, pos: int)
    requires
        0 <= pos <= s.len(),
    ensures
        same_through(s, r, scan_reach(fraction_end(s, pos))) ==> fraction_end(r, pos)
            == fraction_end(s, pos),
{
    if same_through(s, r, scan_reach(fraction_end(s, pos))) && char_at(s, pos, '.') {
        lemma_digits_end_bounds(s, pos + 1);
        lemma_same_digits(s, r, pos + 1);
    }
}

pub proof fn lemma_same_exponent(s: Seq<char>, r: Seq<char>, pos: int)
    requires
        0 <= pos <= s.len(),
    ensures
        same_through(s, r, scan_reach(exponent_end(s, pos))) ==> exponent_end(r, pos)
            == exponent_end(s, pos),
{
    if char_at(s, pos, 'e') || char_at(s, pos, 'E') {
        let digits = if char_at(s, pos + 1, '+') || char_at(s, pos + 1, '-') {
            pos + 2
        } else {
            pos + 1
        };
        lemma_digits_end_bounds(s, digits);
        if same_through(s, r, scan_reach(exponent_end(s, pos))) {
            lemma_same_digits(s, r, digits);
        }
    }
}

pub proof fn lemma_same_number(s: Seq<char>, r: Seq<char>, pos: int)
    requires
        0 <= pos <= s.len(),
    ensures
        same_through(s, r, scan_reach(number_end(s, pos))) ==> number_end(r, pos) == number_end(
            s,
            pos,
        ),
{
    if same_through(s, r, scan_reach(number_end(s, pos))) {
        let integer = if char_at(s, pos, '-') {
            pos + 1
        } else {
            pos
        };
        lemma_digits_end_bounds(s, integer);
        lemma_same_integer(s, r, integer);
        if let Ok(fraction) = integer_end(s, integer) {
            if char_at(s, fraction, '.') {
                lemma_digits_end_bounds(s, fraction + 1);
            }
            lemma_same_fraction(s, r, fraction);
            if let Ok(exponent) = fraction_end(s, fraction) {
                if char_at(s, exponent, 'e') || char_at(s, exponent, 'E') {
                    let digits = if char_at(s, exponent + 1, '+') || char_at(
                        s,
                        exponent + 1,
                        '-',
                    ) {
                        exponent + 2
                    } else {
                        exponent + 1
                    };
                    lemma_digits_end_bounds(s, digits);
                }
                lemma_same_exponent(s, r, exponent);
            }
        }
    }
}

pub proof fn lemma_same_string_body(s: Seq<char>, r: Seq<char>, pos: int)
    requires
        0 <= pos <= s.len(),
    ensures
        same_through(s, r, scan_reach(string_body_end(s, pos))) ==> string_body_end(r, pos)
            == string_body_end(s, pos),
    decreases s.len() - pos,
{
    lemma_string_body_end_bounds(s, pos);
    if pos < s.len() && s[pos] == '\\' {
        if pos + 1 < s.len() && is_escape_letter(s[pos + 1]) {
            lemma_string_body_end_bounds(s, pos + 2);
        } else if char_at(s, pos + 1, 'u') && hex_run(s, pos + 2) == 4 {
            lemma_string_body_end_bounds(s, pos + 6);
        }
    }
    if same_through(s, r, scan_reach(string_body_end(s, pos))) {
        if s[pos] == '\\' {
            if is_escape_letter(s[pos + 1]) {
                lemma_same_string_body(s, r, pos + 2);
            } else if char_at(s, pos + 1, 'u') && hex_run(s, pos + 2) == 4 {
                lemma_same_string_body(s, r, pos + 6);
            }
        } else if s[pos] != '"' {
            lemma_same_string_body(s, r, pos + 1);
        }
    }
}

pub proof fn lemma_same_string(s: Seq<char>, r: Seq<char>, pos: int)
    requires
        0 <= pos <= s.len(),
    ensures
        same_through(s, r, match_reach(string_tree(s, pos))) ==> string_tree(r, pos)
            == string_tree(s, pos),
{
    lemma_string_end_bounds(s, pos);
    if same_through(s, r, match_reach(string_tree(s, pos))) && char_at(s, pos, '"') {
        lemma_same_string_body(s, r, pos + 1);
    }
}

pub proof fn lemma_same_word_run(s: Seq<char>, r: Seq<char>, pos: int, word: Seq<char>)
    requires
        0 <= pos <= s.len(),
    ensures
        same_through(s, r, pos + word_run(s, pos, word)) ==> word_run(r, pos, word) == word_run(
            s,
            pos,
            word,
        ),
    decreases word.len(),
{
    lemma_word_run_bounds(s, pos, word);
    if same_through(s, r, pos + word_run(s, pos, word)) {
        if word.len() > 0 && char_at(s, pos, word[0]) {
            lemma_same_word_run(s, r, pos + 1, word.drop_first());
        }
    }
}

pub proof fn lemma_same_words(s: Seq<char>, r: Seq<char>, pos: int)
    requires
        0 <= pos <= s.len(),
    ensures
        same_through(s, r, scan_reach(boolean_end(s, pos))) ==> boolean_end(r, pos)
            == boolean_end(s, pos),
        same_through(s, r, scan_reach(null_end(s, pos))) ==> null_end(r, pos) == null_end(s, pos),
{
    if same_through(s, r, scan_reach(boolean_end(s, pos))) {
        lemma_same_word_run(s, r, pos, word_true());
        lemma_same_word_run(s, r, pos, word_false());
    }
    if same_through(s, r, scan_reach(null_end(s, pos))) {
        lemma_same_word_run(s, r, pos, word_null());
    }
}

/// A value matched on two texts that are the same through the place where
/// the match on the first stops gives the same tree, or the same failure.
pub proof fn lemma_same_value(s: Seq<char>, r: Seq<char>, pos: int)
    requires
        0 <= pos <= s.len(),
    ensures
        same_through(s, r, match_reach(value_tree(s, pos))) ==> value_tree(r, pos) == value_tree(
            s,
            pos,
        ),
    decreases s.len() - pos, 1int,
{
    if same_through(s, r, match_reach(value_tree(s, pos))) {
        let c = s[pos];
        if c == '{' {
            lemma_same_object(s, r, pos);
        } else if c == '[' {
            lemma_same_array(s, r, pos);
        } else if c == '"' {
            lemma_same_string(s, r, pos);
        } else if c == '-' || is_digit(c) {
            lemma_same_number(s, r, pos);
        } else {
            lemma_same_words(s, r, pos);
        }
    }
}

pub proof fn lemma_same_array(s: Seq<char>, r: Seq<char>, pos: int)
    requires
        0 <= pos <= s.len(),
    ensures
        same_through(s, r, match_reach(array_tree(s, pos))) ==> array_tree(r, pos) == array_tree(
            s,
            pos,
        ),
    decreases s.len() - pos, 0int,
{
    if same_through(s, r, match_reach(array_tree(s, pos))) && char_at(s, pos, '[') {
        let first = whitespace_end(s, pos + 1);
        lemma_whitespace_end_bounds(s, pos + 1);
        if !char_at(s, first, ']') {
            lemma_elements_tree(s, pos, first, Seq::empty());
            lemma_same_elements(s, r, pos, first, Seq::empty());
        }
        lemma_same_whitespace(s, r, pos + 1);
    }
}

pub proof fn lemma_same_elements(
    s: Seq<char>,
    r: Seq<char>,
    open: int,
    pos: int,
    found: Seq<Tree>,
)
    requires
        0 <= open < pos <= s.len(),
        all_well_formed(found, s.len() as int),
    ensures
        same_through(s, r, match_reach(elements_tree(s, open, pos, found))) ==> elements_tree(
            r,
            open,
            pos,
            found,
        ) == elements_tree(s, open, pos, found),
    decreases s.len() - pos, 2int,
{
    lemma_value_tree(s, pos);
    if same_through(s, r, match_reach(elements_tree(s, open, pos, found))) {
        lemma_same_value(s, r, pos);
        if let Ok(t) = value_tree(s, pos) {
            let after = whitespace_end(s, t.end);
            lemma_whitespace_end_bounds(s, t.end);
            if char_at(s, after, ',') {
                let next = whitespace_end(s, after + 1);
                lemma_whitespace_end_bounds(s, after + 1);
                lemma_elements_tree(s, open, next, found.push(t));
                lemma_same_elements(s, r, open, next, found.push(t));
                lemma_same_whitespace(s, r, after + 1);
            }
            lemma_same_whitespace(s, r, t.end);
        }
    }
}

pub proof fn lemma_same_object(s: Seq<char>, r: Seq<char>, pos: int)
    requires
        0 <= pos <= s.len(),
    ensures
        same_through(s, r, match_reach(object_tree(s, pos))) ==> object_tree(r, pos)
            == object_tree(s, pos),
    decreases s.len() - pos, 0int,
{
    if same_through(s, r, match_reach(object_tree(s, pos))) && char_at(s, pos, '{') {
        let first = whitespace_end(s, pos + 1);
        lemma_whitespace_end_bounds(s, pos + 1);
        if !char_at(s, first, '}') {
            lemma_members_tree(s, pos, first, Seq::empty());
            lemma_same_members(s, r, pos, first, Seq::empty());
        }
        lemma_same_whitespace(s, r, pos + 1);
    }
}

pub proof fn lemma_same_members(
    s: Seq<char>,
    r: Seq<char>,
    open: int,
    pos: int,
    found: Seq<Tree>,
)
    requires
        0 <= open < pos <= s.len(),
        all_well_formed(found, s.len() as int),
    ensures
        same_through(s, r, match_reach(members_tree(s, open, pos, found))) ==> members_tree(
            r,
            open,
            pos,
            found,
        ) == members_tree(s, open, pos, found),
    decreases s.len() - pos, 3int,
{
    lemma_key_value_tree(s, pos);
    if same_through(s, r, match_reach(members_tree(s, open, pos, found))) {
        lemma_same_key_value(s, r, pos);
        if let Ok(t) = key_value_tree(s, pos) {
            let after = whitespace_end(s, t.end);
            lemma_whitespace_end_bounds(s, t.end);
            if char_at(s, after, ',') {
                let next = whitespace_end(s, after + 1);
                lemma_whitespace_end_bounds(s, after + 1);
                lemma_members_tree(s, open, next, found.push(t));
                lemma_same_members(s, r, open, next, found.push(t));
                lemma_same_whitespace(s, r, after + 1);
            }
            lemma_same_whitespace(s, r, t.end);
        }
    }
}

pub proof fn lemma_same_key_value(s: Seq<char>, r: Seq<char>, pos: int)
    requires
        0 <= pos <= s.len(),
    ensures
        same_through(s, r, match_reach(key_value_tree(s, pos))) ==> key_value_tree(r, pos)
            == key_value_tree(s, pos),
    decreases s.len() - pos, 2int,
{
    lemma_string_end_bounds(s, pos);
    if same_through(s, r, match_reach(key_value_tree(s, pos))) {
        lemma_same_string(s, r, pos);
        if let Ok(key) = string_tree(s, pos) {
            let colon = whitespace_end(s, key.end);
            lemma_whitespace_end_bounds(s, key.end);
            if char_at(s, colon, ':') {
                let value = whitespace_end(s, colon + 1);
                lemma_whitespace_end_bounds(s, colon + 1);
                lemma_value_tree(s, value);
                lemma_same_value(s, r, value);
                lemma_same_whitespace(s, r, colon + 1);
            }
            lemma_same_whitespace(s, r, key.end);
        }
    }
}

/// A failure is final: a text that holds the same characters as `s`, up to
/// and including the place where `s` departs from the grammar, departs from
/// it at the same place and in the same rule.
pub proof fn lemma_failure_is_final(s: Seq<char>, r: Seq<char>)
    requires
        json_tree(s) is Err,
        same_through(s, r, json_tree(s)->Err_0.position),
    ensures
        json_tree(r) == json_tree(s),
        !is_json(r),
{
    let start = whitespace_end(s, 0);
    lemma_value_tree(s, start);
    lemma_same_value(s, r, start);
    if let Ok(t) = value_tree(s, start) {
        lemma_whitespace_end_bounds(s, t.end);
        lemma_same_whitespace(s, r, t.end);
    }
    lemma_same_whitespace(s, r, 0);
}

} // verus!
