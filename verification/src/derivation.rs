//! The grammar once more, as a description of match trees.
//!
//! `conforms` says of a tree and a text what each rule of the grammar asks of
//! a node: what the text of its span is made of, which sub-matches it has,
//! and what stands between them. It reads no text from left to right and
//! makes no choice. The matcher finds a tree that conforms, where there is
//! one, and there is never more than one.

use crate::grammar::{
    array_tree, char_at, digit_at, digits_end, elements_tree, fraction_end, hex_run,
    integer_end, is_digit, is_escape_letter, is_json, is_whitespace, json_tree, key_value_tree,
    lemma_digits_end_bounds, lemma_whitespace_end_bounds, members_tree, number_end, object_tree,
    string_body_end, string_tree, value_tree, whitespace_end, word_false, word_null, word_run,
    word_true, Failure, Rule, Tree,
};
use crate::shape::{lemma_array_tree, lemma_json_tree, lemma_object_tree, lemma_value_tree};
use vstd::prelude::*;

verus! {

/// The characters from `a` up to `b` are whitespace.
pub open spec fn blank(s: Seq<char>, a: int, b: int) -> bool {
    forall|i: int| a <= i < b ==> is_whitespace(#[trigger] s[i])
}

/// From `a` up to `b` stands `c`, with nothing but whitespace before it and
/// after it.
pub open spec fn separated(s: Seq<char>, a: int, b: int, c: char) -> bool {
    exists|p: int| #[trigger] separated_at(s, a, p, b, c)
}

/// From `a` up to `b` stands `c` at `p`, with nothing but whitespace before
/// it and after it.
pub open spec fn separated_at(s: Seq<char>, a: int, p: int, b: int, c: char) -> bool {
    a <= p < b && blank(s, a, p) && s[p] == c && blank(s, p + 1, b)
}

/// The characters from `a` up to `b` are digits, and there is at least one.
pub open spec fn all_digits(s: Seq<char>, a: int, b: int) -> bool {
    a < b && forall|i: int| a <= i < b ==> is_digit(#[trigger] s[i])
}

/// `0` alone, or digits of which the first is not `0`.
pub open spec fn is_integer(s: Seq<char>, a: int, b: int) -> bool {
    (b == a + 1 && s[a] == '0') || (all_digits(s, a, b) && s[a] != '0')
}

/// Nothing, or `.` and digits.
pub open spec fn is_fraction(s: Seq<char>, a: int, b: int) -> bool {
    b == a || (s[a] == '.' && all_digits(s, a + 1, b))
}

/// Nothing, or `e` or `E`, a sign if any, and digits.
pub open spec fn is_exponent(s: Seq<char>, a: int, b: int) -> bool {
    b == a || ((s[a] == 'e' || s[a] == 'E') && (all_digits(s, a + 1, b) || ((s[a + 1] == '+'
        || s[a + 1] == '-') && all_digits(s, a + 2, b))))
}

/// From `a` up to `b` stands a number whose integer part starts at `i`,
/// whose fraction starts at `j`, and whose exponent starts at `k`.
pub open spec fn number_parts(s: Seq<char>, a: int, i: int, j: int, k: int, b: int) -> bool {
    &&& a <= i <= j <= k <= b
    &&& i == a || (i == a + 1 && s[a] == '-')
    &&& is_integer(s, i, j)
    &&& is_fraction(s, j, k)
    &&& is_exponent(s, k, b)
}

/// From `a` up to `b` stands a number: `-` if any, an integer part, a
/// fraction and an exponent.
pub open spec fn is_number(s: Seq<char>, a: int, b: int) -> bool {
    exists|i: int, j: int, k: int| #[trigger] number_parts(s, a, i, j, k, b)
}

/// The number that ends before `b` does not go on there: the text ends, or
/// the character at `b` is no digit and none of `.`, `e` and `E`.
pub open spec fn number_stops(s: Seq<char>, b: int) -> bool {
    b >= s.len() || !(is_digit(s[b]) || s[b] == '.' || s[b] == 'e' || s[b] == 'E')
}

/// From `a` up to `b` stands the inside of a string literal: characters
/// other than `"` and `\`, and escapes, which are `\` with an escape letter
/// or `\u` with four hexadecimal digits.
pub open spec fn is_string_body(s: Seq<char>, a: int, b: int) -> bool
    decreases b - a,
{
    if a >= b {
        a == b
    } else if s[a] == '"' {
        false
    } else if s[a] == '\\' {
        ||| a + 2 <= b && is_escape_letter(s[a + 1]) && is_string_body(s, a + 2, b)
        ||| a + 6 <= b && s[a + 1] == 'u' && hex_run(s, a + 2) == 4 && is_string_body(
            s,
            a + 6,
            b,
        )
    } else {
        is_string_body(s, a + 1, b)
    }
}

/// From `a` up to `b` stands a string literal: `"`, the inside, `"`.
pub open spec fn is_string(s: Seq<char>, a: int, b: int) -> bool {
    a + 2 <= b && s[a] == '"' && is_string_body(s, a + 1, b - 1) && s[b - 1] == '"'
}

/// From `a` up to `b` stands the word `word`.
pub open spec fn spells(s: Seq<char>, a: int, b: int, word: Seq<char>) -> bool {
    b == a + word.len() && s.subrange(a, b) == word
}

/// The whitespace that is passed over is blank, and what stands behind it is
/// no whitespace.
pub proof fn lemma_whitespace_is_blank(s: Seq<char>, a: int)
    requires
        0 <= a <= s.len(),
    ensures
        blank(s, a, whitespace_end(s, a)),
        whitespace_end(s, a) == s.len() || !is_whitespace(s[whitespace_end(s, a)]),
    decreases s.len() - a,
{
    if a < s.len() && is_whitespace(s[a]) {
        lemma_whitespace_is_blank(s, a + 1);
    }
}

/// Whitespace is passed over up to the first character that is none.
pub proof fn lemma_blank_is_passed(s: Seq<char>, a: int, b: int)
    requires
        0 <= a <= b <= s.len(),
        blank(s, a, b),
        b == s.len() || !is_whitespace(s[b]),
    ensures
        whitespace_end(s, a) == b,
    decreases b - a,
{
    if a < b {
        lemma_blank_is_passed(s, a + 1, b);
    }
}

/// The digits that are passed over are digits, and what stands behind them
/// is none.
pub proof fn lemma_digits_are_digits(s: Seq<char>, a: int)
    requires
        0 <= a <= s.len(),
    ensures
        forall|i: int| a <= i < digits_end(s, a) ==> is_digit(#[trigger] s[i]),
        !digit_at(s, digits_end(s, a)),
    decreases s.len() - a,
{
    if digit_at(s, a) {
        lemma_digits_are_digits(s, a + 1);
    }
}

/// Digits are passed over up to the first character that is none.
pub proof fn lemma_digits_are_passed(s: Seq<char>, a: int, b: int)
    requires
        0 <= a <= b <= s.len(),
        forall|i: int| a <= i < b ==> is_digit(#[trigger] s[i]),
        !digit_at(s, b),
    ensures
        digits_end(s, a) == b,
    decreases b - a,
{
    if a < b {
        lemma_digits_are_passed(s, a + 1, b);
    }
}

/// What the number rule matches is a number.
pub proof fn lemma_number_end_is_number(s: Seq<char>, a: int)
    requires
        0 <= a <= s.len(),
        number_end(s, a) is Ok,
    ensures
        is_number(s, a, number_end(s, a)->Ok_0),
{
    let b = number_end(s, a)->Ok_0;
    let i = if s[a] == '-' {
        a + 1
    } else {
        a
    };
    let j = integer_end(s, i)->Ok_0;
    let k = fraction_end(s, j)->Ok_0;
    lemma_digits_end_bounds(s, i);
    lemma_digits_are_digits(s, i);
    if s[j] == '.' && j < s.len() {
        lemma_digits_end_bounds(s, j + 1);
        lemma_digits_are_digits(s, j + 1);
    }
    if k < s.len() && (s[k] == 'e' || s[k] == 'E') {
        let q = if k + 1 < s.len() && (s[k + 1] == '+' || s[k + 1] == '-') {
            k + 2
        } else {
            k + 1
        };
        lemma_digits_end_bounds(s, q);
        lemma_digits_are_digits(s, q);
    }
    assert(number_parts(s, a, i, j, k, b));
}

/// A number that does not go on is what the number rule matches.
pub proof fn lemma_number_is_number_end(s: Seq<char>, a: int, b: int)
    requires
        0 <= a <= b <= s.len(),
        is_number(s, a, b),
        number_stops(s, b),
    ensures
        number_end(s, a) == Ok::<int, Failure>(b),
{
    let (i, j, k) = choose|i: int, j: int, k: int| #[trigger] number_parts(s, a, i, j, k, b);
    if s[i] != '0' {
        lemma_digits_are_passed(s, i, j);
    }
    if j < k {
        lemma_digits_are_passed(s, j + 1, k);
    }
    if k < b {
        if is_digit(s[k + 1]) {
            lemma_digits_are_passed(s, k + 1, b);
        } else {
            lemma_digits_are_passed(s, k + 2, b);
        }
    }
}

/// What the string rule matches behind the opening quote is the inside of a
/// string literal and the closing quote.
pub proof fn lemma_string_body_end_is_body(s: Seq<char>, a: int)
    requires
        0 <= a <= s.len(),
        string_body_end(s, a) is Ok,
    ensures
        a < string_body_end(s, a)->Ok_0 <= s.len(),
        is_string_body(s, a, string_body_end(s, a)->Ok_0 - 1),
        s[string_body_end(s, a)->Ok_0 - 1] == '"',
    decreases s.len() - a,
{
    if s[a] == '\\' {
        if is_escape_letter(s[a + 1]) {
            lemma_string_body_end_is_body(s, a + 2);
        } else {
            lemma_string_body_end_is_body(s, a + 6);
        }
    } else if s[a] != '"' {
        lemma_string_body_end_is_body(s, a + 1);
    }
}

/// The inside of a string literal and the closing quote are what the string
/// rule matches behind the opening quote.
pub proof fn lemma_body_is_string_body_end(s: Seq<char>, a: int, b: int)
    requires
        0 <= a <= b < s.len(),
        is_string_body(s, a, b),
        s[b] == '"',
    ensures
        string_body_end(s, a) == Ok::<int, Failure>(b + 1),
    decreases b - a,
{
    if a < b {
        if s[a] == '\\' {
            if a + 2 <= b && is_escape_letter(s[a + 1]) && is_string_body(s, a + 2, b) {
                lemma_body_is_string_body_end(s, a + 2, b);
            } else {
                lemma_body_is_string_body_end(s, a + 6, b);
            }
        } else {
            lemma_body_is_string_body_end(s, a + 1, b);
        }
    }
}

/// A word is found where the text spells it, and only there.
pub proof fn lemma_word_run_spells(s: Seq<char>, a: int, word: Seq<char>)
    requires
        0 <= a <= s.len(),
    ensures
        word_run(s, a, word) == word.len() <==> a + word.len() <= s.len() && spells(
            s,
            a,
            a + word.len(),
            word,
        ),
    decreases word.len(),
{
    if word.len() > 0 {
        let rest = word.drop_first();
        if a < s.len() {
            lemma_word_run_spells(s, a + 1, rest);
        }
        if a + word.len() <= s.len() {
            let here = s.subrange(a, a + word.len());
            let there = s.subrange(a + 1, a + 1 + rest.len());
            assert(there =~= here.drop_first());
            if s[a] == word[0] && there == rest {
                assert forall|i: int| 0 <= i < word.len() implies here[i] == word[i] by {
                    if i > 0 {
                        assert(here[i] == there[i - 1]);
                    }
                }
                assert(here =~= word);
            }
            if here == word {
            }
        }
    } else {
        assert(s.subrange(a, a) =~= word);
    }
}

/// The rule is one of the six kinds of value.
pub open spec fn is_kind(rule: Rule) -> bool {
    rule == Rule::Object || rule == Rule::Array || rule == Rule::String || rule == Rule::Number
        || rule == Rule::Boolean || rule == Rule::Null
}

/// The tree is a match tree of the grammar on the text `s`: every node of it
/// is what its rule asks for.
/// - `null`, a boolean, a number and a string have no sub-matches, and their
///   text is the word, the number or the string literal.
/// - A value has one sub-match, of one of the six kinds, with the same span.
/// - An array and an object are bracketed lists, of values and of members.
/// - A member has a string and a value, with a colon between them.
/// - A document spans the text and has one value, with nothing but
///   whitespace before it and after it.
pub open spec fn conforms(t: Tree, s: Seq<char>) -> bool
    decreases t, 1int,
{
    &&& 0 <= t.start <= t.end <= s.len()
    &&& match t.rule {
        Rule::Null => t.inner.len() == 0 && spells(s, t.start, t.end, word_null()),
        Rule::Boolean => t.inner.len() == 0 && (spells(s, t.start, t.end, word_true()) || spells(
            s,
            t.start,
            t.end,
            word_false(),
        )),
        Rule::Number => t.inner.len() == 0 && is_number(s, t.start, t.end),
        Rule::String => t.inner.len() == 0 && is_string(s, t.start, t.end),
        Rule::Value => {
            &&& t.inner.len() == 1
            &&& is_kind(t.inner[0].rule)
            &&& t.inner[0].start == t.start
            &&& t.inner[0].end == t.end
            &&& conforms(t.inner[0], s)
        },
        Rule::Array => bracketed(t, s, '[', ']', Rule::Value),
        Rule::Object => bracketed(t, s, '{', '}', Rule::KeyValue),
        Rule::KeyValue => {
            &&& t.inner.len() == 2
            &&& t.inner[0].rule == Rule::String
            &&& t.inner[1].rule == Rule::Value
            &&& t.inner[0].start == t.start
            &&& t.inner[1].end == t.end
            &&& conforms(t.inner[0], s)
            &&& conforms(t.inner[1], s)
            &&& separated(s, t.inner[0].end, t.inner[1].start, ':')
        },
        Rule::Json => {
            &&& t.start == 0
            &&& t.end == s.len()
            &&& t.inner.len() == 1
            &&& t.inner[0].rule == Rule::Value
            &&& conforms(t.inner[0], s)
            &&& blank(s, 0, t.inner[0].start)
            &&& blank(s, t.inner[0].end, s.len() as int)
        },
    }
}

/// Between the tree at `i` and the next stands a comma, with nothing but
/// whitespace before it and after it.
pub open spec fn comma_between(trees: Seq<Tree>, s: Seq<char>, i: int) -> bool {
    separated(s, trees[i].end, trees[i + 1].start, ',')
}

/// The node is a list in brackets: its span starts with `open` and ends with
/// `close`, its sub-matches are of the rule `rule`, and between the brackets
/// stands whitespace alone, or stand the sub-matches with a comma between
/// each two, and whitespace wherever two of these meet.
pub open spec fn bracketed(t: Tree, s: Seq<char>, open: char, close: char, rule: Rule) -> bool
    decreases t, 0int,
{
    let n = t.inner.len() as int;
    &&& t.start + 2 <= t.end
    &&& s[t.start] == open
    &&& s[t.end - 1] == close
    &&& forall|i: int|
        0 <= i < n ==> (#[trigger] t.inner[i]).rule == rule && conforms(t.inner[i], s)
    &&& if n == 0 {
        blank(s, t.start + 1, t.end - 1)
    } else {
        &&& t.start + 1 <= t.inner[0].start
        &&& blank(s, t.start + 1, t.inner[0].start)
        &&& forall|i: int| 0 <= i < n - 1 ==> #[trigger] comma_between(t.inner, s, i)
        &&& t.inner[n - 1].end <= t.end - 1
        &&& blank(s, t.inner[n - 1].end, t.end - 1)
    }
}

/// The part of a list that stands before `pos`, behind the bracket at
/// `open`: the sub-matches found, with a comma between each two and a comma
/// behind the last, or whitespace alone where none is found yet.
pub open spec fn listed(found: Seq<Tree>, s: Seq<char>, open: int, pos: int, rule: Rule) -> bool {
    let n = found.len() as int;
    &&& forall|i: int| 0 <= i < n ==> (#[trigger] found[i]).rule == rule && conforms(found[i], s)
    &&& forall|i: int| 0 <= i < n - 1 ==> #[trigger] comma_between(found, s, i)
    &&& if n == 0 {
        blank(s, open + 1, pos)
    } else {
        &&& open + 1 <= found[0].start
        &&& blank(s, open + 1, found[0].start)
        &&& separated(s, found[n - 1].end, pos, ',')
    }
}

/// A list goes on with one more sub-match and the comma behind it.
pub proof fn lemma_listed_more(
    found: Seq<Tree>,
    s: Seq<char>,
    open: int,
    t: Tree,
    comma: int,
    next: int,
    rule: Rule,
)
    requires
        listed(found, s, open, t.start, rule),
        conforms(t, s),
        t.rule == rule,
        open + 1 <= t.start,
        separated_at(s, t.end, comma, next, ','),
    ensures
        listed(found.push(t), s, open, next, rule),
{
    let all = found.push(t);
    let n = found.len() as int;
    assert forall|i: int| 0 <= i < all.len() - 1 implies #[trigger] comma_between(all, s, i) by {
        if i < n - 1 {
            assert(comma_between(found, s, i));
        }
    }
}

/// A list ends with one more sub-match and the closing bracket behind it.
pub proof fn lemma_listed_closed(
    found: Seq<Tree>,
    s: Seq<char>,
    open: int,
    t: Tree,
    close: int,
    opening: char,
    closing: char,
    rule: Rule,
    list: Rule,
)
    requires
        listed(found, s, open, t.start, rule),
        conforms(t, s),
        t.rule == rule,
        0 <= open,
        open + 1 <= t.start,
        s[open] == opening,
        t.end <= close < s.len(),
        blank(s, t.end, close),
        s[close] == closing,
    ensures
        bracketed(
            Tree { rule: list, start: open, end: close + 1, inner: found.push(t) },
            s,
            opening,
            closing,
            rule,
        ),
{
    let all = found.push(t);
    let n = found.len() as int;
    assert forall|i: int| 0 <= i < all.len() - 1 implies #[trigger] comma_between(all, s, i) by {
        if i < n - 1 {
            assert(comma_between(found, s, i));
        }
    }
}

/// The value that the grammar matches conforms.
pub proof fn lemma_value_tree_conforms(s: Seq<char>, pos: int)
    requires
        0 <= pos <= s.len(),
    ensures
        value_tree(s, pos) is Ok ==> conforms(value_tree(s, pos)->Ok_0, s),
    decreases s.len() - pos, 1int,
{
    lemma_value_tree(s, pos);
    if pos < s.len() && value_tree(s, pos) is Ok {
        let c = s[pos];
        let kind = value_tree(s, pos)->Ok_0.inner[0];
        if c == '{' {
            lemma_object_tree(s, pos);
            lemma_object_tree_conforms(s, pos);
        } else if c == '[' {
            lemma_array_tree(s, pos);
            lemma_array_tree_conforms(s, pos);
        } else if c == '"' {
            lemma_string_body_end_is_body(s, pos + 1);
        } else if c == '-' || is_digit(c) {
            lemma_number_end_is_number(s, pos);
        } else {
            lemma_word_run_spells(s, pos, word_true());
            lemma_word_run_spells(s, pos, word_false());
            lemma_word_run_spells(s, pos, word_null());
        }
        assert(conforms(kind, s));
    }
}

pub proof fn lemma_array_tree_conforms(s: Seq<char>, pos: int)
    requires
        0 <= pos <= s.len(),
    ensures
        array_tree(s, pos) is Ok ==> conforms(array_tree(s, pos)->Ok_0, s),
    decreases s.len() - pos, 0int,
{
    if char_at(s, pos, '[') {
        lemma_whitespace_end_bounds(s, pos + 1);
        lemma_whitespace_is_blank(s, pos + 1);
        let first = whitespace_end(s, pos + 1);
        if !char_at(s, first, ']') {
            lemma_elements_tree_conforms(s, pos, first, Seq::empty());
        } else {
            let whole = Tree { rule: Rule::Array, start: pos, end: first + 1, inner: Seq::empty() };
            assert(bracketed(whole, s, '[', ']', Rule::Value));
        }
    }
}

pub proof fn lemma_elements_tree_conforms(s: Seq<char>, open: int, pos: int, found: Seq<Tree>)
    requires
        0 <= open < pos <= s.len(),
        s[open] == '[',
        listed(found, s, open, pos, Rule::Value),
    ensures
        elements_tree(s, open, pos, found) is Ok ==> conforms(
            elements_tree(s, open, pos, found)->Ok_0,
            s,
        ),
    decreases s.len() - pos, 2int,
{
    lemma_value_tree(s, pos);
    lemma_value_tree_conforms(s, pos);
    if let Ok(t) = value_tree(s, pos) {
        lemma_whitespace_end_bounds(s, t.end);
        lemma_whitespace_is_blank(s, t.end);
        let after = whitespace_end(s, t.end);
        if char_at(s, after, ']') {
            lemma_listed_closed(found, s, open, t, after, '[', ']', Rule::Value, Rule::Array);
        } else if char_at(s, after, ',') {
            lemma_whitespace_end_bounds(s, after + 1);
            lemma_whitespace_is_blank(s, after + 1);
            let next = whitespace_end(s, after + 1);
            lemma_listed_more(found, s, open, t, after, next, Rule::Value);
            lemma_elements_tree_conforms(s, open, next, found.push(t));
        }
    }
}

pub proof fn lemma_object_tree_conforms(s: Seq<char>, pos: int)
    requires
        0 <= pos <= s.len(),
    ensures
        object_tree(s, pos) is Ok ==> conforms(object_tree(s, pos)->Ok_0, s),
    decreases s.len() - pos, 0int,
{
    if char_at(s, pos, '{') {
        lemma_whitespace_end_bounds(s, pos + 1);
        lemma_whitespace_is_blank(s, pos + 1);
        let first = whitespace_end(s, pos + 1);
        if !char_at(s, first, '}') {
            lemma_members_tree_conforms(s, pos, first, Seq::empty());
        } else {
            let whole = Tree { rule: Rule::Object, start: pos, end: first + 1, inner: Seq::empty() };
            assert(bracketed(whole, s, '{', '}', Rule::KeyValue));
        }
    }
}

pub proof fn lemma_members_tree_conforms(s: Seq<char>, open: int, pos: int, found: Seq<Tree>)
    requires
        0 <= open < pos <= s.len(),
        s[open] == '{',
        listed(found, s, open, pos, Rule::KeyValue),
    ensures
        members_tree(s, open, pos, found) is Ok ==> conforms(
            members_tree(s, open, pos, found)->Ok_0,
            s,
        ),
    decreases s.len() - pos, 3int,
{
    lemma_key_value_tree_conforms(s, pos);
    if let Ok(t) = key_value_tree(s, pos) {
        lemma_whitespace_end_bounds(s, t.end);
        lemma_whitespace_is_blank(s, t.end);
        let after = whitespace_end(s, t.end);
        if char_at(s, after, '}') {
            lemma_listed_closed(found, s, open, t, after, '{', '}', Rule::KeyValue, Rule::Object);
        } else if char_at(s, after, ',') {
            lemma_whitespace_end_bounds(s, after + 1);
            lemma_whitespace_is_blank(s, after + 1);
            let next = whitespace_end(s, after + 1);
            lemma_listed_more(found, s, open, t, after, next, Rule::KeyValue);
            lemma_members_tree_conforms(s, open, next, found.push(t));
        }
    }
}

pub proof fn lemma_key_value_tree_conforms(s: Seq<char>, pos: int)
    requires
        0 <= pos <= s.len(),
    ensures
        key_value_tree(s, pos) is Ok ==> conforms(key_value_tree(s, pos)->Ok_0, s),
    decreases s.len() - pos, 2int,
{
    if let Ok(key) = string_tree(s, pos) {
        lemma_string_body_end_is_body(s, pos + 1);
        lemma_whitespace_end_bounds(s, key.end);
        lemma_whitespace_is_blank(s, key.end);
        let colon = whitespace_end(s, key.end);
        if char_at(s, colon, ':') {
            lemma_whitespace_end_bounds(s, colon + 1);
            lemma_whitespace_is_blank(s, colon + 1);
            let at = whitespace_end(s, colon + 1);
            lemma_value_tree(s, at);
            lemma_value_tree_conforms(s, at);
            assert(conforms(key, s));
            assert(separated_at(s, key.end, colon, at, ':'));
        }
    }
}

/// The tree of every document conforms: what the matcher accepts, the
/// grammar derives.
pub proof fn lemma_document_conforms(s: Seq<char>)
    requires
        is_json(s),
    ensures
        conforms(json_tree(s)->Ok_0, s),
{
    lemma_whitespace_is_blank(s, 0);
    let start = whitespace_end(s, 0);
    lemma_value_tree(s, start);
    lemma_value_tree_conforms(s, start);
    let t = value_tree(s, start)->Ok_0;
    lemma_whitespace_is_blank(s, t.end);
}

/// A value or a member that conforms is not empty, and it starts with a
/// character that is no whitespace and no closing bracket.
pub proof fn lemma_conforms_start(t: Tree, s: Seq<char>)
    requires
        conforms(t, s),
        t.rule == Rule::Value || t.rule == Rule::KeyValue,
    ensures
        t.start < t.end,
        !is_whitespace(s[t.start]),
        s[t.start] != ']',
        s[t.start] != '}',
{
    let first = t.inner[0];
    assert(conforms(first, s));
    if t.rule == Rule::KeyValue {
        let value = t.inner[1];
        assert(conforms(value, s));
        let p = choose|p: int| #[trigger] separated_at(s, first.end, p, value.start, ':');
        assert(separated_at(s, first.end, p, value.start, ':'));
    } else if first.rule == Rule::Array {
        assert(bracketed(first, s, '[', ']', Rule::Value));
    } else if first.rule == Rule::Object {
        assert(bracketed(first, s, '{', '}', Rule::KeyValue));
    } else if first.rule == Rule::Number {
        let (i, j, k) = choose|i: int, j: int, k: int| #[trigger]
            number_parts(s, first.start, i, j, k, first.end);
        assert(number_parts(s, first.start, i, j, k, first.end));
    }
}

/// A tree of a value that conforms is the tree that the grammar matches at
/// its start, provided that a number does not go on behind it.
pub proof fn lemma_conforms_value(t: Tree, s: Seq<char>)
    requires
        conforms(t, s),
        t.rule == Rule::Value,
        number_stops(s, t.end),
    ensures
        value_tree(s, t.start) == Ok::<Tree, Failure>(t),
    decreases t, 0int, 0int,
{
    let kind = t.inner[0];
    let a = t.start;
    let b = t.end;
    assert(conforms(kind, s));
    assert(kind.inner =~= Seq::<Tree>::empty() || kind.inner.len() > 0);
    if kind.rule == Rule::Object {
        lemma_conforms_object(kind, s);
    } else if kind.rule == Rule::Array {
        lemma_conforms_array(kind, s);
    } else if kind.rule == Rule::String {
        lemma_body_is_string_body_end(s, a + 1, b - 1);
    } else if kind.rule == Rule::Number {
        let (i, j, k) = choose|i: int, j: int, k: int| #[trigger] number_parts(s, a, i, j, k, b);
        assert(number_parts(s, a, i, j, k, b));
        lemma_number_is_number_end(s, a, b);
    } else {
        lemma_word_run_spells(s, a, word_true());
        lemma_word_run_spells(s, a, word_false());
        lemma_word_run_spells(s, a, word_null());
    }
    assert(t.inner =~= seq![kind]);
}

pub proof fn lemma_conforms_array(t: Tree, s: Seq<char>)
    requires
        conforms(t, s),
        t.rule == Rule::Array,
    ensures
        array_tree(s, t.start) == Ok::<Tree, Failure>(t),
    decreases t, 0int, t.inner.len() + 1,
{
    assert(bracketed(t, s, '[', ']', Rule::Value));
    if t.inner.len() == 0 {
        lemma_blank_is_passed(s, t.start + 1, t.end - 1);
        assert(t.inner =~= Seq::<Tree>::empty());
    } else {
        lemma_conforms_start(t.inner[0], s);
        lemma_blank_is_passed(s, t.start + 1, t.inner[0].start);
        lemma_conforms_elements(t, s, 0);
        assert(t.inner.take(0) =~= Seq::<Tree>::empty());
    }
}

pub proof fn lemma_conforms_elements(t: Tree, s: Seq<char>, m: int)
    requires
        conforms(t, s),
        t.rule == Rule::Array,
        0 <= m < t.inner.len(),
    ensures
        elements_tree(s, t.start, t.inner[m].start, t.inner.take(m)) == Ok::<Tree, Failure>(t),
    decreases t, 0int, t.inner.len() - m,
{
    let n = t.inner.len() as int;
    let c = t.inner[m];
    assert(bracketed(t, s, '[', ']', Rule::Value));
    if m == n - 1 {
        lemma_conforms_value(c, s);
        lemma_blank_is_passed(s, c.end, t.end - 1);
        assert(t.inner.take(m).push(c) =~= t.inner);
    } else {
        let next = t.inner[m + 1];
        assert(comma_between(t.inner, s, m));
        let p = choose|p: int| #[trigger] separated_at(s, c.end, p, next.start, ',');
        lemma_conforms_value(c, s);
        lemma_conforms_start(next, s);
        lemma_blank_is_passed(s, c.end, p);
        lemma_blank_is_passed(s, p + 1, next.start);
        lemma_conforms_elements(t, s, m + 1);
        assert(t.inner.take(m).push(c) =~= t.inner.take(m + 1));
    }
}

pub proof fn lemma_conforms_object(t: Tree, s: Seq<char>)
    requires
        conforms(t, s),
        t.rule == Rule::Object,
    ensures
        object_tree(s, t.start) == Ok::<Tree, Failure>(t),
    decreases t, 0int, t.inner.len() + 1,
{
    assert(bracketed(t, s, '{', '}', Rule::KeyValue));
    if t.inner.len() == 0 {
        lemma_blank_is_passed(s, t.start + 1, t.end - 1);
        assert(t.inner =~= Seq::<Tree>::empty());
    } else {
        lemma_conforms_start(t.inner[0], s);
        lemma_blank_is_passed(s, t.start + 1, t.inner[0].start);
        lemma_conforms_members(t, s, 0);
        assert(t.inner.take(0) =~= Seq::<Tree>::empty());
    }
}

pub proof fn lemma_conforms_members(t: Tree, s: Seq<char>, m: int)
    requires
        conforms(t, s),
        t.rule == Rule::Object,
        0 <= m < t.inner.len(),
    ensures
        members_tree(s, t.start, t.inner[m].start, t.inner.take(m)) == Ok::<Tree, Failure>(t),
    decreases t, 0int, t.inner.len() - m,
{
    let n = t.inner.len() as int;
    let c = t.inner[m];
    assert(bracketed(t, s, '{', '}', Rule::KeyValue));
    if m == n - 1 {
        lemma_conforms_key_value(c, s);
        lemma_blank_is_passed(s, c.end, t.end - 1);
        assert(t.inner.take(m).push(c) =~= t.inner);
    } else {
        let next = t.inner[m + 1];
        assert(comma_between(t.inner, s, m));
        let p = choose|p: int| #[trigger] separated_at(s, c.end, p, next.start, ',');
        lemma_conforms_key_value(c, s);
        lemma_conforms_start(next, s);
        lemma_blank_is_passed(s, c.end, p);
        lemma_blank_is_passed(s, p + 1, next.start);
        lemma_conforms_members(t, s, m + 1);
        assert(t.inner.take(m).push(c) =~= t.inner.take(m + 1));
    }
}

pub proof fn lemma_conforms_key_value(t: Tree, s: Seq<char>)
    requires
        conforms(t, s),
        t.rule == Rule::KeyValue,
        number_stops(s, t.end),
    ensures
        key_value_tree(s, t.start) == Ok::<Tree, Failure>(t),
    decreases t, 0int, 0int,
{
    let key = t.inner[0];
    let value = t.inner[1];
    assert(conforms(key, s));
    assert(conforms(value, s));
    let p = choose|p: int| #[trigger] separated_at(s, key.end, p, value.start, ':');
    lemma_body_is_string_body_end(s, key.start + 1, key.end - 1);
    assert(key.inner =~= Seq::<Tree>::empty());
    lemma_blank_is_passed(s, key.end, p);
    lemma_conforms_start(value, s);
    lemma_blank_is_passed(s, p + 1, value.start);
    lemma_conforms_value(value, s);
    assert(t.inner =~= seq![key, value]);
}

/// A tree of a document that conforms is the tree that the matcher finds:
/// what the grammar derives, the matcher accepts, and no text has two
/// trees.
pub proof fn lemma_conforms_document(t: Tree, s: Seq<char>)
    requires
        conforms(t, s),
        t.rule == Rule::Json,
    ensures
        json_tree(s) == Ok::<Tree, Failure>(t),
        is_json(s),
{
    let value = t.inner[0];
    assert(conforms(value, s));
    lemma_conforms_start(value, s);
    lemma_blank_is_passed(s, 0, value.start);
    lemma_conforms_value(value, s);
    lemma_blank_is_passed(s, value.end, s.len() as int);
    assert(t.inner =~= seq![value]);
}

/// The text is a JSON document: there is a match tree of a document that
/// conforms to it.
pub open spec fn is_document(s: Seq<char>) -> bool {
    exists|t: Tree| #[trigger] conforms(t, s) && t.rule == Rule::Json
}

/// The matcher accepts the documents, and nothing else.
pub proof fn lemma_is_json_is_document(s: Seq<char>)
    ensures
        is_json(s) == is_document(s),
{
    if is_json(s) {
        lemma_json_tree(s);
        lemma_document_conforms(s);
        assert(conforms(json_tree(s)->Ok_0, s));
    }
    if is_document(s) {
        let t = choose|t: Tree| #[trigger] conforms(t, s) && t.rule == Rule::Json;
        lemma_conforms_document(t, s);
    }
}

} // verus!
