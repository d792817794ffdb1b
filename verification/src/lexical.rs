//! What holds of the characters of every document: its brackets and its
//! string literals are closed, and its tokens follow one another in order.
//!
//! These laws read a text from left to right without regard to the grammar.
//! A `"` opens a string literal, and the next `"` that no backslash escapes
//! closes it; outside of string literals `{` and `[` open a level of nesting,
//! and `}` and `]` close the level opened last, if there is one.

use crate::grammar::{
    array_tree, boolean_end, char_at, digit_at, digits_end, elements_tree, exponent_end,
    fraction_end, integer_end, is_digit, is_escape_letter, is_json, is_whitespace,
    key_value_tree, lemma_digits_end_bounds, lemma_string_end_bounds,
    lemma_whitespace_end_bounds, members_tree, null_end, number_end, object_tree,
    string_body_end, string_end, string_tree, value_tree, whitespace_end, word_false, word_null,
    word_run, word_true, Tree,
};
use vstd::prelude::*;

verus! {

/// Where a reader stands in the nesting of a text.
pub ghost struct Nesting {
    /// How many brackets are open.
    pub depth: nat,
    /// The reader is inside a string literal.
    pub in_string: bool,
    /// The reader is inside a string literal, just behind a backslash.
    pub escaped: bool,
}

/// Outside of any string literal, with `depth` brackets open.
pub open spec fn outside(depth: nat) -> Nesting {
    Nesting { depth, in_string: false, escaped: false }
}

/// Inside a string literal, with `depth` brackets open around it.
pub open spec fn inside(depth: nat) -> Nesting {
    Nesting { depth, in_string: true, escaped: false }
}

/// The nesting after the character `c` is read.
pub open spec fn step(at: Nesting, c: char) -> Nesting {
    if at.in_string {
        if at.escaped {
            inside(at.depth)
        } else if c == '\\' {
            Nesting { depth: at.depth, in_string: true, escaped: true }
        } else if c == '"' {
            outside(at.depth)
        } else {
            at
        }
    } else if c == '"' {
        inside(at.depth)
    } else if c == '{' || c == '[' {
        outside(at.depth + 1)
    } else if (c == '}' || c == ']') && at.depth > 0 {
        outside((at.depth - 1) as nat)
    } else {
        at
    }
}

/// The nesting after the characters from `from` up to `to` are read.
pub open spec fn nesting(s: Seq<char>, from: int, to: int, at: Nesting) -> Nesting
    decreases to - from,
{
    if from >= to || from < 0 || from >= s.len() {
        at
    } else {
        nesting(s, from + 1, to, step(at, s[from]))
    }
}

/// The nesting in which the character at `p` is read.
pub open spec fn nesting_at(s: Seq<char>, p: int) -> Nesting {
    nesting(s, 0, p, outside(0))
}

/// The nesting at the end of a text.
pub open spec fn nesting_of(s: Seq<char>) -> Nesting {
    nesting_at(s, s.len() as int)
}

/// How many brackets a text opens, outside of string literals, and never
/// closes.
pub open spec fn unclosed_brackets(s: Seq<char>) -> nat {
    nesting_of(s).depth
}

/// A character with which a value can start.
pub open spec fn is_value_start(c: char) -> bool {
    c == '{' || c == '[' || c == '"' || c == '-' || is_digit(c) || c == 't' || c == 'f' || c == 'n'
}

/// The text holds at `q` a character with which a value can start.
pub open spec fn starts_value(s: Seq<char>, q: int) -> bool {
    0 <= q < s.len() && is_value_start(s[q])
}

/// The text holds at `q` what may stand behind a value: a comma, a closing
/// bracket, or nothing more.
pub open spec fn ends_value(s: Seq<char>, q: int) -> bool {
    q == s.len() || char_at(s, q, ',') || char_at(s, q, ']') || char_at(s, q, '}')
}

/// The text holds at `q` what may stand behind a string literal: what may
/// stand behind a value, or a colon.
pub open spec fn ends_string(s: Seq<char>, q: int) -> bool {
    ends_value(s, q) || char_at(s, q, ':')
}

/// The text holds at `q` what may stand behind a run of digits: more of the
/// number, or, after whitespace, what may stand behind a value.
pub open spec fn ends_digits(s: Seq<char>, q: int) -> bool {
    char_at(s, q, '.') || char_at(s, q, 'e') || char_at(s, q, 'E') || ends_value(
        s,
        whitespace_end(s, q),
    )
}

/// The character at `p`, read in the nesting `at`, is followed as the grammar
/// asks, where `next` is the first position behind it that holds no
/// whitespace:
/// - the quote that closes a string literal, by what may stand behind a
///   string;
/// - a comma or a colon, by the start of a value;
/// - `[`, by the start of a value or by `]`; `{`, by `"` or by `}`;
/// - a closing bracket, by what may stand behind a value;
/// - `.`, at once by a digit;
/// - a digit, at once by a digit, `.`, `e` or `E`, or else by what may
///   stand behind a value.
pub open spec fn well_followed(s: Seq<char>, p: int, at: Nesting) -> bool {
    let c = s[p];
    let next = whitespace_end(s, p + 1);
    if at.in_string {
        !at.escaped && c == '"' ==> ends_string(s, next)
    } else {
        &&& c == ',' || c == ':' ==> starts_value(s, next)
        &&& c == '[' ==> starts_value(s, next) || char_at(s, next, ']')
        &&& c == '{' ==> char_at(s, next, '"') || char_at(s, next, '}')
        &&& c == ']' || c == '}' ==> ends_value(s, next)
        &&& c == '.' ==> digit_at(s, p + 1)
        &&& is_digit(c) ==> digit_at(s, p + 1) || ends_digits(s, p + 1)
    }
}

/// Every character from `a` up to `b` is well followed, where the reading
/// starts at `a` in the nesting `at`.
#[verifier::opaque]
pub open spec fn tidy(s: Seq<char>, a: int, b: int, at: Nesting) -> bool {
    forall|p: int| a <= p < b ==> well_followed(s, p, #[trigger] nesting(s, a, p, at))
}

/// The span from `a` up to `b` leads from the nesting `from` to the nesting
/// `to`, and every character of it is well followed.
pub open spec fn passes(s: Seq<char>, a: int, b: int, from: Nesting, to: Nesting) -> bool {
    &&& 0 <= a <= b <= s.len()
    &&& nesting(s, a, b, from) == to
    &&& tidy(s, a, b, from)
}

/// To read a span is to read its first part and then the rest.
pub proof fn lemma_nesting_join(s: Seq<char>, a: int, b: int, c: int, at: Nesting)
    requires
        0 <= a <= b <= c <= s.len(),
    ensures
        nesting(s, a, c, at) == nesting(s, b, c, nesting(s, a, b, at)),
    decreases b - a,
{
    if a < b {
        lemma_nesting_join(s, a + 1, b, c, step(at, s[a]));
    }
}

/// Two spans that pass, one behind the other, pass as one.
pub proof fn lemma_passes_join(
    s: Seq<char>,
    a: int,
    b: int,
    c: int,
    from: Nesting,
    mid: Nesting,
    to: Nesting,
)
    requires
        passes(s, a, b, from, mid),
        passes(s, b, c, mid, to),
    ensures
        passes(s, a, c, from, to),
{
    reveal(tidy);
    lemma_nesting_join(s, a, b, c, from);
    assert forall|p: int| a <= p < c implies well_followed(
        s,
        p,
        #[trigger] nesting(s, a, p, from),
    ) by {
        if p >= b {
            lemma_nesting_join(s, a, b, p, from);
        }
    }
}

/// A character that is well followed passes.
pub proof fn lemma_passes_one(s: Seq<char>, a: int, from: Nesting)
    requires
        0 <= a < s.len(),
        well_followed(s, a, from),
    ensures
        passes(s, a, a + 1, from, step(from, s[a])),
{
    reveal(tidy);
    assert(nesting(s, a + 1, a + 1, step(from, s[a])) == step(from, s[a]));
}

/// The empty span passes.
pub proof fn lemma_passes_none(s: Seq<char>, a: int, from: Nesting)
    requires
        0 <= a <= s.len(),
    ensures
        passes(s, a, a, from, from),
{
    reveal(tidy);
}

/// Every character of a span that passes is well followed.
pub proof fn lemma_passes_at(s: Seq<char>, a: int, b: int, p: int, from: Nesting, to: Nesting)
    requires
        passes(s, a, b, from, to),
        a <= p < b,
    ensures
        well_followed(s, p, nesting(s, a, p, from)),
{
    reveal(tidy);
}

/// Whitespace passes and leaves the nesting as it is.
pub proof fn lemma_passes_whitespace(s: Seq<char>, pos: int, depth: nat)
    requires
        0 <= pos <= s.len(),
    ensures
        passes(s, pos, whitespace_end(s, pos), outside(depth), outside(depth)),
    decreases s.len() - pos,
{
    let at = outside(depth);
    if pos < s.len() && is_whitespace(s[pos]) {
        lemma_passes_one(s, pos, at);
        lemma_passes_whitespace(s, pos + 1, depth);
        lemma_passes_join(s, pos, pos + 1, whitespace_end(s, pos), at, at, at);
    } else {
        lemma_passes_none(s, pos, at);
    }
}

/// A run of digits passes if what stands behind it may do so.
pub proof fn lemma_passes_digits(s: Seq<char>, pos: int, depth: nat)
    requires
        0 <= pos <= s.len(),
        ends_digits(s, digits_end(s, pos)),
    ensures
        passes(s, pos, digits_end(s, pos), outside(depth), outside(depth)),
    decreases s.len() - pos,
{
    let at = outside(depth);
    if digit_at(s, pos) {
        lemma_digits_end_bounds(s, pos + 1);
        lemma_passes_one(s, pos, at);
        lemma_passes_digits(s, pos + 1, depth);
        lemma_passes_join(s, pos, pos + 1, digits_end(s, pos), at, at, at);
    } else {
        lemma_passes_none(s, pos, at);
    }
}

/// A number passes if what stands behind it may stand behind a value.
pub proof fn lemma_passes_number(s: Seq<char>, pos: int, depth: nat)
    requires
        0 <= pos <= s.len(),
        number_end(s, pos) is Ok,
        ends_value(s, whitespace_end(s, number_end(s, pos)->Ok_0)),
    ensures
        passes(s, pos, number_end(s, pos)->Ok_0, outside(depth), outside(depth)),
{
    let at = outside(depth);
    let a = if char_at(s, pos, '-') {
        pos + 1
    } else {
        pos
    };
    let b = integer_end(s, a)->Ok_0;
    let c = fraction_end(s, b)->Ok_0;
    let e = exponent_end(s, c)->Ok_0;
    if a > pos {
        lemma_passes_one(s, pos, at);
    } else {
        lemma_passes_none(s, pos, at);
    }
    if char_at(s, a, '0') {
        lemma_passes_one(s, a, at);
    } else {
        lemma_passes_digits(s, a, depth);
    }
    if char_at(s, b, '.') {
        lemma_passes_one(s, b, at);
        lemma_passes_digits(s, b + 1, depth);
        lemma_passes_join(s, b, b + 1, c, at, at, at);
    } else {
        lemma_passes_none(s, b, at);
    }
    if char_at(s, c, 'e') || char_at(s, c, 'E') {
        let q = if char_at(s, c + 1, '+') || char_at(s, c + 1, '-') {
            c + 2
        } else {
            c + 1
        };
        lemma_passes_one(s, c, at);
        if q == c + 2 {
            lemma_passes_one(s, c + 1, at);
            lemma_passes_join(s, c, c + 1, c + 2, at, at, at);
        }
        lemma_passes_digits(s, q, depth);
        lemma_passes_join(s, c, q, e, at, at, at);
    } else {
        lemma_passes_none(s, c, at);
    }
    lemma_passes_join(s, pos, a, b, at, at, at);
    lemma_passes_join(s, pos, b, c, at, at, at);
    lemma_passes_join(s, pos, c, e, at, at, at);
}

/// A character that neither opens nor closes anything, and that asks for
/// nothing behind it.
pub open spec fn is_quiet(c: char) -> bool {
    c != '"' && c != '{' && c != '}' && c != '[' && c != ']' && c != ',' && c != ':' && c != '.'
        && !is_digit(c)
}

/// A word of quiet characters passes and leaves the nesting as it is.
pub proof fn lemma_passes_word(s: Seq<char>, pos: int, word: Seq<char>, depth: nat)
    requires
        0 <= pos <= s.len(),
        word_run(s, pos, word) == word.len(),
        forall|i: int| 0 <= i < word.len() ==> is_quiet(#[trigger] word[i]),
    ensures
        passes(s, pos, pos + word.len(), outside(depth), outside(depth)),
    decreases word.len(),
{
    let at = outside(depth);
    if word.len() > 0 {
        let rest = word.drop_first();
        assert forall|i: int| 0 <= i < rest.len() implies is_quiet(#[trigger] rest[i]) by {}
        lemma_passes_one(s, pos, at);
        lemma_passes_word(s, pos + 1, rest, depth);
        lemma_passes_join(s, pos, pos + 1, pos + word.len(), at, at, at);
    } else {
        lemma_passes_none(s, pos, at);
    }
}

/// `true`, `false` and `null` pass.
pub proof fn lemma_passes_words(s: Seq<char>, pos: int, depth: nat)
    requires
        0 <= pos <= s.len(),
    ensures
        boolean_end(s, pos) is Ok ==> passes(
            s,
            pos,
            boolean_end(s, pos)->Ok_0,
            outside(depth),
            outside(depth),
        ),
        null_end(s, pos) is Ok ==> passes(
            s,
            pos,
            null_end(s, pos)->Ok_0,
            outside(depth),
            outside(depth),
        ),
{
    if boolean_end(s, pos) is Ok {
        if char_at(s, pos, 't') {
            lemma_passes_word(s, pos, word_true(), depth);
        } else {
            lemma_passes_word(s, pos, word_false(), depth);
        }
    }
    if null_end(s, pos) is Ok {
        lemma_passes_word(s, pos, word_null(), depth);
    }
}

/// The body of a string literal, closing quote included, passes if what
/// stands behind it may do so; it leads from inside the literal to outside of
/// it, whatever brackets it holds.
pub proof fn lemma_passes_string_body(s: Seq<char>, pos: int, depth: nat)
    requires
        0 <= pos <= s.len(),
        string_body_end(s, pos) is Ok,
        ends_string(s, whitespace_end(s, string_body_end(s, pos)->Ok_0)),
    ensures
        passes(s, pos, string_body_end(s, pos)->Ok_0, inside(depth), outside(depth)),
    decreases s.len() - pos,
{
    let at = inside(depth);
    let out = outside(depth);
    let end = string_body_end(s, pos)->Ok_0;
    lemma_passes_one(s, pos, at);
    if s[pos] == '\\' {
        let escaped = Nesting { depth, in_string: true, escaped: true };
        lemma_passes_one(s, pos + 1, escaped);
        lemma_passes_join(s, pos, pos + 1, pos + 2, at, escaped, at);
        if is_escape_letter(s[pos + 1]) {
            lemma_passes_string_body(s, pos + 2, depth);
            lemma_passes_join(s, pos, pos + 2, end, at, at, out);
        } else {
            lemma_passes_one(s, pos + 2, at);
            lemma_passes_one(s, pos + 3, at);
            lemma_passes_one(s, pos + 4, at);
            lemma_passes_one(s, pos + 5, at);
            lemma_passes_join(s, pos, pos + 2, pos + 3, at, at, at);
            lemma_passes_join(s, pos, pos + 3, pos + 4, at, at, at);
            lemma_passes_join(s, pos, pos + 4, pos + 5, at, at, at);
            lemma_passes_join(s, pos, pos + 5, pos + 6, at, at, at);
            lemma_passes_string_body(s, pos + 6, depth);
            lemma_passes_join(s, pos, pos + 6, end, at, at, out);
        }
    } else if s[pos] != '"' {
        lemma_passes_string_body(s, pos + 1, depth);
        lemma_passes_join(s, pos, pos + 1, end, at, at, out);
    }
}

/// A string literal passes if what stands behind it may do so, and leaves
/// the nesting as it is, whatever brackets it holds.
pub proof fn lemma_passes_string(s: Seq<char>, pos: int, depth: nat)
    requires
        0 <= pos <= s.len(),
        string_end(s, pos) is Ok,
        ends_string(s, whitespace_end(s, string_end(s, pos)->Ok_0)),
    ensures
        passes(s, pos, string_end(s, pos)->Ok_0, outside(depth), outside(depth)),
{
    let end = string_end(s, pos)->Ok_0;
    lemma_passes_one(s, pos, outside(depth));
    lemma_passes_string_body(s, pos + 1, depth);
    lemma_passes_join(s, pos, pos + 1, end, outside(depth), inside(depth), outside(depth));
}

/// A value passes if what stands behind it may do so, and leaves the nesting
/// as it is: it closes every bracket that it opens, and no other.
pub proof fn lemma_passes_value(s: Seq<char>, pos: int, depth: nat)
    requires
        0 <= pos <= s.len(),
        value_tree(s, pos) is Ok,
        ends_value(s, whitespace_end(s, value_tree(s, pos)->Ok_0.end)),
    ensures
        starts_value(s, pos),
        passes(s, pos, value_tree(s, pos)->Ok_0.end, outside(depth), outside(depth)),
    decreases s.len() - pos, 1int,
{
    let c = s[pos];
    if c == '{' {
        lemma_passes_object(s, pos, depth);
    } else if c == '[' {
        lemma_passes_array(s, pos, depth);
    } else if c == '"' {
        lemma_passes_string(s, pos, depth);
    } else if c == '-' || is_digit(c) {
        lemma_passes_number(s, pos, depth);
    } else {
        lemma_passes_words(s, pos, depth);
    }
}

pub proof fn lemma_passes_array(s: Seq<char>, pos: int, depth: nat)
    requires
        0 <= pos <= s.len(),
        array_tree(s, pos) is Ok,
        ends_value(s, whitespace_end(s, array_tree(s, pos)->Ok_0.end)),
    ensures
        passes(s, pos, array_tree(s, pos)->Ok_0.end, outside(depth), outside(depth)),
    decreases s.len() - pos, 0int,
{
    let out = outside(depth);
    let within = outside(depth + 1);
    let end = array_tree(s, pos)->Ok_0.end;
    let first = whitespace_end(s, pos + 1);
    lemma_whitespace_end_bounds(s, pos + 1);
    if char_at(s, first, ']') {
        lemma_passes_one(s, first, within);
    } else {
        lemma_passes_elements(s, pos, first, Seq::empty(), depth);
    }
    lemma_passes_one(s, pos, out);
    lemma_passes_whitespace(s, pos + 1, depth + 1);
    lemma_passes_join(s, pos, pos + 1, first, out, within, within);
    lemma_passes_join(s, pos, first, end, out, within, out);
}

/// The elements of an array, closing bracket included, pass and close one
/// bracket.
pub proof fn lemma_passes_elements(
    s: Seq<char>,
    open: int,
    pos: int,
    found: Seq<Tree>,
    depth: nat,
)
    requires
        0 <= open < pos <= s.len(),
        elements_tree(s, open, pos, found) is Ok,
        ends_value(s, whitespace_end(s, elements_tree(s, open, pos, found)->Ok_0.end)),
    ensures
        starts_value(s, pos),
        passes(
            s,
            pos,
            elements_tree(s, open, pos, found)->Ok_0.end,
            outside(depth + 1),
            outside(depth),
        ),
    decreases s.len() - pos, 2int,
{
    let at = outside(depth + 1);
    let out = outside(depth);
    let end = elements_tree(s, open, pos, found)->Ok_0.end;
    let t = value_tree(s, pos)->Ok_0;
    let after = whitespace_end(s, t.end);
    lemma_passes_value(s, pos, depth + 1);
    lemma_passes_whitespace(s, t.end, depth + 1);
    lemma_passes_join(s, pos, t.end, after, at, at, at);
    if char_at(s, after, ']') {
        lemma_passes_one(s, after, at);
        lemma_passes_join(s, pos, after, end, at, at, out);
    } else {
        let next = whitespace_end(s, after + 1);
        lemma_whitespace_end_bounds(s, after + 1);
        lemma_passes_elements(s, open, next, found.push(t), depth);
        lemma_passes_one(s, after, at);
        lemma_passes_whitespace(s, after + 1, depth + 1);
        lemma_passes_join(s, after, after + 1, next, at, at, at);
        lemma_passes_join(s, pos, after, next, at, at, at);
        lemma_passes_join(s, pos, next, end, at, at, out);
    }
}

pub proof fn lemma_passes_object(s: Seq<char>, pos: int, depth: nat)
    requires
        0 <= pos <= s.len(),
        object_tree(s, pos) is Ok,
        ends_value(s, whitespace_end(s, object_tree(s, pos)->Ok_0.end)),
    ensures
        passes(s, pos, object_tree(s, pos)->Ok_0.end, outside(depth), outside(depth)),
    decreases s.len() - pos, 0int,
{
    let out = outside(depth);
    let within = outside(depth + 1);
    let end = object_tree(s, pos)->Ok_0.end;
    let first = whitespace_end(s, pos + 1);
    lemma_whitespace_end_bounds(s, pos + 1);
    if char_at(s, first, '}') {
        lemma_passes_one(s, first, within);
    } else {
        lemma_passes_members(s, pos, first, Seq::empty(), depth);
    }
    lemma_passes_one(s, pos, out);
    lemma_passes_whitespace(s, pos + 1, depth + 1);
    lemma_passes_join(s, pos, pos + 1, first, out, within, within);
    lemma_passes_join(s, pos, first, end, out, within, out);
}

/// The members of an object, closing bracket included, pass and close one
/// bracket.
pub proof fn lemma_passes_members(
    s: Seq<char>,
    open: int,
    pos: int,
    found: Seq<Tree>,
    depth: nat,
)
    requires
        0 <= open < pos <= s.len(),
        members_tree(s, open, pos, found) is Ok,
        ends_value(s, whitespace_end(s, members_tree(s, open, pos, found)->Ok_0.end)),
    ensures
        char_at(s, pos, '"'),
        passes(
            s,
            pos,
            members_tree(s, open, pos, found)->Ok_0.end,
            outside(depth + 1),
            outside(depth),
        ),
    decreases s.len() - pos, 3int,
{
    let at = outside(depth + 1);
    let out = outside(depth);
    let end = members_tree(s, open, pos, found)->Ok_0.end;
    let t = key_value_tree(s, pos)->Ok_0;
    let after = whitespace_end(s, t.end);
    lemma_passes_key_value(s, pos, depth + 1);
    lemma_passes_whitespace(s, t.end, depth + 1);
    lemma_passes_join(s, pos, t.end, after, at, at, at);
    if char_at(s, after, '}') {
        lemma_passes_one(s, after, at);
        lemma_passes_join(s, pos, after, end, at, at, out);
    } else {
        let next = whitespace_end(s, after + 1);
        lemma_whitespace_end_bounds(s, after + 1);
        lemma_passes_members(s, open, next, found.push(t), depth);
        lemma_passes_one(s, after, at);
        lemma_passes_whitespace(s, after + 1, depth + 1);
        lemma_passes_join(s, after, after + 1, next, at, at, at);
        lemma_passes_join(s, pos, after, next, at, at, at);
        lemma_passes_join(s, pos, next, end, at, at, out);
    }
}

/// A member of an object passes if what stands behind it may stand behind a
/// value.
pub proof fn lemma_passes_key_value(s: Seq<char>, pos: int, depth: nat)
    requires
        0 <= pos <= s.len(),
        key_value_tree(s, pos) is Ok,
        ends_value(s, whitespace_end(s, key_value_tree(s, pos)->Ok_0.end)),
    ensures
        char_at(s, pos, '"'),
        passes(s, pos, key_value_tree(s, pos)->Ok_0.end, outside(depth), outside(depth)),
    decreases s.len() - pos, 2int,
{
    let at = outside(depth);
    let end = key_value_tree(s, pos)->Ok_0.end;
    let key = string_tree(s, pos)->Ok_0;
    lemma_string_end_bounds(s, pos);
    let colon = whitespace_end(s, key.end);
    lemma_whitespace_end_bounds(s, key.end);
    let value = whitespace_end(s, colon + 1);
    lemma_whitespace_end_bounds(s, colon + 1);
    lemma_passes_value(s, value, depth);
    lemma_passes_string(s, pos, depth);
    lemma_passes_whitespace(s, key.end, depth);
    lemma_passes_join(s, pos, key.end, colon, at, at, at);
    lemma_passes_one(s, colon, at);
    lemma_passes_whitespace(s, colon + 1, depth);
    lemma_passes_join(s, colon, colon + 1, value, at, at, at);
    lemma_passes_join(s, pos, colon, value, at, at, at);
    lemma_passes_join(s, pos, value, end, at, at, at);
}

/// A document passes as a whole: it closes what it opens, and every
/// character of it is well followed.
pub proof fn lemma_document_passes(s: Seq<char>)
    requires
        is_json(s),
    ensures
        passes(s, 0, s.len() as int, outside(0), outside(0)),
{
    let at = outside(0);
    let start = whitespace_end(s, 0);
    let t = value_tree(s, start)->Ok_0;
    lemma_passes_whitespace(s, 0, 0);
    lemma_passes_value(s, start, 0);
    lemma_passes_whitespace(s, t.end, 0);
    lemma_passes_join(s, 0, start, t.end, at, at, at);
    lemma_passes_join(s, 0, t.end, s.len() as int, at, at, at);
}

/// A document closes every bracket that it opens, and every string literal:
/// at its end no bracket is open and no literal.
pub proof fn lemma_document_is_closed(s: Seq<char>)
    requires
        is_json(s),
    ensures
        nesting_of(s) == outside(0),
{
    lemma_document_passes(s);
}

/// A text that opens a bracket and never closes it is no document, and
/// neither is a text that ends inside a string literal.
pub proof fn lemma_unclosed_is_no_document(s: Seq<char>)
    requires
        unclosed_brackets(s) > 0 || nesting_of(s).in_string,
    ensures
        !is_json(s),
{
    if is_json(s) {
        lemma_document_is_closed(s);
    }
}

/// Every character of a document is well followed.
pub proof fn lemma_document_is_well_followed(s: Seq<char>, p: int)
    requires
        is_json(s),
        0 <= p < s.len(),
    ensures
        well_followed(s, p, nesting_at(s, p)),
{
    lemma_document_passes(s);
    lemma_passes_at(s, 0, s.len() as int, p, outside(0), outside(0));
}

/// A text with a comma, outside of string literals, that is not followed by
/// the start of a value is no document: not where a closing bracket follows
/// the comma, and not where another comma does.
pub proof fn lemma_comma_without_value_is_no_document(s: Seq<char>, p: int)
    requires
        char_at(s, p, ','),
        !nesting_at(s, p).in_string,
        !starts_value(s, whitespace_end(s, p + 1)),
    ensures
        !is_json(s),
{
    if is_json(s) {
        lemma_document_is_well_followed(s, p);
    }
}

/// A text with a `{`, outside of string literals, that is followed neither by
/// the quote of a key nor by `}` is no document.
pub proof fn lemma_brace_without_key_is_no_document(s: Seq<char>, p: int)
    requires
        char_at(s, p, '{'),
        !nesting_at(s, p).in_string,
        !char_at(s, whitespace_end(s, p + 1), '"'),
        !char_at(s, whitespace_end(s, p + 1), '}'),
    ensures
        !is_json(s),
{
    if is_json(s) {
        lemma_document_is_well_followed(s, p);
    }
}

/// A text with a `.`, outside of string literals, that no digit follows at
/// once is no document.
pub proof fn lemma_point_without_digit_is_no_document(s: Seq<char>, p: int)
    requires
        char_at(s, p, '.'),
        !nesting_at(s, p).in_string,
        !digit_at(s, p + 1),
    ensures
        !is_json(s),
{
    if is_json(s) {
        lemma_document_is_well_followed(s, p);
    }
}

/// A text in which a closing bracket, outside of string literals, is
/// followed by anything but a comma, a closing bracket or the end of the
/// text is no document.
pub proof fn lemma_content_behind_bracket_is_no_document(s: Seq<char>, p: int)
    requires
        char_at(s, p, ']') || char_at(s, p, '}'),
        !nesting_at(s, p).in_string,
        !ends_value(s, whitespace_end(s, p + 1)),
    ensures
        !is_json(s),
{
    if is_json(s) {
        lemma_document_is_well_followed(s, p);
    }
}

/// A text in which the quote that closes a string literal is followed by
/// anything but a comma, a colon, a closing bracket or the end of the text is
/// no document.
pub proof fn lemma_content_behind_string_is_no_document(s: Seq<char>, p: int)
    requires
        char_at(s, p, '"'),
        nesting_at(s, p).in_string,
        !nesting_at(s, p).escaped,
        !ends_string(s, whitespace_end(s, p + 1)),
    ensures
        !is_json(s),
{
    if is_json(s) {
        lemma_document_is_well_followed(s, p);
    }
}

/// A text in which a digit, outside of string literals, is followed by
/// anything but more of its number, a comma, a closing bracket or the end of
/// the text is no document.
pub proof fn lemma_content_behind_digit_is_no_document(s: Seq<char>, p: int)
    requires
        digit_at(s, p),
        !nesting_at(s, p).in_string,
        !digit_at(s, p + 1),
        !ends_digits(s, p + 1),
    ensures
        !is_json(s),
{
    if is_json(s) {
        lemma_document_is_well_followed(s, p);
    }
}

} // verus!
