//! The JSON grammar, as functions on a text and a position in it.
//!
//! A text is a sequence of characters and a position is an index into it. Each
//! rule of the grammar is a function that says, for a text and a position,
//! either where the rule's match ends (or which tree it yields), or where the
//! text first departs from the rule. The grammar is deterministic: the next
//! character decides which alternative applies, and a rule that has begun
//! never falls back to a shorter match.

use vstd::prelude::*;

verus! {

/// The rules of the grammar.
#[derive(Clone, Copy, Debug, PartialEq, Eq, Structural)]
pub enum Rule {
    /// A whole document: a value with whitespace around it, and nothing else.
    Json,
    /// Any one of object, array, string, number, boolean and null.
    Value,
    /// `{`, members separated by commas, `}`.
    Object,
    /// A member of an object: a string, `:`, a value.
    KeyValue,
    /// `[`, values separated by commas, `]`.
    Array,
    /// A string literal, quotes included.
    String,
    /// A number literal.
    Number,
    /// `true` or `false`.
    Boolean,
    /// `null`.
    Null,
}

/// The name of a rule, as messages give it.
pub open spec fn rule_name(rule: Rule) -> Seq<char> {
    match rule {
        Rule::Json => "json"@,
        Rule::Value => "value"@,
        Rule::Object => "object"@,
        Rule::KeyValue => "key_value"@,
        Rule::Array => "array"@,
        Rule::String => "string"@,
        Rule::Number => "number"@,
        Rule::Boolean => "boolean"@,
        Rule::Null => "null"@,
    }
}

impl Rule {
    /// The rule's name.
    pub fn name(self) -> (name: &'static str)
        ensures
            name@ == rule_name(self),
    {
        match self {
            Rule::Json => "json",
            Rule::Value => "value",
            Rule::Object => "object",
            Rule::KeyValue => "key_value",
            Rule::Array => "array",
            Rule::String => "string",
            Rule::Number => "number",
            Rule::Boolean => "boolean",
            Rule::Null => "null",
        }
    }
}

/// Where a text departs from the grammar, and in which rule.
pub ghost struct Failure {
    /// The index of the first character that the rule cannot take; the text's
    /// length where the text ends too early.
    pub position: int,
    /// The rule that could not go on.
    pub rule: Rule,
}

/// A node of a match tree: a rule and the span of text it matched, with the
/// matches of its sub-rules in the order of the text.
pub ghost struct Tree {
    pub rule: Rule,
    /// The index of the first character matched.
    pub start: int,
    /// The index after the last character matched.
    pub end: int,
    pub inner: Seq<Tree>,
}

pub open spec fn is_whitespace(c: char) -> bool {
    c == ' ' || c == '\t' || c == '\n' || c == '\r'
}

pub open spec fn is_digit(c: char) -> bool {
    '0' <= c && c <= '9'
}

pub open spec fn is_hex_digit(c: char) -> bool {
    is_digit(c) || ('a' <= c && c <= 'f') || ('A' <= c && c <= 'F')
}

/// The characters that may follow a backslash on their own.
pub open spec fn is_escape_letter(c: char) -> bool {
    c == '"' || c == '\\' || c == '/' || c == 'b' || c == 'f' || c == 'n' || c == 'r' || c == 't'
}

/// The text holds the character `c` at `pos`.
pub open spec fn char_at(s: Seq<char>, pos: int, c: char) -> bool {
    0 <= pos < s.len() && s[pos] == c
}

pub open spec fn digit_at(s: Seq<char>, pos: int) -> bool {
    0 <= pos < s.len() && is_digit(s[pos])
}

pub open spec fn hex_digit_at(s: Seq<char>, pos: int) -> bool {
    0 <= pos < s.len() && is_hex_digit(s[pos])
}

pub open spec fn failure(position: int, rule: Rule) -> Failure {
    Failure { position, rule }
}

/// The first position from `pos` on that holds no whitespace.
pub open spec fn whitespace_end(s: Seq<char>, pos: int) -> int
    decreases s.len() - pos,
{
    if 0 <= pos < s.len() && is_whitespace(s[pos]) {
        whitespace_end(s, pos + 1)
    } else {
        pos
    }
}

/// The first position from `pos` on that holds no digit.
pub open spec fn digits_end(s: Seq<char>, pos: int) -> int
    decreases s.len() - pos,
{
    if digit_at(s, pos) {
        digits_end(s, pos + 1)
    } else {
        pos
    }
}

/// The integer part of a number: `0` alone, or a digit other than `0` with
/// any digits after it.
pub open spec fn integer_end(s: Seq<char>, pos: int) -> Result<int, Failure> {
    if char_at(s, pos, '0') {
        Ok(pos + 1)
    } else if digit_at(s, pos) {
        Ok(digits_end(s, pos))
    } else {
        Err(failure(pos, Rule::Number))
    }
}

/// The fraction of a number, if there is one: `.` and at least one digit.
pub open spec fn fraction_end(s: Seq<char>, pos: int) -> Result<int, Failure> {
    if char_at(s, pos, '.') {
        if digit_at(s, pos + 1) {
            Ok(digits_end(s, pos + 1))
        } else {
            Err(failure(pos + 1, Rule::Number))
        }
    } else {
        Ok(pos)
    }
}

/// The exponent of a number, if there is one: `e` or `E`, a sign if any, and
/// at least one digit.
pub open spec fn exponent_end(s: Seq<char>, pos: int) -> Result<int, Failure> {
    if char_at(s, pos, 'e') || char_at(s, pos, 'E') {
        let digits = if char_at(s, pos + 1, '+') || char_at(s, pos + 1, '-') {
            pos + 2
        } else {
            pos + 1
        };
        if digit_at(s, digits) {
            Ok(digits_end(s, digits))
        } else {
            Err(failure(digits, Rule::Number))
        }
    } else {
        Ok(pos)
    }
}

/// A number: `-` if any, the integer part, then fraction and exponent.
pub open spec fn number_end(s: Seq<char>, pos: int) -> Result<int, Failure> {
    let integer = if char_at(s, pos, '-') {
        pos + 1
    } else {
        pos
    };
    match integer_end(s, integer) {
        Err(f) => Err(f),
        Ok(fraction) => match fraction_end(s, fraction) {
            Err(f) => Err(f),
            Ok(exponent) => exponent_end(s, exponent),
        },
    }
}

/// How many of the four characters from `pos` on are hexadecimal digits,
/// counted up to the first that is none.
pub open spec fn hex_run(s: Seq<char>, pos: int) -> int {
    if !hex_digit_at(s, pos) {
        0
    } else if !hex_digit_at(s, pos + 1) {
        1
    } else if !hex_digit_at(s, pos + 2) {
        2
    } else if !hex_digit_at(s, pos + 3) {
        3
    } else {
        4
    }
}

/// The rest of a string literal from `pos` on, which lies behind the opening
/// quote: characters other than `"` and `\`, and escapes, up to the closing
/// quote. An escape is `\` with an escape letter, or `\u` with four
/// hexadecimal digits.
pub open spec fn string_body_end(s: Seq<char>, pos: int) -> Result<int, Failure>
    decreases s.len() - pos,
{
    if pos < 0 || pos >= s.len() {
        Err(failure(pos, Rule::String))
    } else if s[pos] == '"' {
        Ok(pos + 1)
    } else if s[pos] == '\\' {
        if pos + 1 < s.len() && is_escape_letter(s[pos + 1]) {
            string_body_end(s, pos + 2)
        } else if char_at(s, pos + 1, 'u') {
            if hex_run(s, pos + 2) == 4 {
                string_body_end(s, pos + 6)
            } else {
                Err(failure(pos + 2 + hex_run(s, pos + 2), Rule::String))
            }
        } else {
            Err(failure(pos + 1, Rule::String))
        }
    } else {
        string_body_end(s, pos + 1)
    }
}

/// A string literal: `"`, then the body up to the closing quote.
pub open spec fn string_end(s: Seq<char>, pos: int) -> Result<int, Failure> {
    if char_at(s, pos, '"') {
        string_body_end(s, pos + 1)
    } else {
        Err(failure(pos, Rule::String))
    }
}

/// How many leading characters of `word` the text holds from `pos` on.
pub open spec fn word_run(s: Seq<char>, pos: int, word: Seq<char>) -> int
    decreases word.len(),
{
    if word.len() > 0 && char_at(s, pos, word[0]) {
        1 + word_run(s, pos + 1, word.drop_first())
    } else {
        0
    }
}

/// The word `word`, character by character.
pub open spec fn word_end(s: Seq<char>, pos: int, word: Seq<char>, rule: Rule) -> Result<
    int,
    Failure,
> {
    let run = word_run(s, pos, word);
    if run == word.len() {
        Ok(pos + run)
    } else {
        Err(failure(pos + run, rule))
    }
}

pub open spec fn word_true() -> Seq<char> {
    seq!['t', 'r', 'u', 'e']
}

pub open spec fn word_false() -> Seq<char> {
    seq!['f', 'a', 'l', 's', 'e']
}

pub open spec fn word_null() -> Seq<char> {
    seq!['n', 'u', 'l', 'l']
}

/// `true` or `false`; the first character decides which.
pub open spec fn boolean_end(s: Seq<char>, pos: int) -> Result<int, Failure> {
    if char_at(s, pos, 't') {
        word_end(s, pos, word_true(), Rule::Boolean)
    } else {
        word_end(s, pos, word_false(), Rule::Boolean)
    }
}

pub open spec fn null_end(s: Seq<char>, pos: int) -> Result<int, Failure> {
    word_end(s, pos, word_null(), Rule::Null)
}

/// A tree without sub-matches.
pub open spec fn leaf(rule: Rule, start: int, end: int) -> Tree {
    Tree { rule, start, end, inner: Seq::empty() }
}

/// The leaf of a rule that matches from `start` to wherever `end` says.
pub open spec fn token(rule: Rule, start: int, end: Result<int, Failure>) -> Result<
    Tree,
    Failure,
> {
    match end {
        Ok(e) => Ok(leaf(rule, start, e)),
        Err(f) => Err(f),
    }
}

pub open spec fn string_tree(s: Seq<char>, pos: int) -> Result<Tree, Failure> {
    token(Rule::String, pos, string_end(s, pos))
}

pub open spec fn number_tree(s: Seq<char>, pos: int) -> Result<Tree, Failure> {
    token(Rule::Number, pos, number_end(s, pos))
}

pub open spec fn boolean_tree(s: Seq<char>, pos: int) -> Result<Tree, Failure> {
    token(Rule::Boolean, pos, boolean_end(s, pos))
}

pub open spec fn null_tree(s: Seq<char>, pos: int) -> Result<Tree, Failure> {
    token(Rule::Null, pos, null_end(s, pos))
}

/// A value: the character at `pos` decides which of the six kinds is tried,
/// and the value's tree holds that kind's tree as its one sub-match.
pub open spec fn value_tree(s: Seq<char>, pos: int) -> Result<Tree, Failure>
    decreases s.len() - pos, 1int,
{
    if pos < 0 || pos >= s.len() {
        Err(failure(pos, Rule::Value))
    } else {
        let c = s[pos];
        let kind = if c == '{' {
            object_tree(s, pos)
        } else if c == '[' {
            array_tree(s, pos)
        } else if c == '"' {
            string_tree(s, pos)
        } else if c == '-' || is_digit(c) {
            number_tree(s, pos)
        } else if c == 't' || c == 'f' {
            boolean_tree(s, pos)
        } else if c == 'n' {
            null_tree(s, pos)
        } else {
            Err(failure(pos, Rule::Value))
        };
        match kind {
            Ok(t) => Ok(Tree { rule: Rule::Value, start: t.start, end: t.end, inner: seq![t] }),
            Err(f) => Err(f),
        }
    }
}

/// An array: `[`, then `]` or the elements, with whitespace wherever two
/// tokens meet.
pub open spec fn array_tree(s: Seq<char>, pos: int) -> Result<Tree, Failure>
    decreases s.len() - pos, 0int,
{
    if !char_at(s, pos, '[') {
        Err(failure(pos, Rule::Array))
    } else {
        let first = whitespace_end(s, pos + 1);
        if char_at(s, first, ']') {
            Ok(Tree { rule: Rule::Array, start: pos, end: first + 1, inner: Seq::empty() })
        } else {
            proof {
                lemma_whitespace_end_bounds(s, pos + 1);
            }
            elements_tree(s, pos, first, Seq::empty())
        }
    }
}

/// The elements of the array opened at `open`, from the element at `pos` on,
/// where `found` holds the elements before it: a value, then `]`, which ends
/// the array, or `,` and the elements after it. (No value ends before it
/// starts; the test for that is there to show that the matching ends.)
pub open spec fn elements_tree(s: Seq<char>, open: int, pos: int, found: Seq<Tree>) -> Result<
    Tree,
    Failure,
>
    decreases s.len() - pos, 2int,
{
    match value_tree(s, pos) {
        Err(f) => Err(f),
        Ok(t) => {
            let after = whitespace_end(s, t.end);
            if char_at(s, after, ']') {
                Ok(Tree { rule: Rule::Array, start: open, end: after + 1, inner: found.push(t) })
            } else if char_at(s, after, ',') && pos <= t.end {
                proof {
                    lemma_whitespace_end_bounds(s, t.end);
                    lemma_whitespace_end_bounds(s, after + 1);
                }
                elements_tree(s, open, whitespace_end(s, after + 1), found.push(t))
            } else {
                Err(failure(after, Rule::Array))
            }
        },
    }
}

/// An object: `{`, then `}` or the members, with whitespace wherever two
/// tokens meet.
pub open spec fn object_tree(s: Seq<char>, pos: int) -> Result<Tree, Failure>
    decreases s.len() - pos, 0int,
{
    if !char_at(s, pos, '{') {
        Err(failure(pos, Rule::Object))
    } else {
        let first = whitespace_end(s, pos + 1);
        if char_at(s, first, '}') {
            Ok(Tree { rule: Rule::Object, start: pos, end: first + 1, inner: Seq::empty() })
        } else {
            proof {
                lemma_whitespace_end_bounds(s, pos + 1);
            }
            members_tree(s, pos, first, Seq::empty())
        }
    }
}

/// The members of the object opened at `open`, from the member at `pos` on,
/// where `found` holds the members before it: a member, then `}`, which ends
/// the object, or `,` and the members after it. (No member ends before it
/// starts; the test for that is there to show that the matching ends.)
pub open spec fn members_tree(s: Seq<char>, open: int, pos: int, found: Seq<Tree>) -> Result<
    Tree,
    Failure,
>
    decreases s.len() - pos, 3int,
{
    match key_value_tree(s, pos) {
        Err(f) => Err(f),
        Ok(t) => {
            let after = whitespace_end(s, t.end);
            if char_at(s, after, '}') {
                Ok(Tree { rule: Rule::Object, start: open, end: after + 1, inner: found.push(t) })
            } else if char_at(s, after, ',') && pos <= t.end {
                proof {
                    lemma_whitespace_end_bounds(s, t.end);
                    lemma_whitespace_end_bounds(s, after + 1);
                }
                members_tree(s, open, whitespace_end(s, after + 1), found.push(t))
            } else {
                Err(failure(after, Rule::Object))
            }
        },
    }
}

/// A member of an object: a string, `:`, a value.
pub open spec fn key_value_tree(s: Seq<char>, pos: int) -> Result<Tree, Failure>
    decreases s.len() - pos, 2int,
{
    match string_tree(s, pos) {
        Err(f) => Err(f),
        Ok(key) => {
            let colon = whitespace_end(s, key.end);
            if !char_at(s, colon, ':') {
                Err(failure(colon, Rule::KeyValue))
            } else {
                proof {
                    lemma_string_end_bounds(s, pos);
                    lemma_whitespace_end_bounds(s, key.end);
                    lemma_whitespace_end_bounds(s, colon + 1);
                }
                match value_tree(s, whitespace_end(s, colon + 1)) {
                    Err(f) => Err(f),
                    Ok(value) => Ok(
                        Tree {
                            rule: Rule::KeyValue,
                            start: pos,
                            end: value.end,
                            inner: seq![key, value],
                        },
                    ),
                }
            }
        },
    }
}

/// A document: whitespace, a value, whitespace, and the end of the text.
pub open spec fn json_tree(s: Seq<char>) -> Result<Tree, Failure> {
    match value_tree(s, whitespace_end(s, 0)) {
        Err(f) => Err(f),
        Ok(t) => {
            let after = whitespace_end(s, t.end);
            if after == s.len() {
                Ok(Tree { rule: Rule::Json, start: 0, end: after, inner: seq![t] })
            } else {
                Err(failure(after, Rule::Json))
            }
        },
    }
}

/// What `rule` yields on the text `s`, matched from its first character. Only
/// a document has to reach the end of the text.
pub open spec fn rule_tree(rule: Rule, s: Seq<char>) -> Result<Tree, Failure> {
    match rule {
        Rule::Json => json_tree(s),
        Rule::Value => value_tree(s, 0),
        Rule::Object => object_tree(s, 0),
        Rule::KeyValue => key_value_tree(s, 0),
        Rule::Array => array_tree(s, 0),
        Rule::String => string_tree(s, 0),
        Rule::Number => number_tree(s, 0),
        Rule::Boolean => boolean_tree(s, 0),
        Rule::Null => null_tree(s, 0),
    }
}

/// The text `s` is a JSON document.
pub open spec fn is_json(s: Seq<char>) -> bool {
    json_tree(s) is Ok
}

pub proof fn lemma_whitespace_end_bounds(s: Seq<char>, pos: int)
    requires
        pos <= s.len(),
    ensures
        pos <= whitespace_end(s, pos) <= s.len(),
    decreases s.len() - pos,
{
    if 0 <= pos < s.len() && is_whitespace(s[pos]) {
        lemma_whitespace_end_bounds(s, pos + 1);
    }
}

pub proof fn lemma_digits_end_bounds(s: Seq<char>, pos: int)
    requires
        pos <= s.len(),
    ensures
        pos <= digits_end(s, pos) <= s.len(),
        digit_at(s, pos) ==> pos < digits_end(s, pos),
    decreases s.len() - pos,
{
    if digit_at(s, pos) {
        lemma_digits_end_bounds(s, pos + 1);
    }
}

/// A number that matches is not empty and ends within the text; one that
/// fails, fails within the text or at its end.
pub proof fn lemma_number_end_bounds(s: Seq<char>, pos: int)
    requires
        0 <= pos <= s.len(),
    ensures
        match number_end(s, pos) {
            Ok(end) => pos < end <= s.len(),
            Err(f) => pos <= f.position <= s.len() && f.rule == Rule::Number,
        },
{
    let integer = if char_at(s, pos, '-') {
        pos + 1
    } else {
        pos
    };
    if integer_end(s, integer) is Ok {
        let fraction = integer_end(s, integer)->Ok_0;
        lemma_digits_end_bounds(s, integer);
        if fraction_end(s, fraction) is Ok {
            let exponent = fraction_end(s, fraction)->Ok_0;
            if fraction != exponent {
                lemma_digits_end_bounds(s, fraction + 1);
            }
            if exponent_end(s, exponent) is Ok && exponent_end(s, exponent)->Ok_0 != exponent {
                if char_at(s, exponent + 1, '+') || char_at(s, exponent + 1, '-') {
                    lemma_digits_end_bounds(s, exponent + 2);
                } else {
                    lemma_digits_end_bounds(s, exponent + 1);
                }
            }
        }
    }
}

pub proof fn lemma_string_body_end_bounds(s: Seq<char>, pos: int)
    requires
        0 <= pos <= s.len(),
    ensures
        match string_body_end(s, pos) {
            Ok(end) => pos < end <= s.len(),
            Err(f) => pos <= f.position <= s.len() && f.rule == Rule::String,
        },
    decreases s.len() - pos,
{
    if pos < s.len() && s[pos] != '"' {
        if s[pos] == '\\' {
            if pos + 1 < s.len() && is_escape_letter(s[pos + 1]) {
                lemma_string_body_end_bounds(s, pos + 2);
            } else if char_at(s, pos + 1, 'u') && hex_run(s, pos + 2) == 4 {
                lemma_string_body_end_bounds(s, pos + 6);
            }
        } else {
            lemma_string_body_end_bounds(s, pos + 1);
        }
    }
}

/// A string literal that matches holds at least its two quotes and ends
/// within the text.
pub proof fn lemma_string_end_bounds(s: Seq<char>, pos: int)
    requires
        0 <= pos <= s.len(),
    ensures
        match string_end(s, pos) {
            Ok(end) => pos + 2 <= end <= s.len(),
            Err(f) => pos <= f.position <= s.len() && f.rule == Rule::String,
        },
{
    if char_at(s, pos, '"') {
        lemma_string_body_end_bounds(s, pos + 1);
    }
}

pub proof fn lemma_word_run_bounds(s: Seq<char>, pos: int, word: Seq<char>)
    requires
        0 <= pos <= s.len(),
    ensures
        0 <= word_run(s, pos, word) <= word.len(),
        pos + word_run(s, pos, word) <= s.len(),
    decreases word.len(),
{
    if word.len() > 0 && char_at(s, pos, word[0]) {
        lemma_word_run_bounds(s, pos + 1, word.drop_first());
    }
}

} // verus!
