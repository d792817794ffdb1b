//! The matcher: it runs the rules of the grammar on a text and builds the
//! match tree.

use crate::grammar::{
    array_tree, boolean_tree, char_at, digit_at, digits_end, elements_tree, exponent_end,
    fraction_end, hex_digit_at, hex_run, integer_end, is_escape_letter, json_tree,
    key_value_tree, leaf, lemma_digits_end_bounds, members_tree, null_tree, number_end,
    number_tree, object_tree, rule_tree, string_body_end, string_end, string_tree, value_tree,
    whitespace_end, word_end, word_run, Failure, Rule, Tree,
};
use crate::shape::{
    in_order, lemma_key_value_tree, lemma_rule_tree, lemma_rule_tree_in_order,
    lemma_string_tree, lemma_value_tree, well_formed,
};
use vstd::prelude::*;

verus! {

/// A node of a match tree: a rule, the span of the text that it matched, given
/// by the indices of its first character and of the character after its last,
/// and the matches of its sub-rules.
#[derive(Debug)]
pub struct Pair {
    pub rule: Rule,
    pub start: usize,
    pub end: usize,
    pub inner: Vec<Pair>,
}

/// The trees of a sequence of nodes, one by one.
pub open spec fn trees_of(pairs: Seq<Pair>) -> Seq<Tree>
    decreases pairs, 0int,
{
    Seq::new(
        pairs.len(),
        |i: int|
            if 0 <= i < pairs.len() {
                pairs[i]@
            } else {
                leaf(Rule::Null, 0, 0)
            },
    )
}

impl View for Pair {
    type V = Tree;

    open spec fn view(&self) -> Tree
        decreases self, 1int,
    {
        Tree {
            rule: self.rule,
            start: self.start as int,
            end: self.end as int,
            inner: trees_of(self.inner@),
        }
    }
}

/// Where a text departs from the grammar: the index of the first character
/// that does not fit, and the rule that was being matched there.
#[derive(Clone, Copy, Debug, PartialEq, Eq, Structural)]
pub struct SyntaxError {
    pub position: usize,
    pub rule: Rule,
}

impl View for SyntaxError {
    type V = Failure;

    open spec fn view(&self) -> Failure {
        Failure { position: self.position as int, rule: self.rule }
    }
}

/// The matcher gave what the grammar says: the same tree, or the same failure.
pub open spec fn matched(result: Result<Pair, SyntaxError>, expected: Result<Tree, Failure>) -> bool {
    match result {
        Ok(pair) => expected == Ok::<Tree, Failure>(pair@),
        Err(e) => expected == Err::<Tree, Failure>(e@),
    }
}

/// The scan ended where the grammar says, or failed as it says.
pub open spec fn ended(result: Result<usize, SyntaxError>, expected: Result<int, Failure>) -> bool {
    match result {
        Ok(end) => expected == Ok::<int, Failure>(end as int),
        Err(e) => expected == Err::<int, Failure>(e@),
    }
}

fn has_char(text: &[char], pos: usize, c: char) -> (b: bool)
    ensures
        b == char_at(text@, pos as int, c),
        b ==> pos < text.len(),
{
    pos < text.len() && text[pos] == c
}

fn has_digit(text: &[char], pos: usize) -> (b: bool)
    ensures
        b == digit_at(text@, pos as int),
{
    pos < text.len() && '0' <= text[pos] && text[pos] <= '9'
}

fn has_hex_digit(text: &[char], pos: usize) -> (b: bool)
    ensures
        b == hex_digit_at(text@, pos as int),
{
    if pos < text.len() {
        let c = text[pos];
        ('0' <= c && c <= '9') || ('a' <= c && c <= 'f') || ('A' <= c && c <= 'F')
    } else {
        false
    }
}

fn has_escape_letter(text: &[char], pos: usize) -> (b: bool)
    ensures
        b == (pos < text.len() && is_escape_letter(text@[pos as int])),
{
    if pos < text.len() {
        let c = text[pos];
        c == '"' || c == '\\' || c == '/' || c == 'b' || c == 'f' || c == 'n' || c == 'r' || c
            == 't'
    } else {
        false
    }
}

/// Passes over the whitespace at `pos`.
fn skip_whitespace(text: &[char], pos: usize) -> (end: usize)
    requires
        pos <= text.len(),
    ensures
        end == whitespace_end(text@, pos as int),
        pos <= end <= text.len(),
{
    let mut i: usize = pos;
    while i < text.len() && (text[i] == ' ' || text[i] == '\t' || text[i] == '\n' || text[i]
        == '\r')
        invariant
            pos <= i <= text.len(),
            whitespace_end(text@, pos as int) == whitespace_end(text@, i as int),
        decreases text.len() - i,
    {
        i += 1;
    }
    i
}

/// Passes over the digits at `pos`.
fn skip_digits(text: &[char], pos: usize) -> (end: usize)
    requires
        pos <= text.len(),
    ensures
        end == digits_end(text@, pos as int),
        pos <= end <= text.len(),
{
    let mut i: usize = pos;
    while has_digit(text, i)
        invariant
            pos <= i <= text.len(),
            digits_end(text@, pos as int) == digits_end(text@, i as int),
        decreases text.len() - i,
    {
        i += 1;
    }
    i
}

fn scan_integer(text: &[char], pos: usize) -> (result: Result<usize, SyntaxError>)
    ensures
        ended(result, integer_end(text@, pos as int)),
        result is Ok ==> pos < result->Ok_0 <= text.len(),
{
    if has_char(text, pos, '0') {
        Ok(pos + 1)
    } else if has_digit(text, pos) {
        proof {
            lemma_digits_end_bounds(text@, pos as int);
        }
        Ok(skip_digits(text, pos))
    } else {
        Err(SyntaxError { position: pos, rule: Rule::Number })
    }
}

fn scan_fraction(text: &[char], pos: usize) -> (result: Result<usize, SyntaxError>)
    requires
        pos <= text.len(),
    ensures
        ended(result, fraction_end(text@, pos as int)),
        result is Ok ==> pos <= result->Ok_0 <= text.len(),
{
    if has_char(text, pos, '.') {
        if has_digit(text, pos + 1) {
            Ok(skip_digits(text, pos + 1))
        } else {
            Err(SyntaxError { position: pos + 1, rule: Rule::Number })
        }
    } else {
        Ok(pos)
    }
}

fn scan_exponent(text: &[char], pos: usize) -> (result: Result<usize, SyntaxError>)
    requires
        pos <= text.len(),
    ensures
        ended(result, exponent_end(text@, pos as int)),
        result is Ok ==> pos <= result->Ok_0 <= text.len(),
{
    if has_char(text, pos, 'e') || has_char(text, pos, 'E') {
        let mut digits: usize = pos + 1;
        if has_char(text, digits, '+') || has_char(text, digits, '-') {
            digits += 1;
        }
        if has_digit(text, digits) {
            Ok(skip_digits(text, digits))
        } else {
            Err(SyntaxError { position: digits, rule: Rule::Number })
        }
    } else {
        Ok(pos)
    }
}

/// Finds the end of the number at `pos`.
fn scan_number(text: &[char], pos: usize) -> (result: Result<usize, SyntaxError>)
    ensures
        ended(result, number_end(text@, pos as int)),
        result is Ok ==> pos < result->Ok_0 <= text.len(),
{
    let integer: usize = if has_char(text, pos, '-') {
        pos + 1
    } else {
        pos
    };
    let fraction: usize = match scan_integer(text, integer) {
        Ok(end) => end,
        Err(e) => {
            return Err(e);
        },
    };
    let exponent: usize = match scan_fraction(text, fraction) {
        Ok(end) => end,
        Err(e) => {
            return Err(e);
        },
    };
    scan_exponent(text, exponent)
}

/// Counts the hexadecimal digits among the four characters from `pos` on, up
/// to the first that is none.
fn scan_hex_run(text: &[char], pos: usize) -> (run: usize)
    requires
        pos <= text.len(),
    ensures
        run == hex_run(text@, pos as int),
        pos + run <= text.len(),
        run <= 4,
{
    let mut run: usize = 0;
    while run < 4 && has_hex_digit(text, pos + run)
        invariant
            run <= 4,
            pos + run <= text.len(),
            run >= 1 ==> hex_digit_at(text@, pos as int),
            run >= 2 ==> hex_digit_at(text@, pos + 1),
            run >= 3 ==> hex_digit_at(text@, pos + 2),
            run >= 4 ==> hex_digit_at(text@, pos + 3),
        decreases 4 - run,
    {
        run += 1;
    }
    run
}

/// Finds the end of the string literal whose opening quote stands before
/// `pos`.
fn scan_string_body(text: &[char], pos: usize) -> (result: Result<usize, SyntaxError>)
    requires
        pos <= text.len(),
    ensures
        ended(result, string_body_end(text@, pos as int)),
        result is Ok ==> pos < result->Ok_0 <= text.len(),
{
    let mut i: usize = pos;
    loop
        invariant
            pos <= i <= text.len(),
            string_body_end(text@, pos as int) == string_body_end(text@, i as int),
        decreases text.len() - i,
    {
        if i >= text.len() {
            return Err(SyntaxError { position: i, rule: Rule::String });
        }
        let c = text[i];
        if c == '"' {
            return Ok(i + 1);
        } else if c == '\\' {
            if has_escape_letter(text, i + 1) {
                i += 2;
            } else if has_char(text, i + 1, 'u') {
                let run = scan_hex_run(text, i + 2);
                if run == 4 {
                    i += 6;
                } else {
                    return Err(SyntaxError { position: i + 2 + run, rule: Rule::String });
                }
            } else {
                return Err(SyntaxError { position: i + 1, rule: Rule::String });
            }
        } else {
            i += 1;
        }
    }
}

/// Finds the end of the string literal at `pos`.
fn scan_string(text: &[char], pos: usize) -> (result: Result<usize, SyntaxError>)
    ensures
        ended(result, string_end(text@, pos as int)),
        result is Ok ==> pos + 2 <= result->Ok_0 <= text.len(),
{
    if has_char(text, pos, '"') {
        scan_string_body(text, pos + 1)
    } else {
        Err(SyntaxError { position: pos, rule: Rule::String })
    }
}

/// Finds the end of the word `word` at `pos`.
fn scan_word(text: &[char], pos: usize, word: &[char], rule: Rule) -> (result: Result<
    usize,
    SyntaxError,
>)
    requires
        word.len() > 0,
    ensures
        ended(result, word_end(text@, pos as int, word@, rule)),
        result is Ok ==> result->Ok_0 == pos + word@.len() <= text.len(),
{
    let mut i: usize = 0;
    proof {
        assert(word@.subrange(0, word@.len() as int) =~= word@);
    }
    while i < word.len() && has_char(text, pos + i, word[i])
        invariant
            i <= word@.len(),
            i > 0 ==> pos + i <= text.len(),
            word_run(text@, pos as int, word@) == i + word_run(
                text@,
                pos + i,
                word@.subrange(i as int, word@.len() as int),
            ),
        decreases word@.len() - i,
    {
        proof {
            let rest = word@.subrange(i as int, word@.len() as int);
            assert(rest.drop_first() =~= word@.subrange(i + 1, word@.len() as int));
        }
        i += 1;
    }
    if i == word.len() {
        Ok(pos + i)
    } else {
        Err(SyntaxError { position: pos + i, rule })
    }
}

/// Makes the node of a rule without sub-rules.
fn leaf_pair(rule: Rule, start: usize, end: usize) -> (pair: Pair)
    ensures
        pair@ == leaf(rule, start as int, end as int),
{
    let pair = Pair { rule, start, end, inner: Vec::new() };
    proof {
        assert(trees_of(pair.inner@) =~= Seq::<Tree>::empty());
    }
    pair
}

/// Matches a string literal at `pos`.
pub fn match_string(text: &[char], pos: usize) -> (result: Result<Pair, SyntaxError>)
    ensures
        matched(result, string_tree(text@, pos as int)),
{
    match scan_string(text, pos) {
        Ok(end) => Ok(leaf_pair(Rule::String, pos, end)),
        Err(e) => Err(e),
    }
}

/// Matches a number at `pos`.
pub fn match_number(text: &[char], pos: usize) -> (result: Result<Pair, SyntaxError>)
    ensures
        matched(result, number_tree(text@, pos as int)),
{
    match scan_number(text, pos) {
        Ok(end) => Ok(leaf_pair(Rule::Number, pos, end)),
        Err(e) => Err(e),
    }
}

/// Matches `true` or `false` at `pos`.
pub fn match_boolean(text: &[char], pos: usize) -> (result: Result<Pair, SyntaxError>)
    ensures
        matched(result, boolean_tree(text@, pos as int)),
{
    let end = if has_char(text, pos, 't') {
        let word: [char; 4] = ['t', 'r', 'u', 'e'];
        scan_word(text, pos, word.as_slice(), Rule::Boolean)
    } else {
        let word: [char; 5] = ['f', 'a', 'l', 's', 'e'];
        scan_word(text, pos, word.as_slice(), Rule::Boolean)
    };
    match end {
        Ok(end) => Ok(leaf_pair(Rule::Boolean, pos, end)),
        Err(e) => Err(e),
    }
}

/// Matches `null` at `pos`.
pub fn match_null(text: &[char], pos: usize) -> (result: Result<Pair, SyntaxError>)
    ensures
        matched(result, null_tree(text@, pos as int)),
{
    let word: [char; 4] = ['n', 'u', 'l', 'l'];
    match scan_word(text, pos, word.as_slice(), Rule::Null) {
        Ok(end) => Ok(leaf_pair(Rule::Null, pos, end)),
        Err(e) => Err(e),
    }
}

/// Matches a value at `pos`.
pub fn match_value(text: &[char], pos: usize) -> (result: Result<Pair, SyntaxError>)
    ensures
        matched(result, value_tree(text@, pos as int)),
    decreases text.len() - pos, 1int,
{
    if pos >= text.len() {
        return Err(SyntaxError { position: pos, rule: Rule::Value });
    }
    let c = text[pos];
    let kind = if c == '{' {
        match_object(text, pos)
    } else if c == '[' {
        match_array(text, pos)
    } else if c == '"' {
        match_string(text, pos)
    } else if c == '-' || ('0' <= c && c <= '9') {
        match_number(text, pos)
    } else if c == 't' || c == 'f' {
        match_boolean(text, pos)
    } else if c == 'n' {
        match_null(text, pos)
    } else {
        Err(SyntaxError { position: pos, rule: Rule::Value })
    };
    match kind {
        Ok(pair) => {
            let start = pair.start;
            let end = pair.end;
            let ghost tree = pair@;
            let mut inner: Vec<Pair> = Vec::new();
            inner.push(pair);
            proof {
                assert(trees_of(inner@) =~= seq![tree]);
            }
            Ok(Pair { rule: Rule::Value, start, end, inner })
        },
        Err(e) => Err(e),
    }
}

/// Matches an array at `pos`.
pub fn match_array(text: &[char], pos: usize) -> (result: Result<Pair, SyntaxError>)
    ensures
        matched(result, array_tree(text@, pos as int)),
    decreases text.len() - pos, 0int,
{
    if !has_char(text, pos, '[') {
        return Err(SyntaxError { position: pos, rule: Rule::Array });
    }
    let mut at: usize = skip_whitespace(text, pos + 1);
    let mut inner: Vec<Pair> = Vec::new();
    proof {
        assert(trees_of(inner@) =~= Seq::<Tree>::empty());
    }
    if has_char(text, at, ']') {
        return Ok(Pair { rule: Rule::Array, start: pos, end: at + 1, inner });
    }
    loop
        invariant
            pos < at <= text.len(),
            array_tree(text@, pos as int) == elements_tree(
                text@,
                pos as int,
                at as int,
                trees_of(inner@),
            ),
        decreases text.len() - at,
    {
        let pair = match match_value(text, at) {
            Ok(pair) => pair,
            Err(e) => {
                return Err(e);
            },
        };
        proof {
            lemma_value_tree(text@, at as int);
        }
        let after = skip_whitespace(text, pair.end);
        let ghost found = trees_of(inner@);
        let ghost tree = pair@;
        inner.push(pair);
        proof {
            assert(trees_of(inner@) =~= found.push(tree));
        }
        if has_char(text, after, ']') {
            return Ok(Pair { rule: Rule::Array, start: pos, end: after + 1, inner });
        } else if has_char(text, after, ',') {
            at = skip_whitespace(text, after + 1);
        } else {
            return Err(SyntaxError { position: after, rule: Rule::Array });
        }
    }
}

/// Matches an object at `pos`.
pub fn match_object(text: &[char], pos: usize) -> (result: Result<Pair, SyntaxError>)
    ensures
        matched(result, object_tree(text@, pos as int)),
    decreases text.len() - pos, 0int,
{
    if !has_char(text, pos, '{') {
        return Err(SyntaxError { position: pos, rule: Rule::Object });
    }
    let mut at: usize = skip_whitespace(text, pos + 1);
    let mut inner: Vec<Pair> = Vec::new();
    proof {
        assert(trees_of(inner@) =~= Seq::<Tree>::empty());
    }
    if has_char(text, at, '}') {
        return Ok(Pair { rule: Rule::Object, start: pos, end: at + 1, inner });
    }
    loop
        invariant
            pos < at <= text.len(),
            object_tree(text@, pos as int) == members_tree(
                text@,
                pos as int,
                at as int,
                trees_of(inner@),
            ),
        decreases text.len() - at,
    {
        let pair = match match_key_value(text, at) {
            Ok(pair) => pair,
            Err(e) => {
                return Err(e);
            },
        };
        proof {
            lemma_key_value_tree(text@, at as int);
        }
        let after = skip_whitespace(text, pair.end);
        let ghost found = trees_of(inner@);
        let ghost tree = pair@;
        inner.push(pair);
        proof {
            assert(trees_of(inner@) =~= found.push(tree));
        }
        if has_char(text, after, '}') {
            return Ok(Pair { rule: Rule::Object, start: pos, end: after + 1, inner });
        } else if has_char(text, after, ',') {
            at = skip_whitespace(text, after + 1);
        } else {
            return Err(SyntaxError { position: after, rule: Rule::Object });
        }
    }
}

/// Matches a member of an object at `pos`.
pub fn match_key_value(text: &[char], pos: usize) -> (result: Result<Pair, SyntaxError>)
    ensures
        matched(result, key_value_tree(text@, pos as int)),
    decreases text.len() - pos, 2int,
{
    let key = match match_string(text, pos) {
        Ok(key) => key,
        Err(e) => {
            return Err(e);
        },
    };
    proof {
        lemma_string_tree(text@, pos as int);
    }
    let colon = skip_whitespace(text, key.end);
    if !has_char(text, colon, ':') {
        return Err(SyntaxError { position: colon, rule: Rule::KeyValue });
    }
    let at = skip_whitespace(text, colon + 1);
    let value = match match_value(text, at) {
        Ok(value) => value,
        Err(e) => {
            return Err(e);
        },
    };
    let end = value.end;
    let ghost trees = seq![key@, value@];
    let mut inner: Vec<Pair> = Vec::new();
    inner.push(key);
    inner.push(value);
    proof {
        assert(trees_of(inner@) =~= trees);
    }
    Ok(Pair { rule: Rule::KeyValue, start: pos, end, inner })
}

/// Matches a document: the whole of `text`.
pub fn match_json(text: &[char]) -> (result: Result<Pair, SyntaxError>)
    ensures
        matched(result, json_tree(text@)),
{
    let at = skip_whitespace(text, 0);
    let value = match match_value(text, at) {
        Ok(value) => value,
        Err(e) => {
            return Err(e);
        },
    };
    proof {
        lemma_value_tree(text@, at as int);
    }
    let after = skip_whitespace(text, value.end);
    if after == text.len() {
        let ghost tree = value@;
        let mut inner: Vec<Pair> = Vec::new();
        inner.push(value);
        proof {
            assert(trees_of(inner@) =~= seq![tree]);
        }
        Ok(Pair { rule: Rule::Json, start: 0, end: after, inner })
    } else {
        Err(SyntaxError { position: after, rule: Rule::Json })
    }
}

/// Matches `rule` on `text`, from its first character on.
pub fn match_rule(rule: Rule, text: &[char]) -> (result: Result<Pair, SyntaxError>)
    ensures
        matched(result, rule_tree(rule, text@)),
        result is Ok ==> well_formed(result->Ok_0@, text.len() as int) && in_order(
            result->Ok_0@,
        ),
{
    proof {
        lemma_rule_tree(rule, text@);
        lemma_rule_tree_in_order(rule, text@);
    }
    match rule {
        Rule::Json => match_json(text),
        Rule::Value => match_value(text, 0),
        Rule::Object => match_object(text, 0),
        Rule::KeyValue => match_key_value(text, 0),
        Rule::Array => match_array(text, 0),
        Rule::String => match_string(text, 0),
        Rule::Number => match_number(text, 0),
        Rule::Boolean => match_boolean(text, 0),
        Rule::Null => match_null(text, 0),
    }
}

} // verus!
