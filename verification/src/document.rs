//! Documents: the three operations on a JSON text.

use crate::builder::{built, parse_value, tree_value};
use crate::derivation::{is_document, lemma_is_json_is_document};
use crate::error::{failure_text, ErrorModel, ParseError};
use crate::grammar::{is_json, json_tree, rule_tree, Rule};
use crate::laws::lemma_document_has_value;
use crate::matcher::{match_json, match_rule, matched, Pair, SyntaxError};
use crate::shape::{in_order, lemma_json_tree, well_formed};
use crate::text::chars_of;
use crate::value::{JsonModel, JsonValue};
use vstd::prelude::*;

verus! {

/// The grammar of JSON.
#[derive(Clone, Copy, Debug)]
pub struct JsonGrammar;

impl JsonGrammar {
    /// Matches `rule` on `input`, from its first character on, and gives the
    /// match tree, or the place where `input` departs from the rule. The
    /// spans of the tree count characters.
    pub fn parse(rule: Rule, input: &str) -> (result: Result<Pair, SyntaxError>)
        ensures
            matched(result, rule_tree(rule, input@)),
            result is Ok ==> well_formed(result->Ok_0@, input@.len() as int) && in_order(
                result->Ok_0@,
            ),
    {
        let text = chars_of(input);
        match_rule(rule, text.as_slice())
    }
}

/// What a text stands for: the value of its document, or the description of
/// the place where the text departs from the grammar.
pub open spec fn document_value(s: Seq<char>) -> Result<JsonModel, ErrorModel> {
    match json_tree(s) {
        Err(f) => Err(ErrorModel::Syntax(failure_text(f))),
        Ok(t) => tree_value(t.inner[0], s),
    }
}

/// Whether `input` is a JSON document.
///
/// The matcher calls itself once for each level of nesting, so the depth of
/// the brackets that it can follow is bounded by the stack.
pub fn validate_json(input: &str) -> (valid: bool)
    ensures
        valid == is_json(input@),
        valid == is_document(input@),
{
    let text = chars_of(input);
    proof {
        lemma_is_json_is_document(text@);
    }
    match_json(text.as_slice()).is_ok()
}

/// The value of the JSON document `input`. It fails where `input` is no
/// document, and only there, with a syntax error that says where `input`
/// departs from the grammar.
///
/// Matcher and builder call themselves once for each level of nesting, so
/// the depth of the brackets that they can follow is bounded by the stack.
pub fn parse_json(input: &str) -> (result: Result<JsonValue, ParseError>)
    ensures
        built(result, document_value(input@)),
        result is Ok <==> is_json(input@),
        result is Ok <==> is_document(input@),
        result is Err ==> result->Err_0 is Syntax,
{
    let text = chars_of(input);
    proof {
        lemma_is_json_is_document(text@);
        lemma_json_tree(text@);
        lemma_document_has_value(text@);
    }
    match match_json(text.as_slice()) {
        Err(e) => Err(ParseError::Syntax(e.message())),
        Ok(pair) => {
            parse_value(&pair.inner[0], text.as_slice())
        },
    }
}

} // verus!
