//! Errors, and the messages that describe them.

use crate::grammar::{rule_name, Failure};
use crate::matcher::SyntaxError;
use crate::text::{decimal_text, push_decimal};
use vstd::prelude::*;

verus! {

/// Why a text could not be turned into a value.
#[derive(Debug)]
pub enum ParseError {
    /// The text departs from the grammar; the message says where.
    Syntax(String),
    /// The text of a number node is no number literal; it holds that text.
    InvalidNumber(String),
    /// A node has a rule that stands for no value; it holds the rule's name.
    UnexpectedRule(String),
}

/// The content of a `ParseError`.
pub ghost enum ErrorModel {
    Syntax(Seq<char>),
    InvalidNumber(Seq<char>),
    UnexpectedRule(Seq<char>),
}

impl View for ParseError {
    type V = ErrorModel;

    open spec fn view(&self) -> ErrorModel {
        match self {
            ParseError::Syntax(text) => ErrorModel::Syntax(text@),
            ParseError::InvalidNumber(text) => ErrorModel::InvalidNumber(text@),
            ParseError::UnexpectedRule(text) => ErrorModel::UnexpectedRule(text@),
        }
    }
}

/// The description of a failure: its offset in decimal, and the rule's name.
pub open spec fn failure_text(f: Failure) -> Seq<char> {
    "at offset "@ + decimal_text(f.position as nat) + ": no match for rule "@ + rule_name(f.rule)
}

/// The message of an error: what kind it is, then what it holds.
pub open spec fn error_text(e: ErrorModel) -> Seq<char> {
    match e {
        ErrorModel::Syntax(text) => "Syntax error: "@ + text,
        ErrorModel::InvalidNumber(text) => "Invalid number: "@ + text,
        ErrorModel::UnexpectedRule(text) => "Unexpected rule encountered: "@ + text,
    }
}

impl SyntaxError {
    /// Describes the failure: where it lies and which rule it broke.
    pub fn message(&self) -> (text: String)
        ensures
            text@ == failure_text(self@),
    {
        let mut text = String::from_str("at offset ");
        push_decimal(&mut text, self.position);
        text.append(": no match for rule ");
        text.append(self.rule.name());
        text
    }
}

impl ParseError {
    /// The error as a message for a reader.
    pub fn message(&self) -> (text: String)
        ensures
            text@ == error_text(self@),
    {
        match self {
            ParseError::Syntax(what) => String::from_str("Syntax error: ").concat(what.as_str()),
            ParseError::InvalidNumber(what) => String::from_str("Invalid number: ").concat(
                what.as_str(),
            ),
            ParseError::UnexpectedRule(what) => String::from_str(
                "Unexpected rule encountered: ",
            ).concat(what.as_str()),
        }
    }
}

} // verus!
