//! A parser for JSON texts.
//!
//! `validate_json` says whether a text is a JSON document, `parse_json` gives
//! the value that a document stands for, and `get_field` looks a key up in an
//! object.
//!
//! The grammar is stated twice. In `grammar` it is a set of functions that
//! read a text from left to right and say where each rule ends or fails; the
//! matcher in `matcher` follows them and builds a match tree, from which the
//! builder in `builder` makes the value. In `derivation` it is a description
//! of the match trees themselves, and the two are shown to agree. What else
//! holds of every document stands in `laws`, `lexical`, `locality` and
//! `shape`.

pub mod builder;
pub mod derivation;
pub mod document;
pub mod equality;
pub mod error;
pub mod grammar;
pub mod laws;
pub mod lexical;
pub mod locality;
pub mod matcher;
pub mod shape;
pub mod text;
pub mod value;

pub use builder::{parse_array, parse_bool, parse_number, parse_object, parse_string, parse_value};
pub use document::{parse_json, validate_json, JsonGrammar};
pub use error::ParseError;
pub use grammar::Rule;
pub use matcher::{Pair, SyntaxError};
pub use value::{get_field, JsonObject, JsonValue};
