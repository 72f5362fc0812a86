//! Settings in TOML, read with the `toml` crate.
//!
//! A value of `toml::Value` is opaque here. What it holds is named by the
//! spec functions of this module, and the functions of `toml` that look into
//! a value are given contracts over those names.

use vstd::prelude::*;

verus! {

/// A TOML value.
#[verifier::external_type_specification]
#[verifier::external_body]
pub struct ExTomlValue(toml::Value);

/// The error of the TOML parser.
#[verifier::external_type_specification]
#[verifier::external_body]
pub struct ExTomlError(toml::de::Error);

/// The document that a TOML text is, as its top-level table; `None` where
/// the text is not TOML.
pub uninterp spec fn toml_document(text: Seq<char>) -> Option<toml::Value>;

/// The value that a table holds under a key; `None` where the value is no
/// table or has no such key.
pub uninterp spec fn entry_of(table: toml::Value, key: Seq<char>) -> Option<toml::Value>;

/// The text of a value that is a string.
pub uninterp spec fn text_of(value: toml::Value) -> Option<Seq<char>>;

/// The number of a value that is an integer.
pub uninterp spec fn integer_of(value: toml::Value) -> Option<i64>;

/// The truth value of a value that is a boolean.
pub uninterp spec fn flag_of(value: toml::Value) -> Option<bool>;

/// The text under a key of a table.
pub open spec fn text_at(table: toml::Value, key: Seq<char>) -> Option<Seq<char>> {
    match entry_of(table, key) {
        Some(value) => text_of(value),
        None => None,
    }
}

/// The integer under a key of a table.
pub open spec fn integer_at(table: toml::Value, key: Seq<char>) -> Option<i64> {
    match entry_of(table, key) {
        Some(value) => integer_of(value),
        None => None,
    }
}

/// The boolean under a key of a table.
pub open spec fn flag_at(table: toml::Value, key: Seq<char>) -> Option<bool> {
    match entry_of(table, key) {
        Some(value) => flag_of(value),
        None => None,
    }
}

/// Parses a TOML text with `toml`'s `FromStr` for `Value`. The result is
/// named: the document of the text, or an error where the text has none.
#[verifier::external_body]
pub(crate) fn parse_toml(text: &str) -> (result: Result<toml::Value, toml::de::Error>)
    ensures
        match result {
            Ok(document) => toml_document(text@) == Some(document),
            Err(_) => toml_document(text@) is None,
        },
{
    text.parse::<toml::Value>()
}

/// Looks up a key with `toml::Value::get`, which gives the value under the
/// key where `table` is a table that has the key, and `None` otherwise. The
/// result is named.
#[verifier::external_body]
pub(crate) fn entry<'a>(table: &'a toml::Value, key: &str) -> (found: Option<&'a toml::Value>)
    ensures
        match found {
            Some(value) => entry_of(*table, key@) == Some(*value),
            None => entry_of(*table, key@) is None,
        },
{
    table.get(key)
}

/// `toml::Value::as_str` gives the text of a string and `None` for a value of
/// another kind. The result is named.
pub assume_specification[ toml::Value::as_str ](value: &toml::Value) -> (text: Option<&str>)
    ensures
        match text {
            Some(held) => text_of(*value) == Some(held@),
            None => text_of(*value) is None,
        },
;

/// `toml::Value::as_integer` gives the number of an integer and `None` for a
/// value of another kind. The result is named.
pub assume_specification[ toml::Value::as_integer ](value: &toml::Value) -> (number: Option<i64>)
    ensures
        number == integer_of(*value),
;

/// `toml::Value::as_bool` gives the truth value of a boolean and `None` for a
/// value of another kind. The result is named.
pub assume_specification[ toml::Value::as_bool ](value: &toml::Value) -> (flag: Option<bool>)
    ensures
        flag == flag_of(*value),
;

/// The text under a key of a table, if there is one.
pub fn text_under(table: &toml::Value, key: &str) -> (text: Option<String>)
    ensures
        match text {
            Some(held) => text_at(*table, key@) == Some(held@),
            None => text_at(*table, key@) is None,
        },
{
    match entry(table, key) {
        Some(value) => match value.as_str() {
            Some(held) => Some(held.to_owned()),
            None => None,
        },
        None => None,
    }
}

/// The integer under a key of a table, if there is one.
pub fn integer_under(table: &toml::Value, key: &str) -> (number: Option<i64>)
    ensures
        number == integer_at(*table, key@),
{
    match entry(table, key) {
        Some(value) => value.as_integer(),
        None => None,
    }
}

/// The boolean under a key of a table, if there is one.
pub fn flag_under(table: &toml::Value, key: &str) -> (flag: Option<bool>)
    ensures
        flag == flag_at(*table, key@),
{
    match entry(table, key) {
        Some(value) => value.as_bool(),
        None => None,
    }
}

} // verus!
