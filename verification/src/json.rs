//! Fields of JSON texts.
//!
//! JSON is parsed by `serde_json`. What a parse gives is named here by the
//! text and the field that is asked for; nothing else is said of it.

use vstd::prelude::*;

verus! {

/// The complaint of the parser about a text that is not JSON.
pub uninterp spec fn complaint(json: Seq<char>) -> Option<Seq<char>>;

/// Is the text a JSON object?
pub uninterp spec fn object(json: Seq<char>) -> bool;

/// The elements of a JSON array, each as compact JSON.
pub uninterp spec fn elements(json: Seq<char>) -> Option<Seq<Seq<char>>>;

/// The field `key` of a JSON object, as compact JSON.
pub uninterp spec fn field(json: Seq<char>, key: Seq<char>) -> Option<Seq<char>>;

/// The field `key` of a JSON object, if it is a string.
pub uninterp spec fn text_field(json: Seq<char>, key: Seq<char>) -> Option<Seq<char>>;

/// The field `key` of a JSON object, if it is a whole number of 64 bits.
pub uninterp spec fn whole_field(json: Seq<char>, key: Seq<char>) -> Option<u64>;

/// The field `key` of a JSON object, if it is a boolean.
pub uninterp spec fn flag_field(json: Seq<char>, key: Seq<char>) -> Option<bool>;

/// The text of an optional string.
pub open spec fn opt(t: Option<String>) -> Option<Seq<char>> {
    match t {
        Some(s) => Some(s@),
        None => None,
    }
}

/// `serde_json::from_str`, as a `Value`: the message of the error, if there
/// is one.
#[verifier::external_body]
pub(crate) fn parse_error(json: &str) -> (r: Option<String>)
    ensures
        opt(r) == complaint(json@),
{
    let parsed: Result<serde_json::Value, serde_json::Error> = serde_json::from_str(json);
    parsed.err().map(|e| e.to_string())
}

/// `serde_json::Value::is_object` of the parsed text; a text that is not JSON
/// is no object.
#[verifier::external_body]
pub(crate) fn is_object(json: &str) -> (r: bool)
    ensures
        r == object(json@),
{
    let parsed: Result<serde_json::Value, serde_json::Error> = serde_json::from_str(json);
    parsed.is_ok_and(|value| value.is_object())
}

/// The elements of a parsed `serde_json::Value::Array`, each written out with
/// `to_string`. Anything else has none.
#[verifier::external_body]
pub(crate) fn items(json: &str) -> (r: Option<Vec<String>>)
    ensures
        match r {
            Some(v) => elements(json@) == Some(crate::block_max_wand::texts(v@)),
            None => elements(json@) is None,
        },
{
    let value: serde_json::Value = serde_json::from_str(json).ok()?;
    Some(value.as_array()?.iter().map(|item| item.to_string()).collect())
}

/// `serde_json::Value::get` of the parsed text, written out with `to_string`.
#[verifier::external_body]
pub(crate) fn get(json: &str, key: &str) -> (r: Option<String>)
    ensures
        opt(r) == field(json@, key@),
{
    let value: serde_json::Value = serde_json::from_str(json).ok()?;
    Some(value.get(key)?.to_string())
}

/// `serde_json::Value::get` of the parsed text, then `as_str`.
#[verifier::external_body]
pub(crate) fn get_text(json: &str, key: &str) -> (r: Option<String>)
    ensures
        opt(r) == text_field(json@, key@),
{
    let value: serde_json::Value = serde_json::from_str(json).ok()?;
    Some(value.get(key)?.as_str()?.to_owned())
}

/// `serde_json::Value::get` of the parsed text, then `as_u64`.
#[verifier::external_body]
pub(crate) fn get_whole(json: &str, key: &str) -> (r: Option<u64>)
    ensures
        r == whole_field(json@, key@),
{
    let value: serde_json::Value = serde_json::from_str(json).ok()?;
    value.get(key)?.as_u64()
}

/// `serde_json::Value::get` of the parsed text, then `as_bool`.
#[verifier::external_body]
pub(crate) fn get_flag(json: &str, key: &str) -> (r: Option<bool>)
    ensures
        r == flag_field(json@, key@),
{
    let value: serde_json::Value = serde_json::from_str(json).ok()?;
    value.get(key)?.as_bool()
}

/// A field of an object that is to have some type.
pub enum Field<T> {
    Absent,
    /// It is there, with another type.
    Wrong,
    Is(T),
}

/// What a field is, given whether it is there and what it is as wanted.
pub open spec fn field_of<T>(there: bool, value: Option<T>) -> Field<T> {
    match value {
        Some(v) => Field::Is(v),
        None => if there {
            Field::Wrong
        } else {
            Field::Absent
        },
    }
}

/// A string field as its characters.
pub open spec fn text_of(f: Field<String>) -> Field<Seq<char>> {
    match f {
        Field::Absent => Field::Absent,
        Field::Wrong => Field::Wrong,
        Field::Is(s) => Field::Is(s@),
    }
}

/// The string field `key`.
pub fn read_text(json: &str, key: &str) -> (f: Field<String>)
    ensures
        text_of(f) == field_of(field(json@, key@) is Some, text_field(json@, key@)),
{
    match get_text(json, key) {
        Some(s) => Field::Is(s),
        None => {
            if get(json, key).is_some() {
                Field::Wrong
            } else {
                Field::Absent
            }
        },
    }
}

/// The whole-number field `key`.
pub fn read_whole(json: &str, key: &str) -> (f: Field<u64>)
    ensures
        f == field_of(field(json@, key@) is Some, whole_field(json@, key@)),
{
    match get_whole(json, key) {
        Some(n) => Field::Is(n),
        None => {
            if get(json, key).is_some() {
                Field::Wrong
            } else {
                Field::Absent
            }
        },
    }
}

/// The boolean field `key`.
pub fn read_flag(json: &str, key: &str) -> (f: Field<bool>)
    ensures
        f == field_of(field(json@, key@) is Some, flag_field(json@, key@)),
{
    match get_flag(json, key) {
        Some(b) => Field::Is(b),
        None => {
            if get(json, key).is_some() {
                Field::Wrong
            } else {
                Field::Absent
            }
        },
    }
}

} // verus!
