//! JSON text is read by `serde_json`. This module holds what the library
//! takes on trust about it: a model of what a parsed value holds, and one
//! contract for each function of `serde_json` that the library calls.

use vstd::prelude::*;

verus! {

#[verifier::external_type_specification]
#[verifier::external_body]
pub struct ExValue(serde_json::Value);

#[verifier::external_type_specification]
#[verifier::external_body]
pub struct ExError(serde_json::Error);

/// What a JSON value holds. Numbers are not told apart: nothing here reads
/// one.
pub enum Json {
    Null,
    Bool(bool),
    Number,
    Text(Seq<char>),
    Array(Seq<Json>),
    Object(Map<Seq<char>, Json>),
}

/// What `value` holds.
pub uninterp spec fn json_of(value: serde_json::Value) -> Json;

/// What `text` holds when read as one JSON value, or `None` where
/// `serde_json` refuses it.
pub uninterp spec fn parsed_json(text: Seq<char>) -> Option<Json>;

/// What each of `values` holds, in order.
pub open spec fn json_of_each(values: Seq<serde_json::Value>) -> Seq<Json> {
    values.map_values(|value: serde_json::Value| json_of(value))
}

/// Calls `serde_json::from_str` for a `serde_json::Value`. Trusted: the
/// outcome depends on `text` alone; on success the value holds what
/// `parsed_json` names, and a failure is one where `parsed_json` is `None`.
#[verifier::external_body]
pub(crate) fn parse_value(text: &str) -> (parsed: Result<serde_json::Value, serde_json::Error>)
    ensures
        match parsed {
            Ok(value) => parsed_json(text@) == Some(json_of(value)),
            Err(_) => parsed_json(text@).is_none(),
        },
{
    serde_json::from_str::<serde_json::Value>(text)
}

/// Calls `serde_json::Value::is_object`. Trusted: it tells whether the
/// value is an object.
#[verifier::external_body]
pub(crate) fn value_is_object(value: &serde_json::Value) -> (object: bool)
    ensures
        object == (json_of(*value) is Object),
{
    value.is_object()
}

/// Calls `serde_json::Value::get` with a string key. Trusted: it returns the
/// member stored under `key` where the value is an object that has one, and
/// `None` for an object without it and for every value that is no object.
#[verifier::external_body]
pub(crate) fn value_get<'a>(value: &'a serde_json::Value, key: &str) -> (member: Option<
    &'a serde_json::Value,
>)
    ensures
        match member {
            Some(found) => json_of(*value) is Object && json_of(*value)->Object_0.contains_key(
                key@,
            ) && json_of(*value)->Object_0[key@] == json_of(*found),
            None => !(json_of(*value) is Object && json_of(*value)->Object_0.contains_key(key@)),
        },
{
    value.get(key)
}

/// Calls `serde_json::Value::as_str`. Trusted: it returns the text of a
/// string value, and `None` for every other value.
#[verifier::external_body]
pub(crate) fn value_as_str<'a>(value: &'a serde_json::Value) -> (text: Option<&'a str>)
    ensures
        match text {
            Some(found) => json_of(*value) == Json::Text(found@),
            None => !(json_of(*value) is Text),
        },
{
    value.as_str()
}

/// Calls `serde_json::Value::as_array`. Trusted: it returns the items of an
/// array value in their order, and `None` for every other value.
#[verifier::external_body]
pub(crate) fn value_as_array<'a>(value: &'a serde_json::Value) -> (items: Option<
    &'a Vec<serde_json::Value>,
>)
    ensures
        match items {
            Some(found) => json_of(*value) == Json::Array(json_of_each(found@)),
            None => !(json_of(*value) is Array),
        },
{
    value.as_array()
}

} // verus!
