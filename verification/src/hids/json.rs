//! JSON records, as `serde_json` reads them.

use serde_json::Value;
use vstd::prelude::*;

verus! {

/// What a JSON value holds.
pub enum Json {
    /// A string.
    Text(Seq<char>),
    /// A number, with its value where it is written as an integer from 0 to 2^64 - 1.
    Number(Option<u64>),
    /// An array.
    Items(Seq<Json>),
    /// An object.
    Members(Map<Seq<char>, Json>),
    /// `null`, `true` or `false`.
    Other,
}

/// `serde_json::Value`, a JSON value as it was read.
#[verifier::external_type_specification]
#[verifier::external_body]
pub struct ExValue(serde_json::Value);

/// What a value that was read holds.
pub uninterp spec fn json_held(value: Value) -> Json;

/// What a text holds as JSON; nothing where it is none.
pub uninterp spec fn json_of(text: Seq<char>) -> Option<Json>;

/// `serde_json::from_str`, on a `Value`: gives what the text holds as JSON, and
/// an error where it is none. What the grammar of JSON is, and what becomes of a
/// member that is given twice, is left to the name.
#[verifier::external_body]
pub(crate) fn read_json(text: &str) -> (value: Option<Value>)
    ensures
        match value {
            Some(value) => json_of(text@) == Some(json_held(value)),
            None => json_of(text@) is None,
        },
{
    serde_json::from_str(text).ok()
}

/// `serde_json::Value::get` with a string: the member of that name where the
/// value is an object that has one, else nothing.
#[verifier::external_body]
pub(crate) fn member<'a>(value: &'a Value, name: &str) -> (member: Option<&'a Value>)
    ensures
        match member {
            Some(member) => json_held(*value) is Members && json_held(
                *value,
            )->Members_0.contains_key(name@) && json_held(*value)->Members_0[name@] == json_held(
                *member,
            ),
            None => !(json_held(*value) is Members && json_held(
                *value,
            )->Members_0.contains_key(name@)),
        },
{
    value.get(name)
}

/// `serde_json::Value::as_str` gives the text of a string, and nothing for any
/// other value.
pub assume_specification[ Value::as_str ](value: &Value) -> (text: Option<&str>)
    ensures
        match text {
            Some(text) => json_held(*value) == Json::Text(text@),
            None => !(json_held(*value) is Text),
        },
;

/// `serde_json::Value::as_array` gives the items of an array, and nothing for any
/// other value.
pub assume_specification[ Value::as_array ](value: &Value) -> (items: Option<&Vec<Value>>)
    ensures
        match items {
            Some(items) => json_held(*value) == Json::Items(
                items@.map_values(|item: Value| json_held(item)),
            ),
            None => !(json_held(*value) is Items),
        },
;

/// `serde_json::Value::as_u64` gives a number that is an integer from 0 to
/// 2^64 - 1, and nothing for any other value.
pub assume_specification[ Value::as_u64 ](value: &Value) -> (integer: Option<u64>)
    ensures
        integer == (match json_held(*value) {
            Json::Number(number) => number,
            _ => None,
        }),
;

} // verus!
