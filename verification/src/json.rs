//! The JSON documents of a game feed, read through `serde_json`.
//!
//! A `serde_json::Value` is opaque to the verifier. Its content is modelled by
//! the mathematical tree [`Json`]; the four accessors below are the only
//! trusted link between a value and its model.

use serde_json::Value;
use vstd::prelude::*;

verus! {

/// Makes `serde_json::Value` known to the verifier, as a type whose inside
/// it cannot see.
#[verifier::external_type_specification]
#[verifier::external_body]
pub struct ExValue(serde_json::Value);

/// A JSON document as a mathematical tree. Numbers carry no payload: nothing
/// here reads them.
pub enum Json {
    Null,
    Bool(bool),
    Number,
    Text(Seq<char>),
    Array(Seq<Json>),
    Object(Map<Seq<char>, Json>),
}

/// The document that a `serde_json::Value` holds.
pub uninterp spec fn json_of(v: Value) -> Json;

/// The member `key` of an object; `None` for a missing key and for anything
/// that is not an object.
pub open spec fn member(j: Json, key: Seq<char>) -> Option<Json> {
    match j {
        Json::Object(fields) => if fields.contains_key(key) {
            Some(fields[key])
        } else {
            None
        },
        _ => None,
    }
}

/// The text of a JSON string; `None` for anything else.
pub open spec fn text_of(j: Json) -> Option<Seq<char>> {
    match j {
        Json::Text(s) => Some(s),
        _ => None,
    }
}

/// The value of a JSON boolean; `None` for anything else.
pub open spec fn flag_of(j: Json) -> Option<bool> {
    match j {
        Json::Bool(b) => Some(b),
        _ => None,
    }
}

/// The items of a JSON array; `None` for anything else.
pub open spec fn items_of(j: Json) -> Option<Seq<Json>> {
    match j {
        Json::Array(items) => Some(items),
        _ => None,
    }
}

/// The documents held by a sequence of values.
pub open spec fn json_seq(values: Seq<Value>) -> Seq<Json> {
    values.map_values(|v: Value| json_of(v))
}

/// Calls `Value::get` with a string index. Trusted: on an object that has the
/// key, the result is the member stored under it; otherwise `None`.
#[verifier::external_body]
pub(crate) fn get_member<'a>(v: &'a Value, key: &str) -> (r: Option<&'a Value>)
    ensures
        match r {
            Some(found) => member(json_of(*v), key@) == Some(json_of(*found)),
            None => member(json_of(*v), key@) is None,
        },
{
    v.get(key)
}

/// Calls `Value::as_str`. Trusted: the text of a JSON string, `None` for any
/// other value.
#[verifier::external_body]
pub(crate) fn get_text<'a>(v: &'a Value) -> (r: Option<&'a str>)
    ensures
        match r {
            Some(s) => text_of(json_of(*v)) == Some(s@),
            None => text_of(json_of(*v)) is None,
        },
{
    v.as_str()
}

/// Calls `Value::as_bool`. Trusted: the value of a JSON boolean, `None` for
/// any other value.
#[verifier::external_body]
pub(crate) fn get_flag(v: &Value) -> (r: Option<bool>)
    ensures
        r == flag_of(json_of(*v)),
{
    v.as_bool()
}

/// Calls `Value::as_array`. Trusted: the items of a JSON array, in order,
/// `None` for any other value.
#[verifier::external_body]
pub(crate) fn get_items<'a>(v: &'a Value) -> (r: Option<&'a Vec<Value>>)
    ensures
        match r {
            Some(items) => items_of(json_of(*v)) == Some(json_seq(items@)),
            None => items_of(json_of(*v)) is None,
        },
{
    v.as_array()
}

} // verus!
