//! JSON documents of `serde_json`, read through a mathematical model.

use vstd::prelude::*;

verus! {

/// `serde_json::Value`, a JSON document. What it holds is `json_model`.
#[verifier::external_type_specification]
#[verifier::external_body]
pub struct ExValue(serde_json::Value);

/// `serde_json::Error`, of which nothing is read.
#[verifier::external_type_specification]
#[verifier::external_body]
pub struct ExJsonError(serde_json::Error);

/// A JSON document as a contract sees it. A number is known to be one, and
/// nothing more.
pub ghost enum Json {
    Null,
    Bool(bool),
    Number,
    Text(Seq<char>),
    Array(Seq<Json>),
    Object(Map<Seq<char>, Json>),
}

/// The document that a `serde_json::Value` holds.
pub uninterp spec fn json_model(v: serde_json::Value) -> Json;

/// The document that a text parses to, `None` where it is no JSON.
pub uninterp spec fn json_parsed(bytes: Seq<u8>) -> Option<Json>;

/// The documents that a slice of values holds, in order.
pub open spec fn json_models(items: Seq<serde_json::Value>) -> Seq<Json> {
    items.map_values(|v: serde_json::Value| json_model(v))
}

/// The member `key` of an object; `Null` where the document is no object or
/// has no such member.
pub open spec fn member_of(j: Json, key: Seq<char>) -> Json {
    match j {
        Json::Object(members) => if members.contains_key(key) {
            members[key]
        } else {
            Json::Null
        },
        _ => Json::Null,
    }
}

/// The element at `index` of an array; `Null` where the document is no array
/// or is shorter.
pub open spec fn element_of(j: Json, index: int) -> Json {
    match j {
        Json::Array(items) => if 0 <= index < items.len() {
            items[index]
        } else {
            Json::Null
        },
        _ => Json::Null,
    }
}

/// `serde_json::from_slice` to a `Value`: the document that the bytes spell,
/// or an error where they spell none.
#[verifier::external_body]
pub(crate) fn parse(bytes: &[u8]) -> (r: Result<serde_json::Value, serde_json::Error>)
    ensures
        match r {
            Ok(v) => json_parsed(bytes@) == Some(json_model(v)),
            Err(_) => json_parsed(bytes@) is None,
        },
{
    serde_json::from_slice(bytes)
}

/// Indexing a `Value` by a key: the member of that name, or a null value
/// where the value is no object or has no such member.
#[verifier::external_body]
pub(crate) fn member<'a>(v: &'a serde_json::Value, key: &str) -> (r: &'a serde_json::Value)
    ensures
        json_model(*r) == member_of(json_model(*v), key@),
{
    &v[key]
}

/// Indexing a `Value` by a position: the element there, or a null value
/// where the value is no array or is shorter.
#[verifier::external_body]
pub(crate) fn element<'a>(v: &'a serde_json::Value, index: usize) -> (r: &'a serde_json::Value)
    ensures
        json_model(*r) == element_of(json_model(*v), index as int),
{
    &v[index]
}

/// `Value::as_array`: the elements of an array, `None` for anything else.
#[verifier::external_body]
pub(crate) fn as_array<'a>(v: &'a serde_json::Value) -> (r: Option<&'a Vec<serde_json::Value>>)
    ensures
        match r {
            Some(items) => json_model(*v) == Json::Array(json_models(items@)),
            None => !(json_model(*v) is Array),
        },
{
    v.as_array()
}

/// `Value::as_str`: the text of a string, `None` for anything else.
#[verifier::external_body]
pub(crate) fn as_text<'a>(v: &'a serde_json::Value) -> (r: Option<&'a str>)
    ensures
        match r {
            Some(text) => json_model(*v) == Json::Text(text@),
            None => !(json_model(*v) is Text),
        },
{
    v.as_str()
}

} // verus!
