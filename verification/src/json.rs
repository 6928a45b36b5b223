//! JSON values: their mathematical model, and the boundary to `serde_json`,
//! whose value and map types carry them.
//!
//! Nothing about `serde_json` is proved here. The contract of each function
//! that calls it restates what the function called does when `serde_json` is
//! built with its default features, where a map is a `BTreeMap` and hands its
//! properties out in the order of their keys.

use crate::order::{lemma_list_ordered, lists, ordered};
use vstd::prelude::*;

verus! {

/// A JSON value. A number stands as its decimal literal; an object as its
/// properties by key, without an order.
pub enum Json {
    Null,
    Bool(bool),
    Number(Seq<char>),
    String(Seq<char>),
    Array(Seq<Json>),
    Object(Map<Seq<char>, Json>),
}

/// The properties of a JSON object by key.
pub type Properties = Map<Seq<char>, Json>;

/// A key with the value that it holds.
pub type Property = (Seq<char>, Json);

/// Properties in an order.
pub type Entries = Seq<Property>;

/// `serde_json::Value`, carried as it is: what it holds shows through `model`.
#[verifier::external_type_specification]
#[verifier::external_body]
pub struct ExJsonValue(serde_json::Value);

/// `serde_json::Map`, carried as it is: what it holds shows through
/// `properties`.
#[verifier::external_type_specification]
#[verifier::external_body]
#[verifier::reject_recursive_types(K)]
#[verifier::reject_recursive_types(V)]
pub struct ExJsonMap<K, V>(serde_json::Map<K, V>);

/// A JSON value of any kind, as `serde_json` holds it.
pub type JsonValue = serde_json::Value;

/// A JSON object, as `serde_json` holds it.
pub type JsonMap = serde_json::Map<String, serde_json::Value>;

/// The top level of a JSON value, taken apart: its kind, and what a string, an
/// array or an object holds. A boolean keeps its value; a number is not looked
/// into.
pub enum JsonShape {
    Null,
    Bool(bool),
    Number,
    String(String),
    Array(Vec<JsonValue>),
    Object(JsonMap),
}

/// The JSON value that `v` holds.
pub uninterp spec fn model(v: JsonValue) -> Json;

/// The properties that `m` holds.
pub uninterp spec fn properties(m: JsonMap) -> Properties;

/// The JSON value that `text` parses to, or `None` where it is not the text of
/// one.
pub uninterp spec fn parsed(text: Seq<char>) -> Option<Json>;

/// The compact JSON text of `value`.
pub uninterp spec fn json_text(value: Json) -> Seq<char>;

/// The JSON value that `v` holds, where it holds one.
pub open spec fn model_of(v: Option<JsonValue>) -> Option<Json> {
    match v {
        Some(value) => Some(model(value)),
        None => None,
    }
}

/// The JSON values that `items` hold.
pub open spec fn models(items: Seq<JsonValue>) -> Seq<Json> {
    items.map_values(|v: JsonValue| model(v))
}

/// The properties that `m` holds, where there is a map.
pub open spec fn properties_of(m: Option<JsonMap>) -> Option<Properties> {
    match m {
        Some(existing) => Some(properties(existing)),
        None => None,
    }
}

/// Each of `owned` as a property: its key as a character sequence, beside
/// the JSON value that it holds.
pub open spec fn keyed(owned: Seq<(String, JsonValue)>) -> Entries {
    owned.map_values(|e: (String, JsonValue)| (e.0@, model(e.1)))
}

/// `s` is the top level of `value`.
pub open spec fn shaped(s: JsonShape, value: Json) -> bool {
    match s {
        JsonShape::Null => value is Null,
        JsonShape::Bool(b) => value == Json::Bool(b),
        JsonShape::Number => value is Number,
        JsonShape::String(text) => value == Json::String(text@),
        JsonShape::Array(items) => value == Json::Array(models(items@)),
        JsonShape::Object(m) => value == Json::Object(properties(m)),
    }
}

/// Calls `serde_json::from_str` for a `Value`. A text that does not parse gives
/// `None`: the error is dropped.
#[verifier::external_body]
pub(crate) fn parse(text: &str) -> (v: Option<JsonValue>)
    ensures
        model_of(v) == parsed(text@),
{
    serde_json::from_str(text).ok()
}

/// Tells the variants of `serde_json::Value` apart and moves out what a string,
/// an array or an object holds.
#[verifier::external_body]
pub(crate) fn unpack(v: JsonValue) -> (s: JsonShape)
    ensures
        shaped(s, model(v)),
{
    match v {
        serde_json::Value::Null => JsonShape::Null,
        serde_json::Value::Bool(b) => JsonShape::Bool(b),
        serde_json::Value::Number(_) => JsonShape::Number,
        serde_json::Value::String(t) => JsonShape::String(t),
        serde_json::Value::Array(items) => JsonShape::Array(items),
        serde_json::Value::Object(m) => JsonShape::Object(m),
    }
}

/// Builds `serde_json::Value::Object` from a map: the object with the map's
/// properties.
#[verifier::external_body]
pub(crate) fn object_value(m: JsonMap) -> (v: JsonValue)
    ensures
        model(v) == Json::Object(properties(m)),
{
    serde_json::Value::Object(m)
}

/// Calls `Clone::clone` on a `serde_json::Value`: the copy holds the same JSON
/// value.
#[verifier::external_body]
pub(crate) fn clone_value(v: &JsonValue) -> (copy: JsonValue)
    ensures
        model(copy) == model(*v),
{
    v.clone()
}

/// Calls `to_string` on a `serde_json::Value`, which writes it as compact JSON.
#[verifier::external_body]
pub(crate) fn value_to_string(v: &JsonValue) -> (text: String)
    ensures
        text@ == json_text(model(*v)),
{
    v.to_string()
}

/// Calls `serde_json::Map::new`, which makes a map without properties.
#[verifier::external_body]
pub(crate) fn map_new() -> (m: JsonMap)
    ensures
        properties(m) == Properties::empty(),
{
    serde_json::Map::new()
}

/// Calls `serde_json::Map::len`, the number of properties held.
#[verifier::external_body]
pub(crate) fn map_len(m: &JsonMap) -> (n: usize)
    ensures
        n == properties(*m).len(),
{
    m.len()
}

/// Calls `serde_json::Map::remove`: the property under `key` leaves the map and
/// its value is returned, or `None` where there was none.
#[verifier::external_body]
pub(crate) fn map_remove(m: &mut JsonMap, key: &str) -> (removed: Option<JsonValue>)
    ensures
        model_of(removed) == properties(*old(m)).get(key@),
        properties(*final(m)) == properties(*old(m)).remove(key@),
{
    m.remove(key)
}

/// Calls `serde_json::Map::insert`: afterwards `key` holds `value`, whatever it
/// held before, and the other properties are as they were.
#[verifier::external_body]
pub(crate) fn map_insert(m: &mut JsonMap, key: String, value: JsonValue)
    ensures
        properties(*final(m)) == properties(*old(m)).insert(key@, model(value)),
{
    m.insert(key, value);
}

/// Walks a `serde_json::Map` with `into_iter` and collects what it hands out:
/// each property once, in ascending order of the keys, which are compared as
/// `String`s are.
#[verifier::external_body]
fn collect_entries(m: JsonMap) -> (owned: Vec<(String, JsonValue)>)
    ensures
        lists(keyed(owned@), properties(m)),
{
    m.into_iter().collect()
}

/// The properties of `m` in order, each as an owned pair.
pub(crate) fn into_entries(m: JsonMap) -> (owned: Vec<(String, JsonValue)>)
    ensures
        keyed(owned@) == ordered(properties(m)),
        lists(keyed(owned@), properties(m)),
{
    let owned = collect_entries(m);
    proof {
        lemma_list_ordered(keyed(owned@), properties(m));
    }
    owned
}

} // verus!
