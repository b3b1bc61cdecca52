//! JSON documents, as `serde_json` builds and writes them.
//!
//! The library decides what a document holds; `serde_json` holds it and writes it out. Each item
//! here stands for one call into that crate.

use vstd::prelude::*;

verus! {

/// What a document holds, as far as this library builds documents.
pub enum Json {
    Number(nat),
    /// An array of non-negative integers.
    Numbers(Seq<usize>),
    Object(Map<Seq<char>, Json>),
}

/// The entries of an empty object.
pub open spec fn no_entries() -> Map<Seq<char>, Json> {
    Map::empty()
}

/// A JSON value of `serde_json`.
#[verifier::external_type_specification]
#[verifier::external_body]
pub struct ExValue(serde_json::Value);

/// A JSON object of `serde_json`.
#[verifier::external_type_specification]
#[verifier::external_body]
#[verifier::reject_recursive_types(K)]
#[verifier::reject_recursive_types(V)]
pub struct ExMap<K, V>(serde_json::Map<K, V>);

/// What a value holds.
pub uninterp spec fn document(value: serde_json::Value) -> Json;

/// What an object holds.
pub uninterp spec fn entries(object: serde_json::Map<String, serde_json::Value>) -> Map<
    Seq<char>,
    Json,
>;

/// The text of a document on one line, keys in their order.
pub uninterp spec fn document_text(doc: Json) -> Seq<char>;

/// `Value::from(usize)`: the number itself.
#[verifier::external_body]
pub(crate) fn number(n: usize) -> (v: serde_json::Value)
    ensures
        document(v) == Json::Number(n as nat),
{
    serde_json::Value::from(n)
}

/// `Value::from(&[usize])`: an array of the numbers, in their order.
#[verifier::external_body]
pub(crate) fn numbers(list: &Vec<usize>) -> (v: serde_json::Value)
    ensures
        document(v) == Json::Numbers(list@),
{
    serde_json::Value::from(list.as_slice())
}

/// `Map::new`: an object without entries.
#[verifier::external_body]
pub(crate) fn new_object() -> (m: serde_json::Map<String, serde_json::Value>)
    ensures
        entries(m) == no_entries(),
{
    serde_json::Map::new()
}

/// `Map::insert`: the entry is there afterwards, in place of an earlier one under the same key; the
/// other entries stay.
#[verifier::external_body]
pub(crate) fn put(
    object: &mut serde_json::Map<String, serde_json::Value>,
    key: String,
    value: serde_json::Value,
)
    ensures
        entries(*final(object)) == entries(*old(object)).insert(key@, document(value)),
{
    object.insert(key, value);
}

/// `Value::Object`: the object as a value.
#[verifier::external_body]
pub(crate) fn object(m: serde_json::Map<String, serde_json::Value>) -> (v: serde_json::Value)
    ensures
        document(v) == Json::Object(entries(m)),
{
    serde_json::Value::Object(m)
}

/// `serde_json::to_string`: the document's text, a function of what the document holds. An object
/// keeps its keys sorted, so the order in which they were put in is not seen. A value always has a
/// text, since its keys are strings.
#[verifier::external_body]
pub(crate) fn text(value: &serde_json::Value) -> (s: Option<String>)
    ensures
        s is Some,
        s->0@ == document_text(document(*value)),
{
    serde_json::to_string(value).ok()
}

} // verus!
