//! JSON values: the structured fields behind an event.

use vstd::prelude::*;

verus! {

/// The `serde_json::Value` type.
#[verifier::external_type_specification]
#[verifier::external_body]
pub struct ExValue(serde_json::Value);

/// The `serde_json::Map` type.
#[verifier::external_type_specification]
#[verifier::external_body]
#[verifier::reject_recursive_types(K)]
#[verifier::reject_recursive_types(V)]
pub struct ExMap<K, V>(serde_json::Map<K, V>);

/// What a JSON value is, as far as events hold them.
pub enum Json {
    Number(int),
    Flag(bool),
    Text(Seq<char>),
    Object(Map<Seq<char>, Json>),
}

/// What a `serde_json::Value` holds.
pub uninterp spec fn json_view(value: serde_json::Value) -> Json;

/// The entries of a `serde_json::Map`.
pub uninterp spec fn entries(map: serde_json::Map<String, serde_json::Value>) -> Map<
    Seq<char>,
    Json,
>;

/// The object without entries.
pub open spec fn no_entries() -> Map<Seq<char>, Json> {
    Map::empty()
}

/// `serde_json::Map::new`: a map without entries.
#[verifier::external_body]
pub(crate) fn new_map() -> (r: serde_json::Map<String, serde_json::Value>)
    ensures
        entries(r) == no_entries(),
{
    serde_json::Map::new()
}

/// `serde_json::Map::clone`: a map with the same entries.
#[verifier::external_body]
pub(crate) fn map_clone(
    map: &serde_json::Map<String, serde_json::Value>,
) -> (r: serde_json::Map<String, serde_json::Value>)
    ensures
        entries(r) == entries(*map),
{
    map.clone()
}

/// `serde_json::Map::insert`: the key holds the value afterwards, whatever it
/// held before, and every other entry stays.
#[verifier::external_body]
pub(crate) fn map_insert(
    map: &mut serde_json::Map<String, serde_json::Value>,
    key: String,
    value: serde_json::Value,
)
    ensures
        entries(*final(map)) == entries(*old(map)).insert(key@, json_view(value)),
{
    map.insert(key, value);
}

/// `serde_json::Value::from` for a `u64`: that number.
#[verifier::external_body]
pub(crate) fn number(n: u64) -> (r: serde_json::Value)
    ensures
        json_view(r) == Json::Number(n as int),
{
    serde_json::Value::from(n)
}

/// `serde_json::Value::from` for a `bool`: that flag.
#[verifier::external_body]
pub(crate) fn flag(b: bool) -> (r: serde_json::Value)
    ensures
        json_view(r) == Json::Flag(b),
{
    serde_json::Value::from(b)
}

/// `serde_json::Value::from` for a `String`: that text.
#[verifier::external_body]
pub(crate) fn text(s: String) -> (r: serde_json::Value)
    ensures
        json_view(r) == Json::Text(s@),
{
    serde_json::Value::from(s)
}

/// `serde_json::Value::Object`: the object with the entries of a map.
#[verifier::external_body]
pub(crate) fn object(map: serde_json::Map<String, serde_json::Value>) -> (r: serde_json::Value)
    ensures
        json_view(r) == Json::Object(entries(map)),
{
    serde_json::Value::Object(map)
}

} // verus!
