//! JSON values, from the `serde_json` crate: the runtime's diagnostic envelope
//! and the AST generator build `serde_json::Value`s and print them with
//! `serde_json::to_string_pretty`.  A value's contents are stated as a
//! [`JsonV`]; the printed text of such contents is `serde_json`'s affair and
//! only named ([`json_pretty_text`]).

use vstd::prelude::*;

verus! {

#[verifier::external_type_specification]
#[verifier::external_body]
pub struct ExJsonValue(serde_json::Value);

#[verifier::external_type_specification]
#[verifier::external_body]
#[verifier::reject_recursive_types(K)]
#[verifier::reject_recursive_types(V)]
pub struct ExJsonMap<K, V>(serde_json::Map<K, V>);

/// The contents of a JSON value: an object maps each key to one value.
pub enum JsonV {
    Null,
    Bool(bool),
    Int(i128),
    Str(Seq<char>),
    Arr(Seq<JsonV>),
    Obj(Map<Seq<char>, JsonV>),
}

/// What a `serde_json::Value` holds.
pub uninterp spec fn json_contents(v: serde_json::Value) -> JsonV;

/// What a `serde_json::Map` holds: each key and its value's contents.
pub uninterp spec fn json_map_contents(m: serde_json::Map<String, serde_json::Value>) -> Map<Seq<char>, JsonV>;

/// The text `serde_json::to_string_pretty` prints for a value with these contents.
pub uninterp spec fn json_pretty_text(v: JsonV) -> Seq<char>;

/// `serde_json::Value::String`.
#[verifier::external_body]
pub(crate) fn json_string(s: String) -> (r: serde_json::Value)
    ensures
        json_contents(r) == JsonV::Str(s@),
{
    serde_json::Value::String(s)
}

/// `serde_json::Value::from(i64)`: a number.
#[verifier::external_body]
pub(crate) fn json_i64(n: i64) -> (r: serde_json::Value)
    ensures
        json_contents(r) == JsonV::Int(n as i128),
{
    serde_json::Value::from(n)
}

/// `serde_json::Value::from(u64)`: a number.
#[verifier::external_body]
pub(crate) fn json_u64(n: u64) -> (r: serde_json::Value)
    ensures
        json_contents(r) == JsonV::Int(n as i128),
{
    serde_json::Value::from(n)
}

/// `serde_json::Value::Null`.
#[verifier::external_body]
pub(crate) fn json_null() -> (r: serde_json::Value)
    ensures
        json_contents(r) == JsonV::Null,
{
    serde_json::Value::Null
}

/// `serde_json::Value::Bool`.
#[verifier::external_body]
pub(crate) fn json_bool(b: bool) -> (r: serde_json::Value)
    ensures
        json_contents(r) == JsonV::Bool(b),
{
    serde_json::Value::Bool(b)
}

/// `serde_json::Value::Array`: the items, in order.
#[verifier::external_body]
pub(crate) fn json_array(items: Vec<serde_json::Value>) -> (r: serde_json::Value)
    ensures
        json_contents(r) == JsonV::Arr(items@.map_values(|v: serde_json::Value| json_contents(v))),
{
    serde_json::Value::Array(items)
}

/// `serde_json::Map::new`: an empty object map.
#[verifier::external_body]
pub(crate) fn json_map_new() -> (r: serde_json::Map<String, serde_json::Value>)
    ensures
        json_map_contents(r).dom() == Set::<Seq<char>>::empty(),
{
    serde_json::Map::new()
}

/// `serde_json::Map::insert`: sets a key (replacing what it held).
#[verifier::external_body]
pub(crate) fn json_map_insert(m: &mut serde_json::Map<String, serde_json::Value>, k: String, v: serde_json::Value)
    ensures
        json_map_contents(*final(m)) == json_map_contents(*old(m)).insert(k@, json_contents(v)),
{
    m.insert(k, v);
}

/// `serde_json::Value::Object`.
#[verifier::external_body]
pub(crate) fn json_object(m: serde_json::Map<String, serde_json::Value>) -> (r: serde_json::Value)
    ensures
        json_contents(r) == JsonV::Obj(json_map_contents(m)),
{
    serde_json::Value::Object(m)
}

/// `serde_json::to_string_pretty` (which cannot fail on a `Value`: its keys are
/// strings).
#[verifier::external_body]
pub(crate) fn json_pretty(v: &serde_json::Value) -> (r: String)
    ensures
        r@ == json_pretty_text(json_contents(*v)),
{
    serde_json::to_string_pretty(v).unwrap_or_default()
}

} // verus!
