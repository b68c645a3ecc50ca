//! JSON values. A value is opaque here: it is parsed, compared, printed and selected from by
//! `serde_json`, and only carried by this library.

use std::collections::BTreeMap;
use std::str::FromStr;

use serde_json::Value;
use vstd::prelude::*;

verus! {

/// `serde_json::Value`, a JSON document.
#[verifier::external_type_specification]
#[verifier::external_body]
pub struct ExValue(serde_json::Value);

/// `serde_json::Error`, what is wrong with a text that is no JSON document.
#[verifier::external_type_specification]
#[verifier::external_body]
pub struct ExJsonError(serde_json::Error);

/// What `serde_json::from_slice` reads from bytes.
pub uninterp spec fn json_from_bytes(bytes: Seq<u8>) -> Result<Value, serde_json::Error>;

/// What `Value::from_str` reads from a text.
pub uninterp spec fn json_from_text(text: Seq<char>) -> Result<Value, serde_json::Error>;

/// The compact JSON text of a value.
pub uninterp spec fn json_text(v: Value) -> Seq<char>;

/// The debug form of a value.
pub uninterp spec fn json_debug(v: Value) -> Seq<char>;

/// The debug form of a parse error.
pub uninterp spec fn json_error_debug(e: serde_json::Error) -> Seq<char>;

/// Whether `==` holds between two values.
pub uninterp spec fn json_equal(a: Value, b: Value) -> bool;

/// The JSON object with the given members.
pub uninterp spec fn json_object(members: Map<Seq<char>, Value>) -> Value;

/// `serde_json::from_slice` into a `Value`. The contract names the outcome.
#[verifier::external_body]
pub(crate) fn parse_bytes(bytes: &Vec<u8>) -> (r: Result<Value, serde_json::Error>)
    ensures
        r == json_from_bytes(bytes@),
{
    serde_json::from_slice(bytes)
}

/// `Value::from_str`. The contract names the outcome.
#[verifier::external_body]
pub(crate) fn parse_text(text: &str) -> (r: Result<Value, serde_json::Error>)
    ensures
        r == json_from_text(text@),
{
    Value::from_str(text)
}

/// The display form of a `Value`, which is its compact JSON text. The contract names it.
#[verifier::external_body]
pub(crate) fn value_text(v: &Value) -> (r: String)
    ensures
        r@ == json_text(*v),
{
    v.to_string()
}

/// The debug form of a `Value`. The contract names it.
#[verifier::external_body]
pub(crate) fn value_debug(v: &Value) -> (r: String)
    ensures
        r@ == json_debug(*v),
{
    format!("{:?}", v)
}

/// The debug form of a `serde_json::Error`. The contract names it.
#[verifier::external_body]
pub(crate) fn parse_error_debug(e: &serde_json::Error) -> (r: String)
    ensures
        r@ == json_error_debug(*e),
{
    format!("{:?}", e)
}

/// `==` of two `Value`s. The contract names the answer, and says that a value equals itself.
#[verifier::external_body]
pub(crate) fn value_eq(a: &Value, b: &Value) -> (r: bool)
    ensures
        r == json_equal(*a, *b),
        *a == *b ==> r,
{
    a == b
}

/// `Value::clone`, which gives the same value again.
pub assume_specification[ <Value as Clone>::clone ](v: &Value) -> (r: Value)
    ensures
        r == *v,
;

/// The members of a list, by key: a later entry takes the place of an earlier one.
pub open spec fn members(entries: Seq<(String, Value)>) -> Map<Seq<char>, Value>
    decreases entries.len(),
{
    if entries.len() == 0 {
        Map::empty()
    } else {
        members(entries.drop_last()).insert(entries.last().0@, entries.last().1)
    }
}

/// No key stands in a list twice.
pub open spec fn keys_distinct(entries: Seq<(String, Value)>) -> bool {
    forall|i: int, j: int|
        0 <= i < j < entries.len() ==> (#[trigger] entries[i]).0@ != (#[trigger] entries[j]).0@
}

/// The JSON object of a map: `Value`'s `FromIterator`, fed with the members as a `BTreeMap`, which
/// hands them out in key order. The contract names the object.
#[verifier::external_body]
pub(crate) fn object_of(entries: &Vec<(String, Value)>) -> (r: Value)
    requires
        keys_distinct(entries@),
    ensures
        r == json_object(members(entries@)),
{
    let members: BTreeMap<String, Value> = entries.iter().cloned().collect();
    members.into_iter().collect()
}

} // verus!
