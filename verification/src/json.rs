//! Structured JSON data carried by nodes, edges and property definitions.
//!
//! The library never looks inside a JSON value: it stores it, hands it back
//! and copies it. `serde_json::Value` is therefore an opaque type here.

use vstd::prelude::*;

verus! {

/// `serde_json::Value`, known to Verus only as an opaque type.
#[verifier::external_type_specification]
#[verifier::external_body]
pub struct ExJsonValue(serde_json::Value);

/// `serde_json::Value::clone` is the `Clone` that `Value` derives: it
/// copies the value exactly, so the copy equals the value copied.
pub assume_specification[ <serde_json::Value as Clone>::clone ](v: &serde_json::Value) -> (r: serde_json::Value)
    ensures
        r == *v,
;

/// `serde_json::Value::eq` is the `PartialEq` that `Value` derives. It is
/// an equivalence, since a JSON number is never NaN, and equal values are
/// taken as the same value here: the opaque `Value` stands for a JSON value
/// up to that equality.
pub assume_specification[ <serde_json::Value as PartialEq>::eq ](a: &serde_json::Value, b: &serde_json::Value) -> (r: bool)
    ensures
        r == (*a == *b),
;

/// Calls `serde_json::Value::default`, which `serde_json` defines as
/// `Value::Null`. The value is opaque here, so nothing is stated of it.
#[verifier::external_body]
pub(crate) fn null_json() -> serde_json::Value {
    serde_json::Value::default()
}

} // verus!
