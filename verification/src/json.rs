//! JSON values, which the engine carries as node properties and pin values.

use vstd::prelude::*;

verus! {

/// A `serde_json::Value`: opaque here; the engine stores, copies and compares it.
#[verifier::external_type_specification]
#[verifier::external_body]
pub struct ExJsonValue(serde_json::Value);

/// `serde_json::Value::clone` (derived): the copy equals the value it copies.
pub assume_specification[ <serde_json::Value as Clone>::clone ](v: &serde_json::Value) -> (r:
    serde_json::Value)
    ensures
        r == *v,
;

/// What `==` on `serde_json::Value` (its derived `PartialEq`) answers for two
/// values. It is not the identity of values: the numbers 0.0 and -0.0 are equal
/// under it.
pub uninterp spec fn json_eq(a: serde_json::Value, b: serde_json::Value) -> bool;

/// `==` on `serde_json::Value`: its answer is `json_eq` of the two values, and
/// a value is equal to itself (a `Number` holds no NaN).
#[verifier::external_body]
pub(crate) fn json_equal(a: &serde_json::Value, b: &serde_json::Value) -> (r: bool)
    ensures
        r == json_eq(*a, *b),
        *a == *b ==> r,
{
    a == b
}

/// What `serde_json::Value::is_null` answers for a value: whether it is `Null`.
pub uninterp spec fn json_is_null(v: serde_json::Value) -> bool;

/// `serde_json::Value::Null`: the null value, which is not a number, so `as_u64`
/// and `as_i64` give nothing for it.
#[verifier::external_body]
pub(crate) fn json_null() -> (r: serde_json::Value)
    ensures
        json_is_null(r),
        json_as_u64(r) == None::<u64>,
        json_as_i64(r) == None::<i64>,
{
    serde_json::Value::Null
}

/// What `serde_json::Value::as_u64` returns for a value: the number, if the value
/// is an integer that fits in a `u64`.
pub uninterp spec fn json_as_u64(v: serde_json::Value) -> Option<u64>;

/// `serde_json::Value::as_u64`: its result is `json_as_u64` of the value.
#[verifier::external_body]
pub(crate) fn json_u64(v: &serde_json::Value) -> (r: Option<u64>)
    ensures
        r == json_as_u64(*v),
{
    v.as_u64()
}

/// What `serde_json::Value::as_i64` returns for a value: the number, if the value
/// is an integer that fits in an `i64`.
pub uninterp spec fn json_as_i64(v: serde_json::Value) -> Option<i64>;

/// `serde_json::Value::as_i64`: its result is `json_as_i64` of the value.
#[verifier::external_body]
pub(crate) fn json_i64(v: &serde_json::Value) -> (r: Option<i64>)
    ensures
        r == json_as_i64(*v),
{
    v.as_i64()
}

/// `serde_json::Value::from` a `u64`: the JSON number `n` (not null), which
/// `as_u64` gives back, and `as_i64` too where it fits in an `i64`.
#[verifier::external_body]
pub(crate) fn json_from_u64(n: u64) -> (r: serde_json::Value)
    ensures
        !json_is_null(r),
        json_as_u64(r) == Some(n),
        json_as_i64(r) == (if n <= i64::MAX as u64 { Some(n as i64) } else { None }),
{
    serde_json::Value::from(n)
}

} // verus!
