//! JSON values and the handful of `serde_json` operations the node logic uses.
//!
//! A [`Value`] is opaque to the verifier: it is carried through the graph,
//! copied and stored, and inspected only through the functions below. Each of
//! them is a direct call into `serde_json`; its contract is believed, not
//! proved, and is stated over the spec functions declared at the top of the
//! file, which give a name to what the corresponding `serde_json` function
//! returns.

use serde_json::Value;
use vstd::prelude::*;

verus! {

#[verifier::external_type_specification]
#[verifier::external_body]
pub struct ExValue(serde_json::Value);

/// What `Value::is_null` returns for `v`.
pub uninterp spec fn value_is_null(v: Value) -> bool;

/// What `Value::as_bool` returns for `v`: the boolean, if `v` is one.
pub uninterp spec fn value_as_bool(v: Value) -> Option<bool>;

/// What `Value::as_str` returns for `v`: the text, if `v` is a string.
pub uninterp spec fn value_as_str(v: Value) -> Option<Seq<char>>;

/// What `Value::to_string` returns for `v`: its compact JSON text.
pub uninterp spec fn value_json_text(v: Value) -> Seq<char>;

/// What `==` on two values returns.
pub uninterp spec fn value_equal(a: Value, b: Value) -> bool;

/// The value that `Value::from` makes of a boolean.
pub uninterp spec fn value_of_bool(b: bool) -> Value;

/// The value that `Value::from` makes of a signed integer.
pub uninterp spec fn value_of_int(n: i64) -> Value;

/// The value that `Value::from` makes of a string slice.
pub uninterp spec fn value_of_str(s: Seq<char>) -> Value;

/// `Value::clone`: the copy is the very value that was copied.
pub assume_specification[ <serde_json::Value as Clone>::clone ](v: &serde_json::Value) -> (r:
    serde_json::Value)
    ensures
        r == *v,
;

/// `Value::Null`: the result is a value for which `is_null` holds; it is
/// neither a boolean nor a string.
#[verifier::external_body]
pub(crate) fn null_value() -> (r: Value)
    ensures
        value_is_null(r),
        value_as_bool(r) is None,
        value_as_str(r) is None,
{
    Value::Null
}

/// `Value::as_bool`, named by [`value_as_bool`].
#[verifier::external_body]
pub(crate) fn as_bool(v: &Value) -> (r: Option<bool>)
    ensures
        r == value_as_bool(*v),
{
    v.as_bool()
}

/// `Value::as_str`, named by [`value_as_str`]; the slice borrowed from `v`
/// holds the named text.
#[verifier::external_body]
pub(crate) fn as_str(v: &Value) -> (r: Option<&str>)
    ensures
        match r {
            Some(s) => value_as_str(*v) == Some(s@),
            None => value_as_str(*v) is None,
        },
{
    v.as_str()
}

/// `Value::to_string`, the compact JSON text of `v`, named by
/// [`value_json_text`].
#[verifier::external_body]
pub(crate) fn json_text(v: &Value) -> (r: String)
    ensures
        r@ == value_json_text(*v),
{
    v.to_string()
}

/// `Value::eq`, named by [`value_equal`].
#[verifier::external_body]
pub(crate) fn values_equal(a: &Value, b: &Value) -> (r: bool)
    ensures
        r == value_equal(*a, *b),
{
    a == b
}

/// `Value::from(bool)`, named by [`value_of_bool`]: the boolean `b`, no
/// string.
#[verifier::external_body]
pub(crate) fn bool_value(b: bool) -> (r: Value)
    ensures
        r == value_of_bool(b),
        value_as_bool(r) == Some(b),
        value_as_str(r) is None,
{
    Value::from(b)
}

/// `Value::from(i64)`, named by [`value_of_int`]: a number, neither a
/// boolean nor a string.
#[verifier::external_body]
pub(crate) fn int_value(n: i64) -> (r: Value)
    ensures
        r == value_of_int(n),
        value_as_bool(r) is None,
        value_as_str(r) is None,
{
    Value::from(n)
}

/// `Value::from(&str)`, named by [`value_of_str`]: the string `s`, no
/// boolean.
#[verifier::external_body]
pub(crate) fn str_value(s: &str) -> (r: Value)
    ensures
        r == value_of_str(s@),
        value_as_str(r) == Some(s@),
        value_as_bool(r) is None,
{
    Value::from(s)
}

} // verus!
