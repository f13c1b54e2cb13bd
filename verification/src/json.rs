//! The JSON values that the scanner walks: what a parsed record holds, as
//! plain values of this library.

use vstd::prelude::*;

verus! {

/// A parsed JSON value. Numbers keep the text that the parser prints for
/// them; objects keep their members in the order the parser yields them.
pub enum JsonValue {
    Null,
    Bool(bool),
    Number(String),
    Text(String),
    Object(Vec<(String, JsonValue)>),
    Array(Vec<JsonValue>),
}

/// Every node of `v`, counted from nesting level `d`, has a level that fits
/// in an `i64`.
pub open spec fn nesting_ok(v: JsonValue, d: int) -> bool
    decreases v, 1nat, 0nat,
{
    &&& d <= i64::MAX
    &&& match v {
        JsonValue::Object(es) => children_ok(v, es@.len(), d),
        JsonValue::Array(xs) => children_ok(v, xs@.len(), d),
        _ => true,
    }
}

/// The first `n` children of `v` nest within `i64` from level `d + 1`.
pub open spec fn children_ok(v: JsonValue, n: nat, d: int) -> bool
    decreases v, 0nat, n,
{
    if n == 0 {
        true
    } else {
        &&& children_ok(v, (n - 1) as nat, d)
        &&& match v {
            JsonValue::Object(es) => n <= es@.len() ==> nesting_ok(es@[n - 1].1, d + 1),
            JsonValue::Array(xs) => n <= xs@.len() ==> nesting_ok(xs@[n - 1], d + 1),
            _ => true,
        }
    }
}

pub proof fn lemma_child_nesting(v: JsonValue, n: nat, d: int, i: int)
    requires
        children_ok(v, n, d),
        0 <= i < n,
    ensures
        v is Object && i < v->Object_0@.len() ==> nesting_ok(v->Object_0@[i].1, d + 1),
        v is Array && i < v->Array_0@.len() ==> nesting_ok(v->Array_0@[i], d + 1),
    decreases n,
{
    if i < n - 1 {
        lemma_child_nesting(v, (n - 1) as nat, d, i);
    }
}

#[verifier::external_type_specification]
#[verifier::external_body]
pub struct ExSerdeValue(serde_json::Value);

/// What `serde_json` makes of a JSON text: the value, or the text of its
/// error. It depends on the text alone.
pub uninterp spec fn json_parse(text: Seq<char>) -> Result<JsonValue, Seq<char>>;

/// `serde_json::from_str::<serde_json::Value>`: parses one JSON text. The
/// contract claims only that the outcome, value or error message, is the
/// same for the same text (`json_parse`); what value a text parses to is
/// left to `serde_json`.
#[verifier::external_body]
pub(crate) fn parse_json(text: &str) -> (r: Result<JsonValue, String>)
    ensures
        json_parse(text@) == (match r {
            Ok(v) => Ok::<JsonValue, Seq<char>>(v),
            Err(e) => Err::<JsonValue, Seq<char>>(e@),
        }),
{
    match serde_json::from_str::<serde_json::Value>(text) {
        Ok(v) => Ok(value_of(&v)),
        Err(e) => Err(e.to_string()),
    }
}

/// A `serde_json::Value` as this library's value, variant by variant; the
/// members of an object come in the order of its map. It converts the
/// result of [`parse_json`] and nothing else.
#[verifier::external_body]
fn value_of(v: &serde_json::Value) -> JsonValue {
    match v {
        serde_json::Value::Null => JsonValue::Null,
        serde_json::Value::Bool(b) => JsonValue::Bool(*b),
        serde_json::Value::Number(n) => JsonValue::Number(n.to_string()),
        serde_json::Value::String(t) => JsonValue::Text(t.clone()),
        serde_json::Value::Array(xs) => JsonValue::Array(xs.iter().map(value_of).collect()),
        serde_json::Value::Object(m) => JsonValue::Object(m.iter().map(|(k, x)| (k.clone(), value_of(x))).collect()),
    }
}

} // verus!

