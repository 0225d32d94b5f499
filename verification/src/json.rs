//! Reading JSON text, through `serde_json`.
//!
//! Nothing in this file is proved: it states what is taken on trust of
//! `serde_json`, which is only that reading a text is a function of the
//! text.

use crate::raw::{RawField, RawNumber, RawValue};
use vstd::prelude::*;

verus! {

/// `serde_json::Value`: a parsed JSON document. Nothing of its inside is
/// known here.
#[verifier::external_type_specification]
#[verifier::external_body]
pub struct ExJsonValue(serde_json::Value);

/// What `serde_json::from_str` makes of a text, as a raw value: `None`
/// where the text is not one JSON document. Objects become records, arrays
/// lists, strings text; a number keeps what `Number::as_u64` and
/// `Number::as_f64` say of it, the latter as its bits.
pub uninterp spec fn json_value(text: Seq<char>) -> Option<RawValue>;

/// Copies a `serde_json::Value` into a raw value, variant by variant.
/// Nothing is claimed of the result.
#[verifier::external_body]
fn lift(value: &serde_json::Value) -> RawValue {
    match value {
        serde_json::Value::Null => RawValue::Null,
        serde_json::Value::Bool(b) => RawValue::Bool(*b),
        serde_json::Value::Number(n) => RawValue::Number(
            RawNumber { unsigned: n.as_u64(), double: n.as_f64().map(|x| x.to_bits()) },
        ),
        serde_json::Value::String(s) => RawValue::Text(s.clone()),
        serde_json::Value::Array(items) => RawValue::List(items.iter().map(lift).collect()),
        serde_json::Value::Object(fields) => RawValue::Record(
            fields.iter().map(|(k, v)| RawField { name: k.clone(), value: lift(v) }).collect(),
        ),
    }
}

/// Calls `serde_json::from_str` for a `serde_json::Value` and copies the
/// value that comes back. The contract claims that the result depends on
/// the text alone, and gives it its name; `from_str` returns an error for
/// every text that it does not accept, nesting deeper than 128 levels
/// included.
#[verifier::external_body]
pub(crate) fn read_json(text: &str) -> (r: Option<RawValue>)
    ensures
        r == json_value(text@),
{
    match serde_json::from_str::<serde_json::Value>(text) {
        Ok(value) => Some(lift(&value)),
        Err(_) => None,
    }
}

} // verus!
