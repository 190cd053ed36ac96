//! JSON text, read and written by `serde_json`.
//!
//! The library holds documents as [`Json`]; `serde_json` turns text into
//! values and values into text.  What it reads and writes is not restated
//! here: each of the two results has a name, and the contracts of the library
//! speak of these names.

use crate::json::{Json, JsonModel, JsonNumber, Member};
use vstd::prelude::*;

verus! {

/// `serde_json::Value`, named so that the conversions below can take and
/// give it.  Nothing is known of what such a value holds.
#[verifier::external_type_specification]
#[verifier::external_body]
pub struct ExJsonValue(serde_json::Value);

/// The text that `serde_json::to_string` writes for a value.
pub uninterp spec fn json_text(value: JsonModel) -> Seq<char>;

/// The value that `serde_json::from_str` reads from a text, `None` where it
/// rejects the text.
pub uninterp spec fn json_parse(text: Seq<char>) -> Option<JsonModel>;

/// Builds the `serde_json::Value` that stands for a value of the library.
/// A decimal literal that `serde_json::Number` does not read becomes `null`;
/// of two entries with one key the later stays.
#[verifier::external_body]
pub(crate) fn to_outside(value: &Json) -> serde_json::Value {
    match value {
        Json::Null => serde_json::Value::Null,
        Json::Bool(b) => serde_json::Value::Bool(*b),
        Json::Number(JsonNumber::Integer(i)) => serde_json::Value::from(*i),
        Json::Number(JsonNumber::Decimal(text)) => text.parse::<serde_json::Number>().map_or(
            serde_json::Value::Null,
            serde_json::Value::Number,
        ),
        Json::Text(s) => serde_json::Value::String(s.clone()),
        Json::Array(items) => serde_json::Value::Array(items.iter().map(to_outside).collect()),
        Json::Object(entries) => serde_json::Value::Object(
            entries.iter().map(|m| (m.key.clone(), to_outside(&m.value))).collect(),
        ),
    }
}

/// Builds the value of the library that stands for a `serde_json::Value`.
/// A number that fits `i64` becomes an integer, any other the text that
/// `serde_json::Number` displays.
#[verifier::external_body]
pub(crate) fn from_outside(value: &serde_json::Value) -> Json {
    match value {
        serde_json::Value::Null => Json::Null,
        serde_json::Value::Bool(b) => Json::Bool(*b),
        serde_json::Value::Number(n) => Json::Number(
            n.as_i64().map_or_else(|| JsonNumber::Decimal(n.to_string()), JsonNumber::Integer),
        ),
        serde_json::Value::String(s) => Json::Text(s.clone()),
        serde_json::Value::Array(items) => Json::Array(items.iter().map(from_outside).collect()),
        serde_json::Value::Object(entries) => Json::Object(
            entries.iter().map(|(k, v)| Member { key: k.clone(), value: from_outside(v) }).collect(),
        ),
    }
}

/// Calls `serde_json::to_string` on the value.  The contract claims that the
/// text is a function of the value's view, and gives it its name.
#[verifier::external_body]
pub(crate) fn write_json(value: &Json) -> (text: String)
    ensures
        text@ == json_text(value@),
{
    serde_json::to_string(&to_outside(value)).unwrap_or_default()
}

/// Calls `serde_json::from_str` on the text.  The contract claims that the
/// outcome is a function of the text, and gives it its name.
#[verifier::external_body]
pub(crate) fn read_json(text: &str) -> (value: Option<Json>)
    ensures
        match value {
            Some(v) => json_parse(text@) == Some(v@),
            None => json_parse(text@) is None,
        },
{
    serde_json::from_str::<serde_json::Value>(text).ok().map(|v| from_outside(&v))
}

} // verus!
