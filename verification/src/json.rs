//! Reading fields of JSON text through serde_json: a message's `"type"`, the
//! numbers and strings of an event payload. What serde_json makes of a text
//! is named here, not restated; the library's logic works over those names.
use vstd::prelude::*;

verus! {

/// The text of an optional string.
pub open spec fn opt_text(o: Option<String>) -> Option<Seq<char>> {
    match o {
        Some(s) => Some(s@),
        None => None,
    }
}

/// serde_json parses `text` as a JSON value.
pub uninterp spec fn json_parses(text: Seq<char>) -> bool;

/// The message of serde_json's error for a `text` it cannot parse.
pub uninterp spec fn json_parse_error(text: Seq<char>) -> Seq<char>;

/// What serde_json reads at `key` of the JSON object `text` as an `i64`
/// (`None` when the text is not JSON, the key is missing or of another type).
pub uninterp spec fn json_field_i64(text: Seq<char>, key: Seq<char>) -> Option<i64>;

/// What serde_json reads at `key` of the JSON object `text` as a `u64`.
pub uninterp spec fn json_field_u64(text: Seq<char>, key: Seq<char>) -> Option<u64>;

/// The IEEE-754 bits of the number serde_json reads at `key` of the JSON
/// object `text`.
pub uninterp spec fn json_field_number_bits(text: Seq<char>, key: Seq<char>) -> Option<u64>;

/// The string serde_json reads at `key` of the JSON object `text` (`None`
/// when the text is not JSON, the key is missing or not a string).
pub uninterp spec fn json_field_str(text: Seq<char>, key: Seq<char>) -> Option<Seq<char>>;

/// serde_json: parses `text` into a `Value` (`None` when it is not JSON),
/// then `Value::get(key)` and `Value::as_i64`. The contract names the result
/// only: it is a function of the text and the key.
#[verifier::external_body]
pub(crate) fn field_i64(text: &str, key: &str) -> (r: Option<i64>)
    ensures
        r == json_field_i64(text@, key@),
{
    serde_json::from_str::<serde_json::Value>(text).ok()?.get(key)?.as_i64()
}

/// serde_json: `from_str` into a `Value`, `Value::get(key)`, `Value::as_u64`;
/// the result is named, as a function of the text and the key.
#[verifier::external_body]
pub(crate) fn field_u64(text: &str, key: &str) -> (r: Option<u64>)
    ensures
        r == json_field_u64(text@, key@),
{
    serde_json::from_str::<serde_json::Value>(text).ok()?.get(key)?.as_u64()
}

/// serde_json: `from_str` into a `Value`, `Value::get(key)`, `Value::as_f64`,
/// kept as the number's bits; the result is named, as a function of the text
/// and the key.
#[verifier::external_body]
pub(crate) fn field_number_bits(text: &str, key: &str) -> (r: Option<u64>)
    ensures
        r == json_field_number_bits(text@, key@),
{
    serde_json::from_str::<serde_json::Value>(text).ok()?.get(key)?.as_f64().map(|x| x.to_bits())
}

/// serde_json: `from_str` into a `Value`; when that fails, the error's
/// message; otherwise `Value::get(key)` and `Value::as_str`. Whether the text
/// parses, the message and the string are named, as functions of the text
/// (and the key); a text that does not parse has no string at any key.
#[verifier::external_body]
pub(crate) fn field_str(text: &str, key: &str) -> (r: Result<Option<String>, String>)
    ensures
        match r {
            Ok(t) => json_parses(text@) && opt_text(t) == json_field_str(text@, key@),
            Err(m) => !json_parses(text@) && m@ == json_parse_error(text@) && json_field_str(
                text@,
                key@,
            ) is None,
        },
{
    match serde_json::from_str::<serde_json::Value>(text) {
        Ok(v) => Ok(v.get(key).and_then(|t| t.as_str()).map(|t| t.to_string())),
        Err(e) => Err(e.to_string()),
    }
}

} // verus!
