//! The boundary to `serde_json`: JSON values are carried as `serde_json::Value`,
//! and everything this library knows of one comes from the few calls below.
//! Their contracts are taken on trust from `serde_json`; nothing here is proved.

use crate::lines::LINE_FEED;
use serde_json::Value;
use vstd::prelude::*;

verus! {

/// `serde_json::Value`, opaque to the verifier.
#[verifier::external_type_specification]
#[verifier::external_body]
pub struct ExValue(serde_json::Value);

/// `serde_json::Error`, opaque to the verifier.
#[verifier::external_type_specification]
#[verifier::external_body]
pub struct ExJsonError(serde_json::Error);

/// The value that `serde_json::from_slice` reads from `text`, or `None` where it
/// reports an error.
pub uninterp spec fn json_value(text: Seq<u8>) -> Option<serde_json::Value>;

/// The string-valued members of a JSON object, by member name. A value that is
/// not an object has none.
pub uninterp spec fn text_fields(value: serde_json::Value) -> Map<Seq<char>, Seq<char>>;

/// The compact encoding that `serde_json::to_vec` gives `value`, or `None` where
/// it reports an error.
pub uninterp spec fn json_bytes(value: serde_json::Value) -> Option<Seq<u8>>;

/// The elements of a JSON array, in order, or `None` for a value that is not an array.
pub uninterp spec fn array_items(value: serde_json::Value) -> Option<Seq<serde_json::Value>>;

/// Calls `serde_json::from_slice::<Value>`. Trusted: the outcome depends on the
/// bytes alone, so it is given the name [`json_value`].
#[verifier::external_body]
pub(crate) fn parse_json(text: &[u8]) -> (parsed: Result<Value, serde_json::Error>)
    ensures
        match parsed {
            Ok(value) => json_value(text@) == Some(value),
            Err(_) => json_value(text@) is None,
        },
{
    serde_json::from_slice::<Value>(text)
}

/// Calls `Value::get` with a member name and `Value::as_str` on what it finds.
/// Trusted: the result is the string stored under `name` when `value` is an
/// object with such a member and the member is a string, and `None` otherwise.
#[verifier::external_body]
pub(crate) fn text_field(value: &Value, name: &str) -> (text: Option<String>)
    ensures
        text is Some <==> text_fields(*value).contains_key(name@),
        text is Some ==> text->0@ == text_fields(*value)[name@],
{
    value.get(name).and_then(|member| member.as_str()).map(|text| text.to_string())
}

/// Calls `serde_json::to_vec`. Trusted: the outcome depends on the value alone,
/// so it is given the name [`json_bytes`]; and the compact encoding holds no
/// line feed, because the serializer writes no whitespace between tokens and
/// escapes every control character inside strings.
#[verifier::external_body]
pub(crate) fn encode_json(value: &Value) -> (encoded: Result<Vec<u8>, serde_json::Error>)
    ensures
        match encoded {
            Ok(bytes) => json_bytes(*value) == Some(bytes@) && !bytes@.contains(LINE_FEED),
            Err(_) => json_bytes(*value) is None,
        },
{
    serde_json::to_vec(value)
}

/// Calls `Value::as_array` and clones the elements. Trusted: the result is the
/// elements of the array in order, named [`array_items`], and `None` for any
/// other kind of value.
#[verifier::external_body]
pub(crate) fn array_elements(value: &Value) -> (items: Option<Vec<Value>>)
    ensures
        match items {
            Some(list) => array_items(*value) == Some(list@),
            None => array_items(*value) is None,
        },
{
    value.as_array().cloned()
}

} // verus!
