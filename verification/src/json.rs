//! JSON documents as plain values, read with `serde_json`.
use vstd::prelude::*;

verus! {

/// A JSON number, told apart the way `serde_json::Number` tells them apart:
/// an integer that fits `u64`, a negative integer that fits `i64`, or anything else.
#[derive(Clone, Copy, PartialEq, Eq, Structural, Debug)]
pub enum JsonNumber {
    UInt(u64),
    NegInt(i64),
    Float,
}

/// A JSON value. An object holds its members in key order, each key once.
#[derive(Debug)]
pub enum JsonValue {
    Null,
    Bool(bool),
    Number(JsonNumber),
    Str(String),
    Array(Vec<JsonValue>),
    /// The member names and, at the same positions, their values.
    Object(Vec<String>, Vec<JsonValue>),
}

/// The document that `serde_json` reads from a byte string, `None` when the
/// bytes are not one JSON value (surrounded by optional white space).
pub uninterp spec fn json_document(bytes: Seq<u8>) -> Option<JsonValue>;

#[verifier::external_type_specification]
#[verifier::external_body]
pub struct ExJsonValue(serde_json::Value);

#[verifier::external_type_specification]
#[verifier::external_body]
pub struct ExJsonNumber(serde_json::Number);

/// Tells a `serde_json::Number` apart as `serde_json` stores it: a `u64`
/// (`as_u64`), else an `i64` (`as_i64`), else a float.
#[verifier::external_body]
fn from_serde_number(n: &serde_json::Number) -> JsonNumber {
    match (n.as_u64(), n.as_i64()) {
        (Some(u), _) => JsonNumber::UInt(u),
        (None, Some(i)) => JsonNumber::NegInt(i),
        (None, None) => JsonNumber::Float,
    }
}

/// Converts a `serde_json::Value` into a `JsonValue`, variant for variant.
#[verifier::external_body]
fn from_serde(v: serde_json::Value) -> JsonValue {
    match v {
        serde_json::Value::Null => JsonValue::Null,
        serde_json::Value::Bool(b) => JsonValue::Bool(b),
        serde_json::Value::Number(n) => JsonValue::Number(from_serde_number(&n)),
        serde_json::Value::String(s) => JsonValue::Str(s),
        serde_json::Value::Array(a) => JsonValue::Array(a.into_iter().map(from_serde).collect()),
        serde_json::Value::Object(o) => {
            let (names, values): (Vec<String>, Vec<serde_json::Value>) = o.into_iter().unzip();
            JsonValue::Object(names, values.into_iter().map(from_serde).collect())
        },
    }
}

/// Reads a JSON document (`serde_json::from_slice` into a `serde_json::Value`).
/// What it returns is named by `json_document`, a function of the bytes alone.
#[verifier::external_body]
pub fn parse_json(bytes: &[u8]) -> (r: Option<JsonValue>)
    ensures
        r == json_document(bytes@),
{
    serde_json::from_slice::<serde_json::Value>(bytes).ok().map(from_serde)
}

/// The value of the first member named `key`, among members `i` onwards.
pub open spec fn member_from(names: Seq<String>, values: Seq<JsonValue>, key: Seq<char>, i: nat) -> Option<
    JsonValue,
>
    decreases names.len() - i,
{
    if i >= names.len() || i >= values.len() {
        None
    } else if names[i as int]@ == key {
        Some(values[i as int])
    } else {
        member_from(names, values, key, i + 1)
    }
}

/// The value of the first member named `key`.
pub open spec fn member(names: Seq<String>, values: Seq<JsonValue>, key: Seq<char>) -> Option<JsonValue> {
    member_from(names, values, key, 0)
}

/// Finds the member named `key`.
pub fn find_member<'a>(names: &Vec<String>, values: &'a Vec<JsonValue>, key: &str) -> (r: Option<
    &'a JsonValue,
>)
    ensures
        match member(names@, values@, key@) {
            Some(v) => r == Some(&v),
            None => r is None,
        },
{
    let mut i: usize = 0;
    while i < names.len() && i < values.len()
        invariant
            0 <= i <= names@.len(),
            member(names@, values@, key@) == member_from(names@, values@, key@, i as nat),
        decreases names.len() - i,
    {
        if crate::instrument::chars_equal(&crate::text::chars_of(names[i].as_str()), key) {
            return Some(&values[i]);
        }
        i += 1;
    }
    None
}

/// A JSON number read as `u64`, as serde reads one: an integer from 0 to `u64::MAX`.
pub open spec fn as_u64(v: JsonValue) -> Option<u64> {
    match v {
        JsonValue::Number(JsonNumber::UInt(u)) => Some(u),
        _ => None,
    }
}

pub fn read_u64(v: &JsonValue) -> (r: Option<u64>)
    ensures
        r == as_u64(*v),
{
    match v {
        JsonValue::Number(JsonNumber::UInt(u)) => Some(*u),
        _ => None,
    }
}

} // verus!
