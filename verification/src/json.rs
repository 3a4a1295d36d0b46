//! JSON values as plain data, read with `serde_json`.

use vstd::prelude::*;

verus! {

/// A JSON value. Integers are kept as their decimal text, other numbers as
/// the text that `Display` writes for their `f64` value; object members keep the
/// order in which the parser hands them out.
#[derive(Debug)]
pub enum JsonValue {
    Null,
    Bool(bool),
    Integer(String),
    Float(String),
    Text(String),
    Array(Vec<JsonValue>),
    Object(Vec<JsonMember>),
}

/// One member of a JSON object.
#[derive(Debug)]
pub struct JsonMember {
    pub key: String,
    pub value: JsonValue,
}

/// What `serde_json::from_str::<serde_json::Value>` gives for `text`, as a
/// `JsonValue`, or the text of its error.
pub uninterp spec fn json_parse(text: Seq<char>) -> Result<JsonValue, Seq<char>>;

/// Calls `serde_json::from_str` into `serde_json::Value` and converts the
/// value node by node (an error into its `Display` text). The contract
/// claims only that the result is the named function of the text; it states
/// nothing of which texts parse or of what the values hold.
#[verifier::external_body]
pub fn parse_json(text: &str) -> (r: Result<JsonValue, String>)
    ensures
        match r {
            Ok(v) => json_parse(text@) == Ok::<JsonValue, Seq<char>>(v),
            Err(m) => json_parse(text@) == Err::<JsonValue, Seq<char>>(m@),
        },
{
    match serde_json::from_str::<serde_json::Value>(text) {
        Ok(v) => Ok(from_serde(v)),
        Err(e) => Err(e.to_string()),
    }
}

/// `serde_json::Value`, carried through unread.
#[verifier::external_type_specification]
#[verifier::external_body]
pub struct ExSerdeJsonValue(serde_json::Value);

/// Converts a `serde_json::Value` variant by variant into a `JsonValue`:
/// numbers by their `Display` text, object members in the order the map
/// yields them. Nothing is claimed of it beyond what `parse_json` names.
#[verifier::external_body]
fn from_serde(v: serde_json::Value) -> JsonValue {
    match v {
        serde_json::Value::Null => JsonValue::Null,
        serde_json::Value::Bool(b) => JsonValue::Bool(b),
        serde_json::Value::Number(n) => match n.as_f64() {
            Some(x) if n.is_f64() => JsonValue::Float(x.to_string()),
            _ => JsonValue::Integer(n.to_string()),
        },
        serde_json::Value::String(s) => JsonValue::Text(s),
        serde_json::Value::Array(a) => JsonValue::Array(a.into_iter().map(from_serde).collect()),
        serde_json::Value::Object(o) => JsonValue::Object(
            o.into_iter().map(|(key, x)| JsonMember { key, value: from_serde(x) }).collect(),
        ),
    }
}

} // verus!
