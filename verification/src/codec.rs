//! Reading JSON text and writing YAML text with `serde_json` and `serde_yaml_ng`.

use vstd::prelude::*;
use crate::json::{Json, JsonV, item_views};

verus! {

/// `serde_json::Value`, carried through the calls below.
#[verifier::external_type_specification]
#[verifier::external_body]
pub struct ExValue(serde_json::Value);

/// Converts a `serde_json::Value` into a [`Json`], variant for variant: a number by the text
/// `serde_json` displays for it, object members in the order the map holds them.
#[verifier::external_body]
fn json_of_value(v: &serde_json::Value) -> Json {
    match v {
        serde_json::Value::Null => Json::Null,
        serde_json::Value::Bool(b) => Json::Bool(*b),
        serde_json::Value::Number(n) => Json::Number(n.to_string()),
        serde_json::Value::String(s) => Json::Str(s.clone()),
        serde_json::Value::Array(a) => Json::Array(a.iter().map(json_of_value).collect()),
        serde_json::Value::Object(m) => Json::Object(m.iter().map(|(k, x)| (k.clone(), json_of_value(x))).collect()),
    }
}

/// Converts a [`Json`] into a `serde_json::Value`, variant for variant: a number from its text,
/// members inserted into the map in order.
#[verifier::external_body]
fn value_of_json(v: &Json) -> serde_json::Value {
    match v {
        Json::Null => serde_json::Value::Null,
        Json::Bool(b) => serde_json::Value::Bool(*b),
        Json::Number(t) => serde_json::from_str(t).unwrap_or(serde_json::Value::Null),
        Json::Str(s) => serde_json::Value::String(s.clone()),
        Json::Array(a) => serde_json::Value::Array(a.iter().map(value_of_json).collect()),
        Json::Object(m) => serde_json::Value::Object(m.iter().map(|(k, x)| (k.clone(), value_of_json(x))).collect()),
    }
}

/// What `serde_json::from_str::<serde_json::Value>` makes of `text`: the value, or the text of
/// its error.
pub uninterp spec fn json_parsed(text: Seq<char>) -> Result<JsonV, Seq<char>>;

/// `serde_json::from_str::<serde_json::Value>`: reads a JSON document into a value (numbers
/// kept as the text `serde_json` displays, object members in the order its map keeps), or
/// gives the text of the error it reports.
#[verifier::external_body]
pub(crate) fn parse_json_text(text: &str) -> (r: Result<Json, String>)
    ensures
        match r {
            Ok(j) => json_parsed(text@) == Ok::<JsonV, Seq<char>>(j@),
            Err(e) => json_parsed(text@) == Err::<JsonV, Seq<char>>(e@),
        },
{
    serde_json::from_str::<serde_json::Value>(text).map(|v| json_of_value(&v)).map_err(|e| e.to_string())
}

/// What `serde_yaml_ng::to_string` writes for the items as a list of `serde_json` values: the
/// YAML text, or the text of its error.
pub uninterp spec fn yaml_text(items: Seq<JsonV>) -> Result<Seq<char>, Seq<char>>;

/// `format_yaml`: `serde_yaml_ng::to_string` on the items as `serde_json` values; the text of
/// the error when it reports one.
#[verifier::external_body]
pub fn format_yaml(items: &Vec<Json>) -> (r: Result<String, String>)
    ensures
        match r {
            Ok(t) => yaml_text(item_views(items@)) == Ok::<Seq<char>, Seq<char>>(t@),
            Err(e) => yaml_text(item_views(items@)) == Err::<Seq<char>, Seq<char>>(e@),
        },
{
    let values: Vec<serde_json::Value> = items.iter().map(value_of_json).collect();
    serde_yaml_ng::to_string(&values).map_err(|e| e.to_string())
}

} // verus!
