//! Reading a language model's reply as JSON.
use vstd::prelude::*;
use crate::cleanup::{clean_json, clean_json_blocks};

verus! {

#[verifier::external_type_specification]
#[verifier::external_body]
pub struct ExJsonValue(serde_json::Value);

/// A JSON value: numbers are kept as the text `serde_json` prints for
/// them, and an object's members in the order `serde_json` holds them.
#[derive(Debug, PartialEq)]
pub enum JsonModel {
    Null,
    Bool(bool),
    Number(String),
    Str(String),
    Array(Vec<JsonModel>),
    Object(Vec<(String, JsonModel)>),
}

/// A JSON value, in terms of character sequences.
pub enum JsonModelView {
    Null,
    Bool(bool),
    Number(Seq<char>),
    Str(Seq<char>),
    Array(Seq<JsonModelView>),
    Object(Seq<(Seq<char>, JsonModelView)>),
}

/// The view of a JSON value.
pub open spec fn json_model_view(v: JsonModel) -> JsonModelView
    decreases v,
{
    match v {
        JsonModel::Null => JsonModelView::Null,
        JsonModel::Bool(b) => JsonModelView::Bool(b),
        JsonModel::Number(n) => JsonModelView::Number(n@),
        JsonModel::Str(s) => JsonModelView::Str(s@),
        JsonModel::Array(a) => JsonModelView::Array(
            Seq::new(
                a@.len(),
                |i: int|
                    if 0 <= i < a@.len() {
                        json_model_view(a@[i])
                    } else {
                        JsonModelView::Null
                    },
            ),
        ),
        JsonModel::Object(m) => JsonModelView::Object(
            Seq::new(
                m@.len(),
                |i: int|
                    if 0 <= i < m@.len() {
                        (m@[i].0@, json_model_view(m@[i].1))
                    } else {
                        (Seq::<char>::empty(), JsonModelView::Null)
                    },
            ),
        ),
    }
}

/// The value `serde_json::from_str::<serde_json::Value>` reads from a
/// text, or `None` when it refuses the text.
pub uninterp spec fn json_value_of(s: Seq<char>) -> Option<JsonModelView>;

/// Converts a `serde_json::Value` into the library's model, variant for
/// variant (a number through `serde_json::Number`'s `Display`, an object's
/// members in `serde_json::Map`'s order). It states nothing by itself: the
/// parse it serves, `parse_json`, names its result.
#[verifier::external_body]
fn json_model_from(v: &serde_json::Value) -> JsonModel {
    match v {
        serde_json::Value::Null => JsonModel::Null,
        serde_json::Value::Bool(b) => JsonModel::Bool(*b),
        serde_json::Value::Number(n) => JsonModel::Number(n.to_string()),
        serde_json::Value::String(s) => JsonModel::Str(s.clone()),
        serde_json::Value::Array(a) => JsonModel::Array(a.iter().map(json_model_from).collect()),
        serde_json::Value::Object(m) => JsonModel::Object(m.iter().map(|(k, x)| (k.clone(), json_model_from(x))).collect()),
    }
}

/// Calls `serde_json::from_str::<serde_json::Value>`; the value it reads,
/// or its refusal, is named `json_value_of`. The error is its message.
#[verifier::external_body]
fn parse_json(s: &str) -> (r: Result<JsonModel, String>)
    ensures
        match r {
            Ok(v) => json_value_of(s@) == Some(json_model_view(v)),
            Err(_) => json_value_of(s@) is None,
        },
{
    match serde_json::from_str::<serde_json::Value>(s) {
        Ok(v) => Ok(json_model_from(&v)),
        Err(e) => Err(e.to_string()),
    }
}

/// A reply read as JSON once its Markdown code fence is removed: the
/// value parsed from the cleaned text, or the parser's message when it
/// is not JSON.
pub fn json_reply(raw: &str) -> (r: Result<JsonModel, String>)
    ensures
        match r {
            Ok(v) => json_value_of(clean_json(raw@)) == Some(json_model_view(v)),
            Err(_) => json_value_of(clean_json(raw@)) is None,
        },
{
    let cleaned = clean_json_blocks(raw);
    parse_json(cleaned.as_str())
}

/// A reply read as a JSON object once its Markdown code fence is removed:
/// the object parsed from the cleaned text; `None` when the cleaned text
/// is JSON of another kind; the parser's message when it is not JSON.
pub fn object_reply(raw: &str) -> (r: Result<Option<JsonModel>, String>)
    ensures
        match r {
            Ok(Some(v)) => json_value_of(clean_json(raw@)) == Some(json_model_view(v))
                && json_model_view(v) is Object,
            Ok(None) => json_value_of(clean_json(raw@)) matches Some(m) && !(m is Object),
            Err(_) => json_value_of(clean_json(raw@)) is None,
        },
{
    let cleaned = clean_json_blocks(raw);
    match parse_json(cleaned.as_str()) {
        Ok(v) => match v {
            JsonModel::Object(_) => Ok(Some(v)),
            _ => Ok(None),
        },
        Err(e) => Err(e),
    }
}

} // verus!
