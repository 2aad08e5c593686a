//! Parts of a JSON document, picked out by a pointer such as `/data/stok`.

use crate::storage;
use serde_json::Value;
use vstd::prelude::*;

verus! {

/// What stands at some place of a document.
#[derive(Clone, Debug)]
pub enum Json {
    /// The document is no JSON, and why.
    Broken { why: String },
    /// Nothing stands there.
    Missing,
    Null,
    Bool(bool),
    /// A number, if it is one of 64 bits without a sign.
    Number(Option<u64>),
    Text(String),
    List,
    Object,
}

/// What stands at some place of a document.
pub enum JsonModel {
    Broken { why: Seq<char> },
    Missing,
    Null,
    Bool(bool),
    Number(Option<u64>),
    Text(Seq<char>),
    List,
    Object,
}

impl View for Json {
    type V = JsonModel;

    open spec fn view(&self) -> JsonModel {
        match self {
            Json::Broken { why } => JsonModel::Broken { why: why@ },
            Json::Missing => JsonModel::Missing,
            Json::Null => JsonModel::Null,
            Json::Bool(b) => JsonModel::Bool(*b),
            Json::Number(n) => JsonModel::Number(*n),
            Json::Text(s) => JsonModel::Text(s@),
            Json::List => JsonModel::List,
            Json::Object => JsonModel::Object,
        }
    }
}

/// What stands in a document at the place that a pointer names.
pub uninterp spec fn json_part(document: Seq<u8>, pointer: Seq<char>) -> JsonModel;

/// `Value::pointer` of the crate `serde_json`, on the value that
/// `serde_json::from_slice` reads, or what the error of that function tells.
/// The result depends on the arguments alone; the grammar of JSON is not
/// spelled out.
#[verifier::external_body]
pub(crate) fn json_at(document: &[u8], pointer: &str) -> (res: Json)
    ensures
        res@ == json_part(document@, pointer@),
{
    match serde_json::from_slice::<Value>(document) {
        Err(e) => Json::Broken { why: e.to_string() },
        Ok(v) => match v.pointer(pointer) {
            None => Json::Missing,
            Some(Value::Null) => Json::Null,
            Some(Value::Bool(b)) => Json::Bool(*b),
            Some(Value::Number(n)) => Json::Number(n.as_u64()),
            Some(Value::String(s)) => Json::Text(s.clone()),
            Some(Value::Array(_)) => Json::List,
            Some(Value::Object(_)) => Json::Object,
        },
    }
}

/// The text of what stands in a document at the place that a pointer names, if
/// anything does.
pub uninterp spec fn json_text(document: Seq<u8>, pointer: Seq<char>) -> Option<Seq<char>>;

/// `Value::to_string` of the crate `serde_json`, on what `Value::pointer` finds
/// in the value that `serde_json::from_slice` reads. The result depends on the
/// arguments alone; how JSON is written is not spelled out.
#[verifier::external_body]
pub(crate) fn json_text_at(document: &[u8], pointer: &str) -> (res: Option<String>)
    ensures
        storage::text_of(res) == json_text(document@, pointer@),
{
    let value = serde_json::from_slice::<Value>(document).ok()?;
    value.pointer(pointer).map(|part| part.to_string())
}

}
