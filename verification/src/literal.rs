use crate::value::{Val, ValModel};
use vstd::prelude::*;

verus! {

#[verifier::external_type_specification]
#[verifier::external_body]
pub struct ExJsonValue(serde_json::Value);

/// The value a `put` literal denotes: the text read as a JSON document
/// where it is one, and the raw text as a plain string otherwise. The
/// reading is done by an outside parser and depends on the text alone,
/// so it is named here and never spelled out.
pub uninterp spec fn json_literal_of(s: Seq<char>) -> ValModel;

/// Relies on serde_json::from_str: reads the text as one JSON document;
/// text that is not valid JSON becomes a plain string instead.
#[verifier::external_body]
pub(crate) fn parse_json(s: &str) -> (r: Val)
    ensures
        r@ == json_literal_of(s@),
{
    match serde_json::from_str::<serde_json::Value>(s) {
        Ok(v) => from_json(v),
        Err(_) => Val::Text(s.to_string()),
    }
}

/// Relies on the shape of serde_json::Value: moves the parsed tree into
/// the library's value type one variant at a time. A number becomes its
/// canonical decimal text; an object keeps its entries in the parser's
/// order, which the `preserve_order` feature makes insertion order.
#[verifier::external_body]
fn from_json(v: serde_json::Value) -> Val {
    match v {
        serde_json::Value::Null => Val::Null,
        serde_json::Value::Bool(b) => Val::Bool(b),
        serde_json::Value::Number(n) => Val::Number(n.to_string()),
        serde_json::Value::String(s) => Val::Text(s),
        serde_json::Value::Array(a) => Val::Sequence(a.into_iter().map(from_json).collect()),
        serde_json::Value::Object(o) => Val::Mapping(
            o.into_iter().map(|(k, w)| (k, from_json(w))).collect(),
        ),
    }
}

} // verus!
