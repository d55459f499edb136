//! Reading JSON text, which `serde_json` does.

use crate::number::Number;
use crate::value::{Json, Value};
use serde_json::Number as Numeral;
use serde_json::Value as Document;
use vstd::prelude::*;

verus! {

/// `serde_json::Value`, a document. Of what is in one, this crate knows what
/// [`lift`] tells it.
#[verifier::external_type_specification]
#[verifier::external_body]
pub struct ExDocument(Document);

/// `serde_json::Number`, a number of a document.
#[verifier::external_type_specification]
#[verifier::external_body]
pub struct ExNumeral(Numeral);

/// The document that `serde_json::from_str` reads from a text; none where it
/// refuses the text.
pub uninterp spec fn json_document(text: Seq<char>) -> Option<Json>;

/// The value that a document of `serde_json` holds.
pub uninterp spec fn document_value(document: Document) -> Json;

/// `serde_json::from_str`, for a `serde_json::Value`: the document that the
/// text writes, or nothing where the text is no JSON. Believed, not proved:
/// that the document depends on the text alone.
#[verifier::external_body]
fn parse_document(text: &str) -> (r: Option<Document>)
    ensures
        match r {
            Some(document) => json_document(text@) == Some(document_value(document)),
            None => json_document(text@) is None,
        },
{
    match serde_json::from_str::<Document>(text) {
        Ok(document) => Some(document),
        Err(_) => None,
    }
}

/// A number of `serde_json` as a [`Number`]: `as_u64`, `as_i64` and `as_f64`
/// tell its three forms apart. Believed, not proved: that an integer which
/// `as_u64` does not give is below zero, and that a double is finite.
#[verifier::external_body]
fn lift_number(number: &Numeral) -> (r: Number)
    ensures
        r.wf(),
{
    match (number.as_u64(), number.as_i64()) {
        (Some(u), _) => Number::PosInt(u),
        (_, Some(i)) => Number::NegInt(i),
        _ => Number::Float(number.as_f64().unwrap_or_default().to_bits()),
    }
}

/// A document of `serde_json` as a [`Value`], variant by variant, the fields
/// of an object in the order in which its map hands them out. Believed, not
/// proved: that the value depends on the document alone, that no map of
/// `serde_json` holds a key twice, and what [`lift_number`] says of numbers.
#[verifier::external_body]
pub(crate) fn lift(document: &Document) -> (r: Value)
    ensures
        r@ == document_value(*document),
        r@.wf(),
{
    match document {
        Document::Null => Value::Null,
        Document::Bool(b) => Value::Bool(*b),
        Document::Number(n) => Value::Number(lift_number(n)),
        Document::String(s) => Value::String(s.clone()),
        Document::Array(items) => Value::Array(items.iter().map(lift).collect()),
        Document::Object(fields) => Value::Object(
            fields.iter().map(|(key, value)| (key.clone(), lift(value))).collect(),
        ),
    }
}

/// The value that a JSON text writes; nothing where the text is no JSON.
pub fn decode(text: &str) -> (r: Option<Value>)
    ensures
        match r {
            Some(value) => json_document(text@) == Some(value@) && value@.wf(),
            None => json_document(text@) is None,
        },
{
    match parse_document(text) {
        Some(document) => Some(lift(&document)),
        None => None,
    }
}

} // verus!
