//! TOML documents, which the `toml` crate reads.

use crate::error::Error;
use crate::json::{document_value, lift};
use crate::value::{Json, Value};
use serde_json::Value as Document;
use vstd::prelude::*;

verus! {

/// A document that was read from TOML, or is to be written as TOML.
#[derive(Debug)]
pub struct Toml {
    data: Value,
}

/// The document that `toml::from_str` reads from a text; none where it
/// refuses the text.
pub uninterp spec fn toml_document(text: Seq<char>) -> Option<Json>;

/// `toml::from_str`, for a `serde_json::Value`: the document that the text
/// writes, or nothing where the text is no TOML. Believed, not proved: that
/// the document depends on the text alone.
#[verifier::external_body]
fn parse_toml(text: &str) -> (r: Option<Document>)
    ensures
        match r {
            Some(document) => toml_document(text@) == Some(document_value(document)),
            None => toml_document(text@) is None,
        },
{
    match ::toml::from_str::<Document>(text) {
        Ok(document) => Some(document),
        Err(_) => None,
    }
}

impl View for Toml {
    type V = Json;

    closed spec fn view(&self) -> Json {
        self.data@
    }
}

impl Clone for Toml {
    fn clone(&self) -> (r: Toml)
        ensures
            r@ == self@,
    {
        Toml { data: self.data.clone() }
    }
}

impl Toml {
    /// The document that a TOML text writes: a format error where the text
    /// is no TOML.
    pub fn new(data: String) -> (r: Result<Toml, Error>)
        ensures
            match r {
                Ok(document) => toml_document(data@) == Some(document@) && document@.wf(),
                Err(e) => e == Error::Format && toml_document(data@) is None,
            },
    {
        match parse_toml(data.as_str()) {
            Some(document) => Ok(Toml { data: lift(&document) }),
            None => Err(Error::Format),
        }
    }

    /// The document.
    pub fn get_toml(&self) -> (r: Value)
        ensures
            r@ == self@,
    {
        self.data.clone()
    }

    /// The value as a document.
    pub fn from_json(json_data: Value) -> (r: Toml)
        ensures
            r@ == json_data@,
    {
        Toml { data: json_data }
    }

    /// The document as a value.
    pub fn to_json(&self) -> (r: Value)
        ensures
            r@ == self@,
    {
        self.data.clone()
    }
}

} // verus!
