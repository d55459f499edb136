//! YAML documents, which the `serde_yaml` crate reads.

use crate::error::Error;
use crate::json::{document_value, lift};
use crate::value::{Json, Value};
use serde_json::Value as Document;
use vstd::prelude::*;

verus! {

/// A document that was read from YAML, or is to be written as YAML.
#[derive(Debug)]
pub struct Yaml {
    data: Value,
}

/// The document that `serde_yaml::from_str` reads from a text; none where it
/// refuses the text.
pub uninterp spec fn yaml_document(text: Seq<char>) -> Option<Json>;

/// `serde_yaml::from_str`, for a `serde_json::Value`: the document that the
/// text writes, or nothing where the text is no YAML that a document of
/// `serde_json` can hold. Believed, not proved: that the document depends on
/// the text alone.
#[verifier::external_body]
fn parse_yaml(text: &str) -> (r: Option<Document>)
    ensures
        match r {
            Some(document) => yaml_document(text@) == Some(document_value(document)),
            None => yaml_document(text@) is None,
        },
{
    match serde_yaml::from_str::<Document>(text) {
        Ok(document) => Some(document),
        Err(_) => None,
    }
}

impl View for Yaml {
    type V = Json;

    closed spec fn view(&self) -> Json {
        self.data@
    }
}

impl Clone for Yaml {
    fn clone(&self) -> (r: Yaml)
        ensures
            r@ == self@,
    {
        Yaml { data: self.data.clone() }
    }
}

impl Yaml {
    /// The document that a YAML text writes: a format error where the text
    /// is no YAML.
    pub fn new(data: String) -> (r: Result<Yaml, Error>)
        ensures
            match r {
                Ok(document) => yaml_document(data@) == Some(document@) && document@.wf(),
                Err(e) => e == Error::Format && yaml_document(data@) is None,
            },
    {
        match parse_yaml(data.as_str()) {
            Some(document) => Ok(Yaml { data: lift(&document) }),
            None => Err(Error::Format),
        }
    }

    /// The document.
    pub fn get_yaml(&self) -> (r: Value)
        ensures
            r@ == self@,
    {
        self.data.clone()
    }

    /// The value as a document.
    pub fn from_json(json_data: Value) -> (r: Yaml)
        ensures
            r@ == json_data@,
    {
        Yaml { data: json_data }
    }

    /// The document as a value.
    pub fn to_json(&self) -> (r: Value)
        ensures
            r@ == self@,
    {
        self.data.clone()
    }
}

} // verus!
