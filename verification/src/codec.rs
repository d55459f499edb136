//! Reading a document in the format that a run names.

use crate::args::{language_of, Args, SupportedLanguages};
use crate::error::Error;
use crate::json::{decode, json_document};
use crate::number::{fpu_model, fpu_ok, Arithmetic};
use crate::operator::Unit;
use crate::parser::{evaluate, Parser};
use crate::toml::{toml_document, Toml};
use crate::value::{result_view, Json, Value};
use crate::yaml::{yaml_document, Yaml};
use vstd::prelude::*;

verus! {

/// The document that a text writes in a format: a format error where the
/// text is not of the format, and an unsupported format where the format is
/// none of the three.
pub open spec fn document_of(text: Seq<char>, language: SupportedLanguages) -> Result<Json, Error> {
    let document = match language {
        SupportedLanguages::Json => json_document(text),
        SupportedLanguages::Toml => toml_document(text),
        SupportedLanguages::Yaml => yaml_document(text),
        SupportedLanguages::Unsupported => None,
    };
    match document {
        Some(value) => Ok(value),
        None => if language == SupportedLanguages::Unsupported {
            Err(Error::UnsupportedFormat)
        } else {
            Err(Error::Format)
        },
    }
}

/// What a run makes of its input text: the document that the text writes in
/// the format of the input, and of that what the query makes.
pub open spec fn outcome(unit: Unit, args: Args, input: Seq<char>) -> Result<Json, Error> {
    match document_of(input, language_of(args.from@)) {
        Ok(document) => evaluate(unit, args.filter@, document),
        Err(e) => Err(e),
    }
}

/// The document that a text writes in a format.
pub fn read(text: String, language: SupportedLanguages) -> (r: Result<Value, Error>)
    ensures
        result_view(r) == document_of(text@, language),
        r matches Ok(value) ==> value@.wf(),
{
    match language {
        SupportedLanguages::Json => match decode(text.as_str()) {
            Some(value) => Ok(value),
            None => Err(Error::Format),
        },
        SupportedLanguages::Toml => match Toml::new(text) {
            Ok(document) => Ok(document.to_json()),
            Err(e) => Err(e),
        },
        SupportedLanguages::Yaml => match Yaml::new(text) {
            Ok(document) => Ok(document.to_json()),
            Err(e) => Err(e),
        },
        SupportedLanguages::Unsupported => Err(Error::UnsupportedFormat),
    }
}

impl Args {
    /// What the run makes of its input text. The text is that of `input`
    /// where the arguments hold one, and else what was read for them.
    pub fn apply<F: Fn(Arithmetic, u64, u64) -> u64>(&self, input: String, fpu: &F) -> (r: Result<
        Value,
        Error,
    >)
        requires
            fpu_ok(*fpu),
        ensures
            result_view(r) == outcome(fpu_model(*fpu), *self, input@),
            r matches Ok(value) ==> value@.wf(),
    {
        match read(input, self.source()) {
            Ok(document) => Parser::parse(document, self.filter.as_str(), fpu),
            Err(e) => Err(e),
        }
    }
}

} // verus!
