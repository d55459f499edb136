//! The ways in which a query can fail.

use crate::value::Kind;
use vstd::prelude::*;
use vstd::string::StringExecFns;

verus! {

/// Why a query, or the decoding of its input, failed.
#[derive(Clone, Copy, Debug, PartialEq, Eq, Structural)]
pub enum Error {
    /// The text of a stage is no literal, template or operator chain.
    Syntax,
    /// An operator was applied to two values whose types it does not combine.
    TypeMismatch { left: Kind, right: Kind },
    /// A division by zero.
    DivisionByZero,
    /// A remainder of a division by zero.
    ModuloByZero,
    /// The length of a value that has none.
    UnsupportedLength,
    /// A text that is not of the format it was offered as.
    Format,
    /// A format that is neither JSON, TOML nor YAML.
    UnsupportedFormat,
}

/// The name of a type.
pub open spec fn kind_name(kind: Kind) -> Seq<char> {
    match kind {
        Kind::Null => "null"@,
        Kind::Bool => "boolean"@,
        Kind::Number => "number"@,
        Kind::String => "string"@,
        Kind::Array => "array"@,
        Kind::Object => "object"@,
    }
}

/// The name of a type.
fn name_of(kind: Kind) -> (r: &'static str)
    ensures
        r@ == kind_name(kind),
{
    match kind {
        Kind::Null => "null",
        Kind::Bool => "boolean",
        Kind::Number => "number",
        Kind::String => "string",
        Kind::Array => "array",
        Kind::Object => "object",
    }
}

impl Error {
    /// The error in words.
    pub open spec fn text(self) -> Seq<char> {
        match self {
            Error::Syntax => "syntax error"@,
            Error::TypeMismatch { left, right } => "type mismatch: "@ + kind_name(left) + " and "@
                + kind_name(right),
            Error::DivisionByZero => "division by zero"@,
            Error::ModuloByZero => "modulo by zero"@,
            Error::UnsupportedLength => "unsupported length"@,
            Error::Format => "format error"@,
            Error::UnsupportedFormat => "unsupported format"@,
        }
    }

    /// The error in words.
    pub fn message(&self) -> (r: String)
        ensures
            r@ == self.text(),
    {
        match self {
            Error::Syntax => String::from_str("syntax error"),
            Error::TypeMismatch { left, right } => {
                let mut out = String::from_str("type mismatch: ");
                out.append(name_of(*left));
                out.append(" and ");
                out.append(name_of(*right));
                out
            },
            Error::DivisionByZero => String::from_str("division by zero"),
            Error::ModuloByZero => String::from_str("modulo by zero"),
            Error::UnsupportedLength => String::from_str("unsupported length"),
            Error::Format => String::from_str("format error"),
            Error::UnsupportedFormat => String::from_str("unsupported format"),
        }
    }
}

} // verus!
