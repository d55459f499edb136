//! The arguments of the command line, and the formats they can name.

use crate::text::chars_of;
use vstd::prelude::*;

verus! {

/// The arguments of one run: the input text, or nothing where it is to be
/// read from the standard input; the query; the format of the input; and the
/// format of the output, or nothing where it is that of the input.
#[derive(Debug)]
pub struct Args {
    pub input: Option<String>,
    pub filter: String,
    pub from: String,
    pub to: Option<String>,
}

/// A format that a name stands for.
#[derive(Clone, Copy, Debug, PartialEq, Eq, Structural)]
pub enum SupportedLanguages {
    Json,
    Toml,
    Yaml,
    Unsupported,
}

/// The text that `str::to_lowercase` makes of a text.
pub uninterp spec fn lowercase(text: Seq<char>) -> Seq<char>;

/// `str::to_lowercase`: the text with each character in its lower case.
/// Believed, not proved: that the result depends on the text alone.
#[verifier::external_body]
fn lowered(text: &str) -> (r: String)
    ensures
        r@ == lowercase(text@),
{
    text.to_lowercase()
}

/// The format that a name stands for, whatever the case of its letters.
pub open spec fn language_of(name: Seq<char>) -> SupportedLanguages {
    let lower = lowercase(name);
    if lower == seq!['j', 's', 'o', 'n'] {
        SupportedLanguages::Json
    } else if lower == seq!['t', 'o', 'm', 'l'] {
        SupportedLanguages::Toml
    } else if lower == seq!['y', 'a', 'm', 'l'] {
        SupportedLanguages::Yaml
    } else {
        SupportedLanguages::Unsupported
    }
}

/// Whether the text is the four characters.
fn is_word_of_four(text: &Vec<char>, a: char, b: char, c: char, d: char) -> (r: bool)
    ensures
        r == (text@ == seq![a, b, c, d]),
{
    if text.len() == 4 && text[0] == a && text[1] == b && text[2] == c && text[3] == d {
        assert(text@ =~= seq![a, b, c, d]);
        true
    } else {
        if text.len() == 4 {
            assert(seq![a, b, c, d][0] == a);
            assert(seq![a, b, c, d][1] == b);
            assert(seq![a, b, c, d][2] == c);
            assert(seq![a, b, c, d][3] == d);
        } else {
            assert(seq![a, b, c, d].len() == 4);
        }
        false
    }
}

impl SupportedLanguages {
    /// The format that a name stands for.
    pub fn named(name: &str) -> (r: SupportedLanguages)
        ensures
            r == language_of(name@),
    {
        let lower = chars_of(lowered(name).as_str());
        if is_word_of_four(&lower, 'j', 's', 'o', 'n') {
            SupportedLanguages::Json
        } else if is_word_of_four(&lower, 't', 'o', 'm', 'l') {
            SupportedLanguages::Toml
        } else if is_word_of_four(&lower, 'y', 'a', 'm', 'l') {
            SupportedLanguages::Yaml
        } else {
            SupportedLanguages::Unsupported
        }
    }
}

impl From<String> for SupportedLanguages {
    fn from(val: String) -> (r: SupportedLanguages) {
        SupportedLanguages::named(val.as_str())
    }
}

impl vstd::std_specs::convert::FromSpecImpl<String> for SupportedLanguages {
    open spec fn obeys_from_spec() -> bool {
        true
    }

    open spec fn from_spec(val: String) -> SupportedLanguages {
        language_of(val@)
    }
}

impl Args {
    /// The format of the input.
    pub fn source(&self) -> (r: SupportedLanguages)
        ensures
            r == language_of(self.from@),
    {
        SupportedLanguages::named(self.from.as_str())
    }

    /// The format of the output: the one that `to` names, or that of the
    /// input where there is no `to`.
    pub fn target(&self) -> (r: SupportedLanguages)
        ensures
            r == (match self.to {
                Some(name) => language_of(name@),
                None => language_of(self.from@),
            }),
    {
        match &self.to {
            Some(name) => SupportedLanguages::named(name.as_str()),
            None => SupportedLanguages::named(self.from.as_str()),
        }
    }
}

} // verus!
