//! Templates: a JSON literal in which paths stand unquoted, as in
//! `{"a": .a, "b": [.b[0], 1]}`.
//!
//! A template is built in three steps. Its text is rewritten into JSON, each
//! path becoming a string that holds it. The JSON is read. Then every string
//! of the document that holds a path gives way to what the path selects from
//! the input. A string that the text had in quotes must not be taken for a
//! path, so the rewriting puts an underscore in front of each quoted string
//! that begins with a dot, an underscore or a backslash, and the last step
//! takes the underscore off again.

use crate::error::Error;
use crate::filter::{digit, is_digit, lemma_run_end, resolve, resolve_path, run_end, scan_run};
use crate::json::{decode, json_document};
use crate::text::{chars_of, slice_of, string_of};
use crate::validity::lemma_fill_wf;
use crate::value::{
    fields_view,
    insert,
    insert_field,
    items_view,
    lemma_array_view,
    lemma_object_view,
    result_view,
    Fields,
    Json,
    Value,
};
use vstd::prelude::*;

verus! {

/// The end of the quoted string whose first character, after the opening
/// quote, is at `j`: the place after the closing quote, or the end of the text
/// where the string is not closed. A backslash takes the character after it
/// along.
pub open spec fn literal_end(text: Seq<char>, j: int) -> int
    decreases text.len() - j,
{
    if !(0 <= j < text.len()) {
        text.len() as int
    } else if text[j] == '"' {
        j + 1
    } else if text[j] == '\\' {
        if j + 1 < text.len() {
            literal_end(text, j + 2)
        } else {
            text.len() as int
        }
    } else {
        literal_end(text, j + 1)
    }
}

/// A quoted string ends after its beginning and within the text.
pub proof fn lemma_literal_end(text: Seq<char>, j: int)
    requires
        0 <= j <= text.len(),
    ensures
        j <= literal_end(text, j) <= text.len(),
        j < text.len() ==> j < literal_end(text, j),
    decreases text.len() - j,
{
    if j < text.len() && text[j] != '"' {
        if text[j] == '\\' {
            if j + 1 < text.len() {
                lemma_literal_end(text, j + 2);
            }
        } else {
            lemma_literal_end(text, j + 1);
        }
    }
}

/// Whether the quoted string whose first character is at `j` gets an
/// underscore in front.
pub open spec fn needs_mark(text: Seq<char>, j: int) -> bool {
    0 <= j < text.len() && (text[j] == '.' || text[j] == '_' || text[j] == '\\')
}

/// Whether a path begins at `i`: with a dot that follows no digit, so that
/// the point of a decimal number begins none.
pub open spec fn starts_path(text: Seq<char>, i: int) -> bool {
    0 <= i < text.len() && text[i] == '.' && !(i > 0 && is_digit(text[i - 1]))
}

/// The text from place `i` on as JSON: a quoted string is copied, with an
/// underscore in front where [`needs_mark`] says so; the longest run of
/// segments that begins a path is put in quotes; any other character is
/// copied.
pub open spec fn rewrite_from(text: Seq<char>, i: int) -> Seq<char>
    decreases text.len() - i,
{
    if !(0 <= i < text.len()) {
        Seq::empty()
    } else if text[i] == '"' {
        let end = literal_end(text, i + 1);
        let mark = if needs_mark(text, i + 1) {
            seq!['"', '_']
        } else {
            seq!['"']
        };
        proof {
            lemma_literal_end(text, i + 1);
        }
        mark + text.subrange(i + 1, end) + rewrite_from(text, end)
    } else if starts_path(text, i) {
        let end = run_end(text, i);
        proof {
            lemma_run_end(text, i);
        }
        seq!['"'] + text.subrange(i, end) + seq!['"'] + rewrite_from(text, end)
    } else {
        seq![text[i]] + rewrite_from(text, i + 1)
    }
}

/// The text of a template as JSON.
pub open spec fn rewrite(text: Seq<char>) -> Seq<char> {
    rewrite_from(text, 0)
}

/// A string of the document without the underscore that the rewriting put in
/// front of it.
pub open spec fn unmark(s: Seq<char>) -> Seq<char> {
    if s.len() > 0 && s[0] == '_' {
        s.drop_first()
    } else {
        s
    }
}

/// The document with each path in it resolved against the input. A string
/// that begins with an underscore loses it; one that begins with a dot is a
/// path and gives way to what it selects; an array is filled item by item; an
/// object is filled field by field, the names losing their underscores, and
/// where two fields then have one name the later one wins.
pub open spec fn fill(template: Json, input: Json) -> Json
    decreases template, 0nat,
{
    match template {
        Json::String(s) => if s.len() > 0 && s[0] == '.' {
            resolve(input, s)
        } else {
            Json::String(unmark(s))
        },
        Json::Array(items) => Json::Array(
            Seq::new(
                items.len(),
                |i: int|
                    if 0 <= i < items.len() {
                        fill(items[i], input)
                    } else {
                        Json::Null
                    },
            ),
        ),
        Json::Object(fields) => Json::Object(fill_fields(fields, input, fields.len())),
        _ => template,
    }
}

/// The first `n` fields of a document's object, filled.
pub open spec fn fill_fields(fields: Fields, input: Json, n: nat) -> Fields
    decreases fields, n,
{
    if n == 0 || n > fields.len() {
        Seq::empty()
    } else {
        insert(
            fill_fields(fields, input, (n - 1) as nat),
            unmark(fields[n - 1].0),
            fill(fields[n - 1].1, input),
        )
    }
}

/// What a template makes of an input: a syntax error where its rewritten text
/// is no JSON, else the document filled.
pub open spec fn template_value(text: Seq<char>, input: Json) -> Result<Json, Error> {
    match json_document(rewrite(text)) {
        Some(document) => Ok(fill(document, input)),
        None => Err(Error::Syntax),
    }
}

/// The end of the quoted string whose first character is at `from`.
fn scan_literal(text: &Vec<char>, from: usize) -> (r: usize)
    requires
        from <= text.len(),
    ensures
        r == literal_end(text@, from as int),
        from <= r <= text.len(),
{
    let mut j = from;
    while j < text.len()
        invariant
            from <= j <= text.len(),
            literal_end(text@, from as int) == literal_end(text@, j as int),
        decreases text.len() - j,
    {
        let c = text[j];
        if c == '"' {
            return j + 1;
        } else if c == '\\' {
            if j + 1 < text.len() {
                j += 2;
            } else {
                return text.len();
            }
        } else {
            j += 1;
        }
    }
    j
}

/// Puts the characters from `from` up to `to` at the end of `out`.
fn copy_into(out: &mut Vec<char>, text: &Vec<char>, from: usize, to: usize)
    requires
        from <= to <= text.len(),
    ensures
        final(out)@ == old(out)@ + text@.subrange(from as int, to as int),
{
    let mut k = from;
    while k < to
        invariant
            from <= k <= to <= text.len(),
            out@ == old(out)@ + text@.subrange(from as int, k as int),
        decreases to - k,
    {
        out.push(text[k]);
        assert(text@.subrange(from as int, k + 1) =~= text@.subrange(from as int, k as int).push(
            text@[k as int],
        ));
        k += 1;
    }
}

/// The text of a template as JSON.
pub fn rewritten(text: &Vec<char>) -> (r: Vec<char>)
    ensures
        r@ == rewrite(text@),
{
    let mut out: Vec<char> = Vec::new();
    let mut i: usize = 0;
    while i < text.len()
        invariant
            i <= text.len(),
            rewrite(text@) == out@ + rewrite_from(text@, i as int),
        decreases text.len() - i,
    {
        let c = text[i];
        let ghost before = out@;
        if c == '"' {
            let end = scan_literal(text, i + 1);
            out.push('"');
            if i + 1 < text.len() && (text[i + 1] == '.' || text[i + 1] == '_' || text[i + 1]
                == '\\') {
                out.push('_');
            }
            copy_into(&mut out, text, i + 1, end);
            proof {
                lemma_literal_end(text@, i + 1);
                let mark = if needs_mark(text@, i + 1) {
                    seq!['"', '_']
                } else {
                    seq!['"']
                };
                assert(out@ =~= before + (mark + text@.subrange(i + 1, end as int)));
                assert(before + rewrite_from(text@, i as int) =~= out@ + rewrite_from(
                    text@,
                    end as int,
                ));
            }
            i = end;
        } else if c == '.' && !(i > 0 && digit(text[i - 1])) {
            let end = scan_run(text, i);
            out.push('"');
            copy_into(&mut out, text, i, end);
            out.push('"');
            proof {
                lemma_run_end(text@, i as int);
                assert(out@ =~= before + (seq!['"'] + text@.subrange(i as int, end as int)
                    + seq!['"']));
                assert(before + rewrite_from(text@, i as int) =~= out@ + rewrite_from(
                    text@,
                    end as int,
                ));
            }
            i = end;
        } else {
            out.push(c);
            proof {
                assert(out@ =~= before + seq![c]);
                assert(before + rewrite_from(text@, i as int) =~= out@ + rewrite_from(text@, i + 1));
            }
            i += 1;
        }
    }
    assert(out@ + rewrite_from(text@, i as int) =~= out@);
    out
}

/// A string without the underscore in front of it, where it has one.
fn unmarked(s: &String) -> (r: String)
    ensures
        r@ == unmark(s@),
{
    let chars = chars_of(s.as_str());
    if chars.len() > 0 && chars[0] == '_' {
        let rest = slice_of(&chars, 1, chars.len());
        assert(chars@.subrange(1, chars@.len() as int) =~= chars@.drop_first());
        string_of(&rest)
    } else {
        s.clone()
    }
}

/// The document with each path in it resolved against the input.
pub fn filled(template: &Value, input: &Value) -> (r: Value)
    ensures
        r@ == fill(template@, input@),
        template@.wf() && input@.wf() ==> r@.wf(),
    decreases template,
{
    proof {
        if template@.wf() && input@.wf() {
            lemma_fill_wf(template@, input@);
        }
    }
    match template {
        Value::String(s) => {
            let chars = chars_of(s.as_str());
            if chars.len() > 0 && chars[0] == '.' {
                resolve_path(input, &chars)
            } else {
                Value::String(unmarked(s))
            }
        },
        Value::Array(items) => {
            let mut out: Vec<Value> = Vec::new();
            let mut i: usize = 0;
            while i < items.len()
                invariant
                    i <= items.len(),
                    out@.len() == i,
                    forall|k: int|
                        0 <= k < items@.len() ==> decreases_to!(template => #[trigger] items@[k]),
                    forall|k: int|
                        0 <= k < i ==> (#[trigger] out@[k])@ == fill(items@[k]@, input@),
                decreases items.len() - i,
            {
                let item = filled(&items[i], input);
                out.push(item);
                i += 1;
            }
            proof {
                lemma_array_view(out);
                lemma_array_view(*items);
                assert(items_view(out@) =~= fill(template@, input@)->Array_0);
            }
            Value::Array(out)
        },
        Value::Object(fields) => {
            let mut out: Vec<(String, Value)> = Vec::new();
            let mut i: usize = 0;
            proof {
                lemma_object_view(*fields);
            }
            while i < fields.len()
                invariant
                    i <= fields.len(),
                    forall|k: int|
                        0 <= k < fields@.len() ==> decreases_to!(template => #[trigger] fields@[k]),
                    fields_view(out@) == fill_fields(fields_view(fields@), input@, i as nat),
                decreases fields.len() - i,
            {
                let value = filled(&fields[i].1, input);
                let key = unmarked(&fields[i].0);
                insert_field(&mut out, key, value);
                i += 1;
            }
            proof {
                lemma_object_view(out);
            }
            Value::Object(out)
        },
        Value::Null => Value::Null,
        Value::Bool(b) => Value::Bool(*b),
        Value::Number(n) => Value::Number(*n),
    }
}

/// What a template makes of an input.
pub fn build(text: &Vec<char>, input: &Value) -> (r: Result<Value, Error>)
    ensures
        result_view(r) == template_value(text@, input@),
        input@.wf() ==> (r matches Ok(value) ==> value@.wf()),
{
    let json = string_of(&rewritten(text));
    match decode(json.as_str()) {
        Some(document) => Ok(filled(&document, input)),
        None => Err(Error::Syntax),
    }
}

/// The builder of templates over one input, and the home of the operators.
#[derive(Debug)]
pub struct JsonParser {
    pub json: Value,
}

impl JsonParser {
    /// A builder of templates over the input.
    pub fn new(json: Value) -> (r: JsonParser)
        ensures
            r.json == json,
    {
        JsonParser { json }
    }

    /// What the template makes of the input.
    pub fn parse_json(&self, query: String) -> (r: Result<Value, Error>)
        ensures
            result_view(r) == template_value(query@, self.json@),
            self.json@.wf() ==> (r matches Ok(value) ==> value@.wf()),
    {
        build(&chars_of(query.as_str()), &self.json)
    }

    /// The document of the template, its paths still unresolved: a syntax
    /// error where the rewritten text is no JSON.
    pub fn convert_filter_to_string(&self, query: String) -> (r: Result<Value, Error>)
        ensures
            match r {
                Ok(document) => json_document(rewrite(query@)) == Some(document@)
                    && document@.wf(),
                Err(e) => e == Error::Syntax && json_document(rewrite(query@)) is None,
            },
    {
        let json = string_of(&rewritten(&chars_of(query.as_str())));
        match decode(json.as_str()) {
            Some(document) => Ok(document),
            None => Err(Error::Syntax),
        }
    }

    /// The document with each path in it resolved against the input.
    pub fn create_valid_json(&self, json: &Value) -> (r: Value)
        ensures
            r@ == fill(json@, self.json@),
            json@.wf() && self.json@.wf() ==> r@.wf(),
    {
        filled(json, &self.json)
    }
}

} // verus!
