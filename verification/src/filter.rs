//! Paths: `.key`, `.key[index]` and the bare `.`, one after another, and
//! what they select from a value. A path never fails: whatever it does not
//! find is null.

use crate::text::{slice_of, string_of};
use crate::validity::lemma_resolve_wf;
use crate::value::{find_key, lemma_array_view, lemma_object_view, lookup, Json, Value};
use vstd::prelude::*;

verus! {

/// Whether `char::is_alphanumeric` holds of a character: whether Unicode
/// has it for a letter or a number.
pub uninterp spec fn is_alphanumeric(c: char) -> bool;

/// `char::is_alphanumeric`: whether the character is a letter or a number.
/// Believed, not proved: that the answer depends on the character alone.
#[verifier::external_body]
fn alphanumeric(c: char) -> (r: bool)
    ensures
        r == is_alphanumeric(c),
{
    c.is_alphanumeric()
}

/// The characters of a key: the letters and numbers, and the underscore.
pub open spec fn is_word(c: char) -> bool {
    is_alphanumeric(c) || c == '_'
}

/// The decimal digits.
pub open spec fn is_digit(c: char) -> bool {
    '0' <= c <= '9'
}

/// Whether the character is a key character.
pub fn word(c: char) -> (r: bool)
    ensures
        r == is_word(c),
{
    alphanumeric(c) || c == '_'
}

/// Whether the character is a decimal digit.
pub fn digit(c: char) -> (r: bool)
    ensures
        r == is_digit(c),
{
    c >= '0' && c <= '9'
}

/// The end of the key characters that begin at `i`.
pub open spec fn word_end(text: Seq<char>, i: int) -> int
    decreases text.len() - i,
{
    if 0 <= i < text.len() && is_word(text[i]) {
        word_end(text, i + 1)
    } else {
        i
    }
}

/// The end of the digits that begin at `i`.
pub open spec fn digits_end(text: Seq<char>, i: int) -> int
    decreases text.len() - i,
{
    if 0 <= i < text.len() && is_digit(text[i]) {
        digits_end(text, i + 1)
    } else {
        i
    }
}

/// Whether square brackets that hold only digits, or nothing, begin at `k`.
pub open spec fn has_brackets(text: Seq<char>, k: int) -> bool {
    &&& 0 <= k < text.len()
    &&& text[k] == '['
    &&& digits_end(text, k + 1) < text.len()
    &&& text[digits_end(text, k + 1)] == ']'
}

/// The end of the segment that begins with the dot at `i`: the dot, the key
/// characters after it, and the brackets after those where there are any.
pub open spec fn segment_end(text: Seq<char>, i: int) -> int {
    let k = word_end(text, i + 1);
    if has_brackets(text, k) {
        digits_end(text, k + 1) + 1
    } else {
        k
    }
}

/// The key characters that begin at `i` end at or after `i`, within the
/// text, and are key characters all.
pub proof fn lemma_word_end(text: Seq<char>, i: int)
    requires
        0 <= i <= text.len(),
    ensures
        i <= word_end(text, i) <= text.len(),
        forall|j: int| i <= j < word_end(text, i) ==> is_word(#[trigger] text[j]),
    decreases text.len() - i,
{
    if i < text.len() && is_word(text[i]) {
        lemma_word_end(text, i + 1);
    }
}

/// The digits that begin at `i` end at or after `i`, within the text, and
/// are digits all.
pub proof fn lemma_digits_end(text: Seq<char>, i: int)
    requires
        0 <= i <= text.len(),
    ensures
        i <= digits_end(text, i) <= text.len(),
        forall|j: int| i <= j < digits_end(text, i) ==> is_digit(#[trigger] text[j]),
    decreases text.len() - i,
{
    if i < text.len() && is_digit(text[i]) {
        lemma_digits_end(text, i + 1);
    }
}

/// A segment is not empty and ends within the text.
pub proof fn lemma_segment_end(text: Seq<char>, i: int)
    requires
        0 <= i < text.len(),
    ensures
        i < segment_end(text, i) <= text.len(),
{
    lemma_word_end(text, i + 1);
    let k = word_end(text, i + 1);
    if k < text.len() {
        lemma_digits_end(text, k + 1);
    }
}

/// The end of the longest run of segments that begins at `i`.
pub open spec fn run_end(text: Seq<char>, i: int) -> int
    decreases text.len() - i,
{
    if 0 <= i < text.len() && text[i] == '.' {
        proof {
            lemma_segment_end(text, i);
        }
        run_end(text, segment_end(text, i))
    } else {
        i
    }
}

/// A run ends at or after its beginning, within the text, and is not empty
/// where it begins with a dot.
pub proof fn lemma_run_end(text: Seq<char>, i: int)
    requires
        0 <= i <= text.len(),
    ensures
        i <= run_end(text, i) <= text.len(),
        i < text.len() && text[i] == '.' ==> i < run_end(text, i),
    decreases text.len() - i,
{
    if i < text.len() && text[i] == '.' {
        lemma_segment_end(text, i);
        lemma_run_end(text, segment_end(text, i));
    }
}

/// The number that decimal digits write.
pub open spec fn number_of(digits: Seq<char>) -> nat
    decreases digits.len(),
{
    if digits.len() == 0 {
        0
    } else {
        (number_of(digits.drop_last()) * 10 + (digits.last() as u32 - '0' as u32)) as nat
    }
}

/// The field of the name in an object; null where there is none, and in
/// whatever is no object.
pub open spec fn member(value: Json, key: Seq<char>) -> Json {
    match value {
        Json::Object(fields) => match lookup(fields, key) {
            Some(found) => found,
            None => Json::Null,
        },
        _ => Json::Null,
    }
}

/// The item at the place in an array; null where the array ends before it,
/// and in whatever is no array.
pub open spec fn element(value: Json, index: nat) -> Json {
    match value {
        Json::Array(items) => if index < items.len() {
            items[index as int]
        } else {
            Json::Null
        },
        _ => Json::Null,
    }
}

/// What one segment selects: the field of its key, where the key is not
/// empty, and of that the item at its index, where its brackets hold digits.
pub open spec fn select(value: Json, path: Seq<char>, i: int) -> Json {
    let k = word_end(path, i + 1);
    let key = path.subrange(i + 1, k);
    let inner = if key.len() > 0 {
        member(value, key)
    } else {
        value
    };
    if has_brackets(path, k) && digits_end(path, k + 1) > k + 1 {
        element(inner, number_of(path.subrange(k + 1, digits_end(path, k + 1))))
    } else {
        inner
    }
}

/// What the path selects from the value, read from place `i` on: segment by
/// segment, from left to right. A character that begins no segment is passed
/// over.
pub open spec fn resolve_from(value: Json, path: Seq<char>, i: int) -> Json
    decreases path.len() - i,
{
    if 0 <= i < path.len() {
        if path[i] == '.' {
            proof {
                lemma_segment_end(path, i);
            }
            resolve_from(select(value, path, i), path, segment_end(path, i))
        } else {
            resolve_from(value, path, i + 1)
        }
    } else {
        value
    }
}

/// What the path selects from the value.
pub open spec fn resolve(value: Json, path: Seq<char>) -> Json {
    resolve_from(value, path, 0)
}

/// The end of the key characters that begin at `from`.
fn scan_word(text: &Vec<char>, from: usize) -> (r: usize)
    requires
        from <= text.len(),
    ensures
        r == word_end(text@, from as int),
        from <= r <= text.len(),
{
    let mut k = from;
    while k < text.len() && word(text[k])
        invariant
            from <= k <= text.len(),
            word_end(text@, from as int) == word_end(text@, k as int),
        decreases text.len() - k,
    {
        k += 1;
    }
    k
}

/// The end of the digits that begin at `from`.
fn scan_digits(text: &Vec<char>, from: usize) -> (r: usize)
    requires
        from <= text.len(),
    ensures
        r == digits_end(text@, from as int),
        from <= r <= text.len(),
{
    let mut k = from;
    while k < text.len() && digit(text[k])
        invariant
            from <= k <= text.len(),
            digits_end(text@, from as int) == digits_end(text@, k as int),
        decreases text.len() - k,
    {
        k += 1;
    }
    k
}

/// Where the brackets that begin at `k` end, where brackets begin there.
fn scan_brackets(text: &Vec<char>, k: usize) -> (r: Option<usize>)
    requires
        k <= text.len(),
    ensures
        r is Some == has_brackets(text@, k as int),
        r matches Some(d) ==> d == digits_end(text@, k + 1) && k < d < text.len(),
{
    if k < text.len() && text[k] == '[' {
        let d = scan_digits(text, k + 1);
        if d < text.len() && text[d] == ']' {
            return Some(d);
        }
    }
    None
}

/// The end of the segment that begins with the dot at `i`.
pub fn scan_segment(text: &Vec<char>, i: usize) -> (r: usize)
    requires
        i < text.len(),
    ensures
        r == segment_end(text@, i as int),
        i < r <= text.len(),
{
    let k = scan_word(text, i + 1);
    match scan_brackets(text, k) {
        Some(d) => d + 1,
        None => k,
    }
}

/// The end of the longest run of segments that begins at `i`.
pub fn scan_run(text: &Vec<char>, i: usize) -> (r: usize)
    requires
        i <= text.len(),
    ensures
        r == run_end(text@, i as int),
        i <= r <= text.len(),
{
    let mut k = i;
    while k < text.len() && text[k] == '.'
        invariant
            i <= k <= text.len(),
            run_end(text@, i as int) == run_end(text@, k as int),
        decreases text.len() - k,
    {
        k = scan_segment(text, k);
    }
    k
}

/// The number that the digits from `from` to `to` write, where it fits.
fn read_index(text: &Vec<char>, from: usize, to: usize) -> (r: Option<usize>)
    requires
        from <= to <= text.len(),
        forall|j: int| from <= j < to ==> is_digit(#[trigger] text@[j]),
    ensures
        r matches Some(n) ==> n == number_of(text@.subrange(from as int, to as int)),
        r is None ==> number_of(text@.subrange(from as int, to as int)) > usize::MAX,
{
    let mut acc: Option<usize> = Some(0);
    let mut k = from;
    assert(text@.subrange(from as int, from as int) =~= Seq::<char>::empty());
    while k < to
        invariant
            from <= k <= to <= text.len(),
            forall|j: int| from <= j < to ==> is_digit(#[trigger] text@[j]),
            acc matches Some(n) ==> n == number_of(text@.subrange(from as int, k as int)),
            acc is None ==> number_of(text@.subrange(from as int, k as int)) > usize::MAX,
        decreases to - k,
    {
        let c = text[k];
        assert(is_digit(text@[k as int]));
        let d: usize = (c as u32 - '0' as u32) as usize;
        proof {
            let longer = text@.subrange(from as int, k + 1);
            assert(longer.drop_last() =~= text@.subrange(from as int, k as int));
            assert(longer.last() == c);
        }
        acc = match acc {
            Some(n) => match n.checked_mul(10) {
                Some(m) => m.checked_add(d),
                None => None,
            },
            None => None,
        };
        k += 1;
    }
    acc
}

impl Value {
    /// The field of the name; null where there is none.
    pub fn member(&self, key: &String) -> (r: &Value)
        ensures
            r@ == member(self@, key@),
    {
        match self {
            Value::Object(fields) => {
                proof {
                    lemma_object_view(*fields);
                }
                match find_key(fields, key) {
                    Some(i) => &fields[i].1,
                    None => &Value::Null,
                }
            },
            Value::Array(items) => {
                proof {
                    lemma_array_view(*items);
                }
                &Value::Null
            },
            _ => &Value::Null,
        }
    }

    /// The item at the place; null where there is none.
    pub fn element(&self, index: usize) -> (r: &Value)
        ensures
            r@ == element(self@, index as nat),
    {
        match self {
            Value::Array(items) => {
                proof {
                    lemma_array_view(*items);
                }
                if index < items.len() {
                    &items[index]
                } else {
                    &Value::Null
                }
            },
            Value::Object(fields) => {
                proof {
                    lemma_object_view(*fields);
                }
                &Value::Null
            },
            _ => &Value::Null,
        }
    }
}

/// What the segment that begins with the dot at `i` selects.
fn select_segment<'a>(value: &'a Value, path: &Vec<char>, i: usize) -> (r: &'a Value)
    requires
        i < path.len(),
    ensures
        r@ == select(value@, path@, i as int),
{
    let k = scan_word(path, i + 1);
    let inner = if k > i + 1 {
        let key = string_of(&slice_of(path, i + 1, k));
        value.member(&key)
    } else {
        assert(path@.subrange(i + 1, k as int).len() == 0);
        value
    };
    match scan_brackets(path, k) {
        Some(d) => {
            if d > k + 1 {
                proof {
                    lemma_digits_end(path@, k + 1);
                }
                match read_index(path, k + 1, d) {
                    Some(n) => inner.element(n),
                    None => element_beyond(
                        inner,
                        Ghost(number_of(path@.subrange(k + 1, d as int))),
                    ),
                }
            } else {
                inner
            }
        },
        None => inner,
    }
}

/// The item at a place that no `usize` can hold: null, as no array is that
/// long.
fn element_beyond(value: &Value, index: Ghost<nat>) -> (r: &Value)
    requires
        index@ > usize::MAX,
    ensures
        r@ == element(value@, index@),
{
    match value {
        Value::Array(items) => {
            let _ = items.len();
            proof {
                lemma_array_view(*items);
            }
        },
        Value::Object(fields) => {
            proof {
                lemma_object_view(*fields);
            }
        },
        _ => {},
    }
    &Value::Null
}

/// What the path selects from the value.
pub fn resolve_path(value: &Value, path: &Vec<char>) -> (r: Value)
    ensures
        r@ == resolve(value@, path@),
        value@.wf() ==> r@.wf(),
{
    proof {
        if value@.wf() {
            lemma_resolve_wf(value@, path@, 0);
        }
    }
    let mut current: &Value = value;
    let mut i: usize = 0;
    while i < path.len()
        invariant
            i <= path.len(),
            resolve(value@, path@) == resolve_from(current@, path@, i as int),
        decreases path.len() - i,
    {
        if path[i] == '.' {
            current = select_segment(current, path, i);
            i = scan_segment(path, i);
        } else {
            i += 1;
        }
    }
    current.clone()
}

} // verus!
