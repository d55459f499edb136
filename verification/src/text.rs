//! Text as a sequence of characters: trimming, searching, and the scan that
//! tells which characters of an expression stand at its top level.

use vstd::prelude::*;

verus! {

/// The characters of a string.
pub fn chars_of(s: &str) -> (r: Vec<char>)
    ensures
        r@ == s@,
{
    let mut out: Vec<char> = Vec::new();
    for c in it: s.chars()
        invariant
            out@ == it.seq().take(it.index() as int),
            it.seq() == s@,
        ensures
            out@ == s@.take(s@.len() as int),
    {
        out.push(c);
        assert(it.seq().take(it.index() + 1) =~= it.seq().take(it.index() as int).push(c));
    }
    assert(s@.take(s@.len() as int) =~= s@);
    out
}

/// `String::from_iter` on the characters. Believed, not proved: that the
/// string holds the characters, in their order.
#[verifier::external_body]
pub(crate) fn string_of(chars: &Vec<char>) -> (r: String)
    ensures
        r@ == chars@,
{
    String::from_iter(chars.iter())
}

/// The characters from `from` up to `to`.
pub fn slice_of(text: &Vec<char>, from: usize, to: usize) -> (r: Vec<char>)
    requires
        from <= to <= text.len(),
    ensures
        r@ == text@.subrange(from as int, to as int),
{
    let mut out: Vec<char> = Vec::new();
    let mut i: usize = from;
    while i < to
        invariant
            from <= i <= to <= text.len(),
            out@ == text@.subrange(from as int, i as int),
        decreases to - i,
    {
        out.push(text[i]);
        assert(text@.subrange(from as int, i + 1) =~= text@.subrange(from as int, i as int).push(
            text@[i as int],
        ));
        i += 1;
    }
    out
}

/// White space, as Unicode defines it: the tab, the line feed, the vertical
/// tab, the form feed, the carriage return, the space, the next line, the
/// no-break space, and the spaces and separators from U+1680 up to U+3000.
pub open spec fn is_space(c: char) -> bool {
    ||| '\u{9}' <= c <= '\u{d}'
    ||| c == ' '
    ||| c == '\u{85}'
    ||| c == '\u{a0}'
    ||| c == '\u{1680}'
    ||| '\u{2000}' <= c <= '\u{200a}'
    ||| c == '\u{2028}'
    ||| c == '\u{2029}'
    ||| c == '\u{202f}'
    ||| c == '\u{205f}'
    ||| c == '\u{3000}'
}

/// Whether the character is white space.
pub fn space(c: char) -> (r: bool)
    ensures
        r == is_space(c),
{
    (c >= '\u{9}' && c <= '\u{d}') || c == ' ' || c == '\u{85}' || c == '\u{a0}' || c
        == '\u{1680}' || (c >= '\u{2000}' && c <= '\u{200a}') || c == '\u{2028}' || c
        == '\u{2029}' || c == '\u{202f}' || c == '\u{205f}' || c == '\u{3000}'
}

/// The text without the white space it begins with.
pub open spec fn trim_start(s: Seq<char>) -> Seq<char>
    decreases s.len(),
{
    if s.len() > 0 && is_space(s[0]) {
        trim_start(s.drop_first())
    } else {
        s
    }
}

/// The text without the white space it ends with.
pub open spec fn trim_end(s: Seq<char>) -> Seq<char>
    decreases s.len(),
{
    if s.len() > 0 && is_space(s.last()) {
        trim_end(s.drop_last())
    } else {
        s
    }
}

/// The text without the white space at either end.
pub open spec fn trim(s: Seq<char>) -> Seq<char> {
    trim_end(trim_start(s))
}

/// The text without the white space at either end.
pub fn trimmed(text: &Vec<char>) -> (r: Vec<char>)
    ensures
        r@ == trim(text@),
{
    let n = text.len();
    let mut from: usize = 0;
    assert(text@.subrange(0, n as int) =~= text@);
    while from < n && space(text[from])
        invariant
            from <= n == text.len(),
            trim_start(text@) == trim_start(text@.subrange(from as int, n as int)),
        decreases n - from,
    {
        assert(text@.subrange(from as int, n as int).drop_first() =~= text@.subrange(
            from + 1,
            n as int,
        ));
        from += 1;
    }
    assert(trim_start(text@) == text@.subrange(from as int, n as int));
    let mut to: usize = n;
    while to > from && space(text[to - 1])
        invariant
            from <= to <= n == text.len(),
            trim(text@) == trim_end(text@.subrange(from as int, to as int)),
        decreases to,
    {
        assert(text@.subrange(from as int, to as int).drop_last() =~= text@.subrange(
            from as int,
            to - 1,
        ));
        to -= 1;
    }
    slice_of(text, from, to)
}

/// Whether `pattern` stands in `text` at place `at`.
pub open spec fn occurs_at(text: Seq<char>, pattern: Seq<char>, at: int) -> bool {
    &&& 0 <= at
    &&& at + pattern.len() <= text.len()
    &&& text.subrange(at, at + pattern.len()) == pattern
}

/// Whether `pattern` stands somewhere in `text`.
pub open spec fn contains(text: Seq<char>, pattern: Seq<char>) -> bool {
    exists|at: int| occurs_at(text, pattern, at)
}

/// Whether `at` is the first place at or after `from` where `pattern` stands
/// in `text`.
pub open spec fn is_first_occurrence(text: Seq<char>, pattern: Seq<char>, from: int, at: int) -> bool {
    &&& from <= at
    &&& occurs_at(text, pattern, at)
    &&& forall|j: int| from <= j < at ==> !occurs_at(text, pattern, j)
}

/// Whether `pattern` stands in `text` at place `at`.
pub fn matches_at(text: &Vec<char>, pattern: &Vec<char>, at: usize) -> (r: bool)
    ensures
        r == occurs_at(text@, pattern@, at as int),
{
    if pattern.len() > text.len() || at > text.len() - pattern.len() {
        return false;
    }
    let mut k: usize = 0;
    while k < pattern.len()
        invariant
            k <= pattern.len(),
            at + pattern.len() <= text.len(),
            forall|j: int| 0 <= j < k ==> text@[at + j] == pattern@[j],
        decreases pattern.len() - k,
    {
        if text[at + k] != pattern[k] {
            assert(text@.subrange(at as int, at + pattern.len())[k as int] != pattern@[k as int]);
            return false;
        }
        k += 1;
    }
    assert(text@.subrange(at as int, at + pattern.len()) =~= pattern@);
    true
}

/// The first place at or after `from` where `pattern` stands in `text`.
pub fn find(text: &Vec<char>, pattern: &Vec<char>, from: usize) -> (r: Option<usize>)
    ensures
        r matches Some(at) ==> is_first_occurrence(text@, pattern@, from as int, at as int),
        r is None ==> forall|j: int| from <= j ==> !occurs_at(text@, pattern@, j),
{
    let mut at: usize = from;
    while at < text.len()
        invariant
            from <= at,
            forall|j: int| from <= j < at ==> !occurs_at(text@, pattern@, j),
        decreases text.len() - at,
    {
        if matches_at(text, pattern, at) {
            return Some(at);
        }
        at += 1;
    }
    if matches_at(text, pattern, at) {
        return Some(at);
    }
    None
}

/// Where a scan of an expression stands: how many brackets and braces are
/// open, whether it is inside a quoted string, and whether the character
/// before was a backslash inside one.
pub struct Scan {
    pub depth: nat,
    pub quoted: bool,
    pub escaped: bool,
}

/// The scan before any character.
pub open spec fn scan_start() -> Scan {
    Scan { depth: 0, quoted: false, escaped: false }
}

/// The scan after one more character. Inside a string only a quote that no
/// backslash escapes changes anything; outside, a quote opens a string, `{`
/// and `[` open a level, and `}` and `]` close one where one is open.
pub open spec fn scan_step(st: Scan, c: char) -> Scan {
    if st.quoted {
        if st.escaped {
            Scan { escaped: false, ..st }
        } else if c == '\\' {
            Scan { escaped: true, ..st }
        } else if c == '"' {
            Scan { quoted: false, ..st }
        } else {
            st
        }
    } else if c == '"' {
        Scan { quoted: true, ..st }
    } else if c == '{' || c == '[' {
        Scan { depth: st.depth + 1, ..st }
    } else if (c == '}' || c == ']') && st.depth > 0 {
        Scan { depth: (st.depth - 1) as nat, ..st }
    } else {
        st
    }
}

/// The scan after the first `n` characters of the text, begun at `st`.
pub open spec fn scan_from(st: Scan, text: Seq<char>, n: int) -> Scan
    decreases n,
{
    if n <= 0 {
        st
    } else {
        scan_step(scan_from(st, text, n - 1), text[n - 1])
    }
}

/// The scan after the first `n` characters of the text.
pub open spec fn scan(text: Seq<char>, n: int) -> Scan {
    scan_from(scan_start(), text, n)
}

/// Whether a scan is outside every string, bracket and brace.
pub open spec fn is_outside(st: Scan) -> bool {
    st.depth == 0 && !st.quoted
}

/// Whether the character at place `i` stands at the top level of the text:
/// in no quoted string and inside no bracket or brace.
pub open spec fn top_level(text: Seq<char>, i: int) -> bool {
    is_outside(scan(text, i))
}

/// What a scan looks for.
#[derive(Clone, Copy, Debug, PartialEq, Eq, Structural)]
pub enum Mark {
    /// The pipe between two stages.
    Pipe,
    /// One of the five operator characters.
    Operator,
}

/// Whether the character is one that the scan looks for.
pub open spec fn is_mark(mark: Mark, c: char) -> bool {
    match mark {
        Mark::Pipe => c == '|',
        Mark::Operator => c == '+' || c == '-' || c == '*' || c == '/' || c == '%',
    }
}

/// Whether a marked character stands at the top level at place `p`.
pub open spec fn marked(text: Seq<char>, mark: Mark, p: int) -> bool {
    0 <= p < text.len() && top_level(text, p) && is_mark(mark, text[p])
}

/// Whether some marked character stands at the top level.
pub open spec fn has_mark(text: Seq<char>, mark: Mark) -> bool {
    exists|p: int| marked(text, mark, p)
}

/// Whether `p` is the place of the first marked character at the top level.
pub open spec fn is_first_mark(text: Seq<char>, mark: Mark, p: int) -> bool {
    marked(text, mark, p) && forall|j: int| 0 <= j < p ==> !marked(text, mark, j)
}

/// The place of the first marked character at the top level.
pub open spec fn first_mark(text: Seq<char>, mark: Mark) -> int {
    choose|p: int| is_first_mark(text, mark, p)
}

/// The first marked character is the only place that [`is_first_mark`] holds
/// of.
pub proof fn lemma_first_mark(text: Seq<char>, mark: Mark, p: int)
    requires
        is_first_mark(text, mark, p),
    ensures
        has_mark(text, mark),
        first_mark(text, mark) == p,
{
    let q = first_mark(text, mark);
    assert(is_first_mark(text, mark, q));
    if q < p {
        assert(!marked(text, mark, q));
    }
    if p < q {
        assert(!marked(text, mark, p));
    }
}

/// Whether the character is one that the scan looks for.
fn mark_char(mark: Mark, c: char) -> (r: bool)
    ensures
        r == is_mark(mark, c),
{
    match mark {
        Mark::Pipe => c == '|',
        Mark::Operator => c == '+' || c == '-' || c == '*' || c == '/' || c == '%',
    }
}

/// The place of the first marked character at the top level of the text.
pub fn find_mark(text: &Vec<char>, mark: Mark) -> (r: Option<usize>)
    ensures
        r is Some == has_mark(text@, mark),
        r matches Some(p) ==> is_first_mark(text@, mark, p as int) && p == first_mark(text@, mark),
{
    let mut depth: usize = 0;
    let mut quoted = false;
    let mut escaped = false;
    let mut i: usize = 0;
    while i < text.len()
        invariant
            i <= text.len(),
            depth <= i,
            scan(text@, i as int) == (Scan { depth: depth as nat, quoted, escaped }),
            forall|j: int| 0 <= j < i ==> !marked(text@, mark, j),
        decreases text.len() - i,
    {
        let c = text[i];
        if depth == 0 && !quoted && mark_char(mark, c) {
            proof {
                assert(marked(text@, mark, i as int));
                lemma_first_mark(text@, mark, i as int);
            }
            return Some(i);
        }
        assert(scan(text@, i + 1) == scan_step(scan(text@, i as int), c));
        if quoted {
            if escaped {
                escaped = false;
            } else if c == '\\' {
                escaped = true;
            } else if c == '"' {
                quoted = false;
            }
        } else if c == '"' {
            quoted = true;
        } else if c == '{' || c == '[' {
            depth += 1;
        } else if (c == '}' || c == ']') && depth > 0 {
            depth -= 1;
        }
        i += 1;
    }
    None
}

} // verus!
