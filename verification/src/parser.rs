//! Queries: stages joined by pipes, each a `length`, an operator chain or a
//! template, evaluated from left to right, the value of one stage being the
//! input of the next.

use crate::error::Error;
use crate::number::{double_of_int, fpu_model, fpu_ok, Arithmetic, Number};
use crate::operator::{chain_view, double_value, reduce, Operator, Unit};
use crate::template::{build, template_value, JsonParser};
use crate::text::{
    chars_of,
    contains,
    find,
    find_mark,
    first_mark,
    has_mark,
    is_first_mark,
    is_space,
    marked,
    occurs_at,
    slice_of,
    trim,
    trim_end,
    trim_start,
    trimmed,
    Mark,
};
use crate::validity::chain_wf;
use crate::value::{lemma_array_view, lemma_object_view, result_view, Json, Value};
use vstd::prelude::*;
use vstd::string::StrSliceExecFns;

verus! {

/// A stage, built over the input it was given: a template holds the value
/// that its text makes of the input, and an operator chain holds each
/// operand, resolved against the input, with the operator that stands before
/// it. The first operand has `Operator::Identity`.
#[derive(Debug)]
pub enum Parser {
    Template(Value),
    Length,
    OperatorChain(Vec<(Operator, Value)>),
}

/// The model of a stage.
pub enum Stage {
    Template(Json),
    Length,
    OperatorChain(Seq<(Operator, Json)>),
}

impl View for Parser {
    type V = Stage;

    open spec fn view(&self) -> Stage {
        match self {
            Parser::Template(value) => Stage::Template(value@),
            Parser::Length => Stage::Length,
            Parser::OperatorChain(chain) => Stage::OperatorChain(chain_view(chain@)),
        }
    }
}

impl Stage {
    /// Well-formedness: the value of a template and every operand of a chain
    /// are well-formed.
    pub open spec fn wf(self) -> bool {
        match self {
            Stage::Template(value) => value.wf(),
            Stage::Length => true,
            Stage::OperatorChain(chain) => chain_wf(chain),
        }
    }

    /// The invariant of a stage: a chain has at least one operand, its first
    /// operand stands with `Operator::Identity`, and every other operand
    /// stands with an operator that is not `Operator::Identity`.
    pub open spec fn inv(self) -> bool {
        match self {
            Stage::OperatorChain(chain) => {
                &&& chain.len() > 0
                &&& chain[0].0 == Operator::Identity
                &&& forall|i: int| 1 <= i < chain.len() ==> (#[trigger] chain[i]).0
                    != Operator::Identity
            },
            _ => true,
        }
    }

    /// Equality of stages: of the same form, with equal values, and in a
    /// chain the same operators.
    pub open spec fn same(self, other: Stage) -> bool {
        match (self, other) {
            (Stage::Template(a), Stage::Template(b)) => a.same(b),
            (Stage::Length, Stage::Length) => true,
            (Stage::OperatorChain(a), Stage::OperatorChain(b)) => a.len() == b.len()
                && forall|i: int|
                0 <= i < a.len() ==> (#[trigger] a[i]).0 == b[i].0 && a[i].1.same(b[i].1),
            _ => false,
        }
    }
}

impl Parser {
    /// Whether two stages are equal, as [`Stage::same`] says.
    pub fn equals(&self, other: &Parser) -> (r: bool)
        ensures
            r == self@.same(other@),
    {
        match (self, other) {
            (Parser::Template(a), Parser::Template(b)) => a.equals(b),
            (Parser::Length, Parser::Length) => true,
            (Parser::OperatorChain(a), Parser::OperatorChain(b)) => {
                if a.len() != b.len() {
                    return false;
                }
                let mut i: usize = 0;
                while i < a.len()
                    invariant
                        i <= a.len(),
                        a.len() == b.len(),
                        self@ == Stage::OperatorChain(chain_view(a@)),
                        other@ == Stage::OperatorChain(chain_view(b@)),
                        forall|k: int|
                            0 <= k < i ==> (#[trigger] chain_view(a@)[k]).0 == chain_view(b@)[k].0
                                && chain_view(a@)[k].1.same(chain_view(b@)[k].1),
                    decreases a.len() - i,
                {
                    if a[i].0 != b[i].0 || !a[i].1.equals(&b[i].1) {
                        assert(!(chain_view(a@)[i as int].0 == chain_view(b@)[i as int].0
                            && chain_view(a@)[i as int].1.same(chain_view(b@)[i as int].1)));
                        return false;
                    }
                    i += 1;
                }
                true
            },
            _ => false,
        }
    }
}

impl PartialEq for Parser {
    fn eq(&self, other: &Parser) -> (r: bool) {
        self.equals(other)
    }
}

impl vstd::std_specs::cmp::PartialEqSpecImpl for Parser {
    open spec fn obeys_eq_spec() -> bool {
        true
    }

    open spec fn eq_spec(&self, other: &Parser) -> bool {
        self@.same(other@)
    }
}

/// The model of what the building of a stage gives: the model of the stage,
/// or the error.
pub open spec fn stage_view(r: Result<Parser, Error>) -> Result<Stage, Error> {
    match r {
        Ok(stage) => Ok(stage@),
        Err(e) => Err(e),
    }
}

/// The word that asks for a length.
pub open spec fn length_keyword() -> Seq<char> {
    seq!['l', 'e', 'n', 'g', 't', 'h']
}

/// The operator that a character writes; `ignore_zero` is what a `Divide` or
/// a `Modulo` gets.
pub open spec fn operator_of(c: char, ignore_zero: bool) -> Operator {
    if c == '+' {
        Operator::Add
    } else if c == '-' {
        Operator::Subtract
    } else if c == '*' {
        Operator::Multiply
    } else if c == '/' {
        Operator::Divide { ignore_zero }
    } else if c == '%' {
        Operator::Modulo { ignore_zero }
    } else {
        Operator::Identity
    }
}

/// The operator that a text names: one operator character by itself, and
/// `Operator::Identity` for any other text. A `Divide` or a `Modulo` does not
/// pass over zero divisors.
pub open spec fn operator_named(text: Seq<char>) -> Operator {
    if text.len() == 1 {
        operator_of(text[0], false)
    } else {
        Operator::Identity
    }
}

impl<'a> From<&'a str> for Operator {
    fn from(val: &'a str) -> (r: Operator) {
        let text = chars_of(val);
        if text.len() == 1 {
            operator_for(text[0], false)
        } else {
            Operator::Identity
        }
    }
}

impl<'a> vstd::std_specs::convert::FromSpecImpl<&'a str> for Operator {
    open spec fn obeys_from_spec() -> bool {
        true
    }

    open spec fn from_spec(val: &'a str) -> Operator {
        operator_named(val@)
    }
}

/// The two parts of a query: the first stage, trimmed, and what stands after
/// the first pipe at the top level, where there is one.
pub open spec fn pipe_parts(text: Seq<char>) -> (Seq<char>, Option<Seq<char>>) {
    if has_mark(text, Mark::Pipe) {
        let p = first_mark(text, Mark::Pipe);
        (trim(text.subrange(0, p)), Some(text.subrange(p + 1, text.len() as int)))
    } else {
        (trim(text), None)
    }
}

/// Whether the text before an operator begins with `(` and the text after it
/// ends with `)?`.
pub open spec fn is_wrapped(pre: Seq<char>, post: Seq<char>) -> bool {
    &&& pre.len() > 0
    &&& pre[0] == '('
    &&& post.len() >= 2
    &&& post[post.len() - 2] == ')'
    &&& post[post.len() - 1] == '?'
}

/// Trimming the beginning makes a text no longer.
pub proof fn lemma_trim_start(s: Seq<char>)
    ensures
        trim_start(s).len() <= s.len(),
    decreases s.len(),
{
    if s.len() > 0 && is_space(s[0]) {
        lemma_trim_start(s.drop_first());
    }
}

/// Trimming the end makes a text no longer.
pub proof fn lemma_trim_end(s: Seq<char>)
    ensures
        trim_end(s).len() <= s.len(),
    decreases s.len(),
{
    if s.len() > 0 && is_space(s.last()) {
        lemma_trim_end(s.drop_last());
    }
}

/// Trimming makes a text no longer.
pub proof fn lemma_trim(s: Seq<char>)
    ensures
        trim(s).len() <= s.len(),
{
    lemma_trim_start(s);
    lemma_trim_end(trim_start(s));
}

/// The operands of a chain, each with the operator that stands before it.
/// `before` is the operator before the whole text, and `ignore_zero` says
/// whether a `(` ... `)?` has been met so far.
///
/// The text is parted at its first operator at the top level, and what
/// stands on either side is trimmed. Where the left side begins with `(` and
/// the right side ends with `)?`, both are taken off and every `Divide` and
/// `Modulo` from here on is told to pass over zero divisors. The left side
/// is an operand; the right side is parted in the same way. A text with no
/// operator is the last operand, and no operand at all where it is empty.
pub open spec fn chain_texts(text: Seq<char>, before: Operator, ignore_zero: bool) -> Seq<
    (Operator, Seq<char>),
>
    decreases text.len(),
{
    if has_mark(text, Mark::Operator) {
        let p = first_mark(text, Mark::Operator);
        let pre = trim(text.subrange(0, p));
        let post = trim(text.subrange(p + 1, text.len() as int));
        let wrapped = is_wrapped(pre, post);
        let ignore = ignore_zero || wrapped;
        let operand = if wrapped {
            pre.drop_first()
        } else {
            pre
        };
        let rest = if wrapped {
            post.subrange(0, post.len() - 2)
        } else {
            post
        };
        proof {
            lemma_mark_place(text, Mark::Operator);
            lemma_trim(text.subrange(p + 1, text.len() as int));
        }
        seq![(before, operand)] + chain_texts(rest, operator_of(text[p], ignore), ignore)
    } else if text.len() > 0 {
        seq![(before, text)]
    } else {
        Seq::empty()
    }
}

/// A text that has a mark has a first one.
pub proof fn lemma_mark_place(text: Seq<char>, mark: Mark)
    requires
        has_mark(text, mark),
    ensures
        is_first_mark(text, mark, first_mark(text, mark)),
{
    let w = choose|p: int| marked(text, mark, p);
    lemma_mark_before(text, mark, w);
}

/// A text with a marked character at `w` has a first one.
proof fn lemma_mark_before(text: Seq<char>, mark: Mark, w: int)
    requires
        marked(text, mark, w),
    ensures
        is_first_mark(text, mark, first_mark(text, mark)),
    decreases w,
{
    if forall|j: int| 0 <= j < w ==> !marked(text, mark, j) {
        assert(is_first_mark(text, mark, w));
    } else {
        let j = choose|j: int| 0 <= j < w && marked(text, mark, j);
        lemma_mark_before(text, mark, j);
    }
}

/// The operands of a text with an operator at its top level: there is at
/// least one, the first stands with `before`, and every other one stands with
/// an operator that is not `Operator::Identity`.
pub proof fn lemma_chain_texts(text: Seq<char>, before: Operator, ignore_zero: bool)
    requires
        has_mark(text, Mark::Operator),
    ensures
        chain_texts(text, before, ignore_zero).len() > 0,
        chain_texts(text, before, ignore_zero)[0].0 == before,
        forall|i: int|
            1 <= i < chain_texts(text, before, ignore_zero).len() ==> (#[trigger] chain_texts(
                text,
                before,
                ignore_zero,
            )[i]).0 != Operator::Identity,
    decreases text.len(),
{
    lemma_mark_place(text, Mark::Operator);
    let p = first_mark(text, Mark::Operator);
    let pre = trim(text.subrange(0, p));
    let post = trim(text.subrange(p + 1, text.len() as int));
    let wrapped = is_wrapped(pre, post);
    let ignore = ignore_zero || wrapped;
    let operand = if wrapped {
        pre.drop_first()
    } else {
        pre
    };
    let rest = if wrapped {
        post.subrange(0, post.len() - 2)
    } else {
        post
    };
    let operator = operator_of(text[p], ignore);
    assert(operator != Operator::Identity);
    lemma_trim(text.subrange(p + 1, text.len() as int));
    let tail = chain_texts(rest, operator, ignore);
    let whole = chain_texts(text, before, ignore_zero);
    assert(whole == seq![(before, operand)] + tail);
    if has_mark(rest, Mark::Operator) {
        lemma_chain_texts(rest, operator, ignore);
    }
    assert forall|i: int| 1 <= i < whole.len() implies (#[trigger] whole[i]).0
        != Operator::Identity by {
        assert(whole[i] == tail[i - 1]);
        if has_mark(rest, Mark::Operator) {
            if i - 1 >= 1 {
                assert(tail[i - 1].0 != Operator::Identity);
            }
        } else {
            assert(tail.len() <= 1);
        }
    }
}

/// The operands of a chain, where every one resolves, are as many as their
/// texts and stand with the same operators.
pub proof fn lemma_chain_values(texts: Seq<(Operator, Seq<char>)>, input: Json, n: nat)
    requires
        n <= texts.len(),
    ensures
        chain_values(texts, input, n) matches Ok(chain) ==> chain.len() == n && forall|i: int|
            0 <= i < n ==> (#[trigger] chain[i]).0 == texts[i].0,
    decreases n,
{
    if n > 0 {
        lemma_chain_values(texts, input, (n - 1) as nat);
    }
}

/// The stage that a text is keeps the invariant of stages.
pub proof fn lemma_stage_inv(text: Seq<char>, input: Json)
    ensures
        stage_of(text, input) matches Ok(stage) ==> stage.inv(),
{
    if !contains(text, length_keyword()) && has_mark(text, Mark::Operator) {
        let texts = chain_texts(text, Operator::Identity, false);
        lemma_chain_texts(text, Operator::Identity, false);
        lemma_chain_values(texts, input, texts.len());
    }
}

/// The first `n` operands of a chain, each resolved against the input as a
/// template. The first operand that is no template gives the error.
pub open spec fn chain_values(texts: Seq<(Operator, Seq<char>)>, input: Json, n: nat) -> Result<
    Seq<(Operator, Json)>,
    Error,
>
    decreases n,
{
    if n == 0 || n > texts.len() {
        Ok(Seq::empty())
    } else {
        match chain_values(texts, input, (n - 1) as nat) {
            Err(e) => Err(e),
            Ok(done) => match template_value(texts[n - 1].1, input) {
                Ok(value) => Ok(done.push((texts[n - 1].0, value))),
                Err(e) => Err(e),
            },
        }
    }
}

/// The stage that a text is, built over an input. A text that holds the
/// word `length` is a length; else one with an operator at its top level is
/// an operator chain; else it is a template.
pub open spec fn stage_of(text: Seq<char>, input: Json) -> Result<Stage, Error> {
    if contains(text, length_keyword()) {
        Ok(Stage::Length)
    } else if has_mark(text, Mark::Operator) {
        let texts = chain_texts(text, Operator::Identity, false);
        match chain_values(texts, input, texts.len()) {
            Ok(chain) => Ok(Stage::OperatorChain(chain)),
            Err(e) => Err(e),
        }
    } else {
        match template_value(text, input) {
            Ok(value) => Ok(Stage::Template(value)),
            Err(e) => Err(e),
        }
    }
}

/// The number that a count is, as a double.
pub open spec fn count_value(n: nat) -> Json {
    double_value(double_of_int(n as int))
}

/// The length of a value: the number of items of an array, of fields of an
/// object, of characters of a string, each as a double; a number itself, as
/// a double. Nothing else has a length.
pub open spec fn length(x: Json) -> Result<Json, Error> {
    match x {
        Json::Array(items) => Ok(count_value(items.len())),
        Json::Object(fields) => Ok(count_value(fields.len())),
        Json::String(s) => Ok(count_value(s.len())),
        Json::Number(n) => Ok(double_value(n.double())),
        _ => Err(Error::UnsupportedLength),
    }
}

/// The value of a stage for an input. A chain with no operand is a syntax
/// error.
pub open spec fn stage_value(unit: Unit, stage: Stage, input: Json) -> Result<Json, Error> {
    match stage {
        Stage::Template(value) => Ok(value),
        Stage::Length => length(input),
        Stage::OperatorChain(chain) => if chain.len() > 0 {
            reduce(unit, chain, chain.len())
        } else {
            Err(Error::Syntax)
        },
    }
}

/// What one stage makes of an input.
pub open spec fn query(unit: Unit, text: Seq<char>, input: Json) -> Result<Json, Error> {
    match stage_of(text, input) {
        Ok(stage) => stage_value(unit, stage, input),
        Err(e) => Err(e),
    }
}

/// What a query makes of an input. The text is parted at its first pipe at
/// the top level; what stands before it, trimmed, is a stage, and its value
/// is the input of the query that stands after it. A text with no pipe at
/// the top level is, trimmed, the last stage. The first stage that fails
/// gives the error.
pub open spec fn evaluate(unit: Unit, text: Seq<char>, input: Json) -> Result<Json, Error>
    decreases text.len(),
{
    if has_mark(text, Mark::Pipe) {
        let p = first_mark(text, Mark::Pipe);
        proof {
            lemma_mark_place(text, Mark::Pipe);
        }
        match query(unit, trim(text.subrange(0, p)), input) {
            Ok(value) => evaluate(unit, text.subrange(p + 1, text.len() as int), value),
            Err(e) => Err(e),
        }
    } else {
        query(unit, trim(text), input)
    }
}

/// The models of the operands of a chain that are still text.
pub open spec fn texts_view(texts: Seq<(Operator, Vec<char>)>) -> Seq<(Operator, Seq<char>)> {
    Seq::new(texts.len(), |i: int| (texts[i].0, texts[i].1@))
}

/// The operator that a character writes.
fn operator_for(c: char, ignore_zero: bool) -> (r: Operator)
    ensures
        r == operator_of(c, ignore_zero),
{
    if c == '+' {
        Operator::Add
    } else if c == '-' {
        Operator::Subtract
    } else if c == '*' {
        Operator::Multiply
    } else if c == '/' {
        Operator::Divide { ignore_zero }
    } else if c == '%' {
        Operator::Modulo { ignore_zero }
    } else {
        Operator::Identity
    }
}

/// The operands of a chain, each with the operator that stands before it.
pub fn split_chain(text: &Vec<char>) -> (r: Vec<(Operator, Vec<char>)>)
    ensures
        texts_view(r@) == chain_texts(text@, Operator::Identity, false),
{
    let mut out: Vec<(Operator, Vec<char>)> = Vec::new();
    let mut rest: Vec<char> = slice_of(text, 0, text.len());
    let mut before = Operator::Identity;
    let mut ignore = false;
    let mut done = false;
    assert(text@.subrange(0, text@.len() as int) =~= text@);
    assert(texts_view(out@) =~= Seq::empty());
    assert(Seq::<(Operator, Seq<char>)>::empty() + chain_texts(text@, before, ignore)
        =~= chain_texts(text@, before, ignore));
    while !done
        invariant
            !done ==> chain_texts(text@, Operator::Identity, false) == texts_view(out@)
                + chain_texts(rest@, before, ignore),
            done ==> chain_texts(text@, Operator::Identity, false) == texts_view(out@),
        decreases rest.len() + (if done { 0int } else { 1int }),
    {
        let ghost so_far = texts_view(out@);
        match find_mark(&rest, Mark::Operator) {
            Some(p) => {
                let pre = trimmed(&slice_of(&rest, 0, p));
                let post = trimmed(&slice_of(&rest, p + 1, rest.len()));
                let wrapped = pre.len() > 0 && pre[0] == '(' && post.len() >= 2 && post[post.len()
                    - 2] == ')' && post[post.len() - 1] == '?';
                let operand = if wrapped {
                    assert(pre@.subrange(1, pre@.len() as int) =~= pre@.drop_first());
                    slice_of(&pre, 1, pre.len())
                } else {
                    pre
                };
                let next = if wrapped {
                    slice_of(&post, 0, post.len() - 2)
                } else {
                    post
                };
                ignore = ignore || wrapped;
                let operator = operator_for(rest[p], ignore);
                proof {
                    lemma_trim(rest@.subrange(p + 1, rest@.len() as int));
                }
                out.push((before, operand));
                proof {
                    assert(texts_view(out@) =~= so_far.push((before, operand@)));
                    assert(so_far + (seq![(before, operand@)] + chain_texts(
                        next@,
                        operator,
                        ignore,
                    )) =~= texts_view(out@) + chain_texts(next@, operator, ignore));
                }
                before = operator;
                rest = next;
            },
            None => {
                if rest.len() > 0 {
                    let ghost last = rest@;
                    out.push((before, rest));
                    proof {
                        assert(texts_view(out@) =~= so_far.push((before, last)));
                        assert(so_far + seq![(before, last)] =~= texts_view(out@));
                    }
                    rest = Vec::new();
                } else {
                    assert(so_far + Seq::<(Operator, Seq<char>)>::empty() =~= so_far);
                }
                done = true;
            },
        }
    }
    out
}

/// Once an operand has failed to resolve, every longer run of operands fails
/// in the same way.
pub proof fn lemma_chain_fails(texts: Seq<(Operator, Seq<char>)>, input: Json, n: nat, m: nat)
    requires
        n <= m <= texts.len(),
        chain_values(texts, input, n) is Err,
    ensures
        chain_values(texts, input, m) == chain_values(texts, input, n),
    decreases m,
{
    if n < m {
        lemma_chain_fails(texts, input, n, (m - 1) as nat);
    }
}

impl Parser {
    /// The two parts of a query: its first stage, and what stands after the
    /// pipe that ends it.
    pub fn split_pipe(data: &Vec<char>) -> (r: (Vec<char>, Option<Vec<char>>))
        ensures
            r.0@ == pipe_parts(data@).0,
            match r.1 {
                Some(post) => pipe_parts(data@).1 == Some(post@),
                None => pipe_parts(data@).1 is None,
            },
    {
        match find_mark(data, Mark::Pipe) {
            Some(p) => {
                assert(marked(data@, Mark::Pipe, p as int));
                let n = data.len();
                (trimmed(&slice_of(data, 0, p)), Some(slice_of(data, p + 1, n)))
            },
            None => (trimmed(data), None),
        }
    }

    /// The length of a value.
    pub fn get_json_length(json_data: &Value) -> (r: Result<Value, Error>)
        ensures
            result_view(r) == length(json_data@),
            r matches Ok(v) ==> v@.wf(),
    {
        let number = match json_data {
            Value::Array(items) => {
                proof {
                    lemma_array_view(*items);
                }
                Number::PosInt(items.len() as u64)
            },
            Value::Object(fields) => {
                proof {
                    lemma_object_view(*fields);
                }
                Number::PosInt(fields.len() as u64)
            },
            Value::String(s) => Number::PosInt(s.as_str().unicode_len() as u64),
            Value::Number(n) => *n,
            _ => {
                return Err(Error::UnsupportedLength);
            },
        };
        match Number::from_double(number.as_double()) {
            Some(n) => Ok(Value::Number(n)),
            None => Ok(Value::Null),
        }
    }

    /// The stage that a text is, built over an input.
    pub fn parse_pipe(json_data: &Value, data: String) -> (r: Result<Parser, Error>)
        ensures
            stage_view(r) == stage_of(data@, json_data@),
            r matches Ok(stage) ==> stage@.inv(),
            json_data@.wf() ==> (r matches Ok(stage) ==> stage@.wf()),
    {
        Self::stage(json_data, &chars_of(data.as_str()))
    }

    /// The stage that a text is, built over an input.
    pub fn stage(json_data: &Value, data: &Vec<char>) -> (r: Result<Parser, Error>)
        ensures
            stage_view(r) == stage_of(data@, json_data@),
            r matches Ok(stage) ==> stage@.inv(),
            json_data@.wf() ==> (r matches Ok(stage) ==> stage@.wf()),
    {
        proof {
            lemma_stage_inv(data@, json_data@);
        }
        let mut keyword: Vec<char> = Vec::new();
        keyword.push('l');
        keyword.push('e');
        keyword.push('n');
        keyword.push('g');
        keyword.push('t');
        keyword.push('h');
        assert(keyword@ =~= length_keyword());
        match find(data, &keyword, 0) {
            Some(at) => {
                assert(occurs_at(data@, length_keyword(), at as int));
                return Ok(Parser::Length);
            },
            None => {
                assert(!contains(data@, length_keyword()));
            },
        }
        if find_mark(data, Mark::Operator).is_some() {
            let texts = split_chain(data);
            let ghost models = texts_view(texts@);
            let mut chain: Vec<(Operator, Value)> = Vec::new();
            let mut i: usize = 0;
            assert(chain_view(chain@) =~= Seq::empty());
            while i < texts.len()
                invariant
                    i <= texts.len(),
                    models == texts_view(texts@),
                    models == chain_texts(data@, Operator::Identity, false),
                    !contains(data@, length_keyword()),
                    has_mark(data@, Mark::Operator),
                    json_data@.wf() ==> chain_wf(chain_view(chain@)),
                    chain_values(models, json_data@, i as nat) == Ok::<
                        Seq<(Operator, Json)>,
                        Error,
                    >(chain_view(chain@)),
                decreases texts.len() - i,
            {
                let ghost before = chain_view(chain@);
                match build(&texts[i].1, json_data) {
                    Ok(value) => {
                        chain.push((texts[i].0, value));
                        assert(chain_view(chain@) =~= before.push((texts@[i as int].0, value@)));
                    },
                    Err(e) => {
                        proof {
                            lemma_chain_fails(models, json_data@, i as nat + 1, models.len());
                        }
                        return Err(e);
                    },
                }
                i += 1;
            }
            Ok(Parser::OperatorChain(chain))
        } else {
            match build(data, json_data) {
                Ok(value) => Ok(Parser::Template(value)),
                Err(e) => Err(e),
            }
        }
    }

    /// What one stage makes of an input.
    pub fn query<F: Fn(Arithmetic, u64, u64) -> u64>(
        json_data: &Value,
        query: &Vec<char>,
        fpu: &F,
    ) -> (r: Result<Value, Error>)
        requires
            fpu_ok(*fpu),
        ensures
            result_view(r) == self::query(fpu_model(*fpu), query@, json_data@),
            json_data@.wf() ==> (r matches Ok(v) ==> v@.wf()),
    {
        match Self::stage(json_data, query) {
            Ok(Parser::Template(value)) => Ok(value),
            Ok(Parser::Length) => Self::get_json_length(json_data),
            Ok(Parser::OperatorChain(chain)) => {
                if chain.len() > 0 {
                    JsonParser::json_data_operator(&chain, fpu)
                } else {
                    Err(Error::Syntax)
                }
            },
            Err(e) => Err(e),
        }
    }

    /// What a query makes of an input.
    pub fn parse<F: Fn(Arithmetic, u64, u64) -> u64>(json_data: Value, data: &str, fpu: &F) -> (r:
        Result<Value, Error>)
        requires
            fpu_ok(*fpu),
        ensures
            result_view(r) == evaluate(fpu_model(*fpu), data@, json_data@),
            json_data@.wf() ==> (r matches Ok(v) ==> v@.wf()),
    {
        let ghost unit = fpu_model(*fpu);
        let mut value = json_data;
        let mut rest = chars_of(data);
        loop
            invariant
                fpu_ok(*fpu),
                unit == fpu_model(*fpu),
                evaluate(unit, data@, json_data@) == evaluate(unit, rest@, value@),
                json_data@.wf() ==> value@.wf(),
            decreases rest.len(),
        {
            let (pre, post) = Self::split_pipe(&rest);
            proof {
                if has_mark(rest@, Mark::Pipe) {
                    lemma_mark_place(rest@, Mark::Pipe);
                }
            }
            match Self::query(&value, &pre, fpu) {
                Ok(next) => match post {
                    Some(post) => {
                        value = next;
                        rest = post;
                    },
                    None => {
                        return Ok(next);
                    },
                },
                Err(e) => {
                    return Err(e);
                },
            }
        }
    }
}

} // verus!
