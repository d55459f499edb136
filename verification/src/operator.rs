//! The five operators and what each makes of two values.
//!
//! Which operation an operator stands for depends on the types of its two
//! operands; a pair of types that an operator does not combine is a
//! [`Error::TypeMismatch`]. Numbers are combined as doubles, by the caller's
//! floating-point unit, whatever form they had; a result that is no finite
//! double is null.

use crate::error::Error;
use crate::number::{compute, fpu_model, fpu_ok, Arithmetic, Number};
use crate::template::JsonParser;
use crate::text::{chars_of, find, is_first_occurrence, occurs_at, slice_of, string_of};
use crate::validity::{
    chain_wf,
    lemma_difference_wf,
    lemma_division_wf,
    lemma_product_wf,
    lemma_quotient_wf,
    lemma_reduce_wf,
    lemma_sum_wf,
};
use crate::value::{
    fields_view,
    find_key,
    has_key,
    insert,
    insert_field,
    items_view,
    lemma_array_view,
    lemma_object_view,
    lookup,
    result_view,
    Fields,
    Json,
    Kind,
    Value,
};
use vstd::prelude::*;

verus! {

/// An operator of a chain. `Divide` and `Modulo` say whether a zero divisor
/// among the items of an array is passed over; `Identity` stands with the
/// first operand, which has nothing on its left.
#[derive(Clone, Copy, Debug, PartialEq, Eq, Structural)]
pub enum Operator {
    Add,
    Subtract,
    Multiply,
    Divide { ignore_zero: bool },
    Modulo { ignore_zero: bool },
    Identity,
}

/// The function of a floating-point unit.
pub type Unit = spec_fn(Arithmetic, u64, u64) -> u64;

/// The value that a double stands for: the number, or null for an infinity
/// or a NaN.
pub open spec fn double_value(bits: u64) -> Json {
    match Number::of_double(bits) {
        Some(n) => Json::Number(n),
        None => Json::Null,
    }
}

/// What the unit makes of two numbers, taken as doubles.
pub open spec fn arithmetic(unit: Unit, op: Arithmetic, a: Number, b: Number) -> Json {
    double_value(unit(op, a.double(), b.double()))
}

/// The error of an operator that does not combine the types of its operands.
pub open spec fn mismatch(x: Json, y: Json) -> Error {
    Error::TypeMismatch { left: x.kind(), right: y.kind() }
}

/// The fields of `a` with the first `n` fields of `b` set in them, one after
/// the other.
pub open spec fn merge(a: Fields, b: Fields, n: nat) -> Fields
    decreases n,
{
    if n == 0 || n > b.len() {
        a
    } else {
        insert(merge(a, b, (n - 1) as nat), b[n - 1].0, b[n - 1].1)
    }
}

/// The sum of two values: arrays and strings are joined, the fields of the
/// right object are set in the left one, numbers are added, and a number and
/// null give the number.
pub open spec fn sum(unit: Unit, x: Json, y: Json) -> Result<Json, Error> {
    match (x, y) {
        (Json::Array(a), Json::Array(b)) => Ok(Json::Array(a + b)),
        (Json::Object(a), Json::Object(b)) => Ok(Json::Object(merge(a, b, b.len()))),
        (Json::Number(a), Json::Number(b)) => Ok(arithmetic(unit, Arithmetic::Add, a, b)),
        (Json::String(a), Json::String(b)) => Ok(Json::String(a + b)),
        (Json::Number(a), Json::Null) => Ok(x),
        (Json::Null, Json::Number(b)) => Ok(y),
        _ => Err(mismatch(x, y)),
    }
}

/// Whether some item equals the value.
pub open spec fn is_among(x: Json, items: Seq<Json>) -> bool {
    exists|j: int| 0 <= j < items.len() && (#[trigger] items[j]).same(x)
}

/// Those of the first `n` items of `a` that are not among `b`, in their
/// order.
pub open spec fn without(a: Seq<Json>, b: Seq<Json>, n: nat) -> Seq<Json>
    decreases n,
{
    if n == 0 || n > a.len() {
        Seq::empty()
    } else if is_among(a[n - 1], b) {
        without(a, b, (n - 1) as nat)
    } else {
        without(a, b, (n - 1) as nat).push(a[n - 1])
    }
}

/// The difference of two values: the items of the left array that are not
/// among those of the right one, or the difference of two numbers.
pub open spec fn difference(unit: Unit, x: Json, y: Json) -> Result<Json, Error> {
    match (x, y) {
        (Json::Array(a), Json::Array(b)) => Ok(Json::Array(without(a, b, a.len()))),
        (Json::Number(a), Json::Number(b)) => Ok(arithmetic(unit, Arithmetic::Subtract, a, b)),
        _ => Err(mismatch(x, y)),
    }
}

/// What the unit makes of two numbers, as a value.
pub fn combine<F: Fn(Arithmetic, u64, u64) -> u64>(
    fpu: &F,
    op: Arithmetic,
    a: &Number,
    b: &Number,
) -> (r: Value)
    requires
        fpu_ok(*fpu),
    ensures
        r@ == arithmetic(fpu_model(*fpu), op, *a, *b),
        r@.wf(),
{
    let bits = compute(fpu, op, a.as_double(), b.as_double());
    match Number::from_double(bits) {
        Some(n) => Value::Number(n),
        None => Value::Null,
    }
}

/// The error of an operator that does not combine the types of its operands.
pub fn mismatch_of(x: &Value, y: &Value) -> (r: Error)
    ensures
        r == mismatch(x@, y@),
{
    Error::TypeMismatch { left: x.kind(), right: y.kind() }
}

/// Puts a copy of each item at the end of `out`.
fn push_clones(out: &mut Vec<Value>, items: &Vec<Value>)
    ensures
        items_view(final(out)@) == items_view(old(out)@) + items_view(items@),
{
    let mut i: usize = 0;
    while i < items.len()
        invariant
            i <= items.len(),
            items_view(out@) == items_view(old(out)@) + items_view(items@).take(i as int),
        decreases items.len() - i,
    {
        let ghost before = items_view(out@);
        let item = items[i].clone();
        out.push(item);
        assert(items_view(out@) =~= before.push(items@[i as int]@));
        assert(items_view(items@).take(i + 1) =~= items_view(items@).take(i as int).push(
            items@[i as int]@,
        ));
        i += 1;
    }
    assert(items_view(items@).take(i as int) =~= items_view(items@));
}

/// A copy of the fields.
fn clone_fields(fields: &Vec<(String, Value)>) -> (r: Vec<(String, Value)>)
    ensures
        fields_view(r@) == fields_view(fields@),
{
    let mut out: Vec<(String, Value)> = Vec::new();
    let mut i: usize = 0;
    while i < fields.len()
        invariant
            i <= fields.len(),
            fields_view(out@) == fields_view(fields@).take(i as int),
        decreases fields.len() - i,
    {
        let ghost before = fields_view(out@);
        let value = fields[i].1.clone();
        out.push((fields[i].0.clone(), value));
        assert(fields_view(out@) =~= before.push((fields@[i as int].0@, fields@[i as int].1@)));
        assert(fields_view(fields@).take(i + 1) =~= fields_view(fields@).take(i as int).push(
            (fields@[i as int].0@, fields@[i as int].1@),
        ));
        i += 1;
    }
    assert(fields_view(fields@).take(i as int) =~= fields_view(fields@));
    out
}

/// The model of a value has the variant of the value.
pub proof fn lemma_kinds(v: &Value)
    ensures
        v is Null == v@ is Null,
        v is Bool == v@ is Bool,
        v is Number == v@ is Number,
        v is String == v@ is String,
        v is Array == v@ is Array,
        v is Object == v@ is Object,
        v matches Value::Array(items) ==> v@ == Json::Array(items_view(items@)),
        v matches Value::Object(fields) ==> v@ == Json::Object(fields_view(fields@)),
{
    match v {
        Value::Array(items) => {
            lemma_array_view(*items);
        },
        Value::Object(fields) => {
            lemma_object_view(*fields);
        },
        _ => {},
    }
}

/// Whether some item equals the value.
fn among(x: &Value, items: &Vec<Value>) -> (r: bool)
    ensures
        r == is_among(x@, items_view(items@)),
{
    let mut j: usize = 0;
    while j < items.len()
        invariant
            j <= items.len(),
            forall|k: int| 0 <= k < j ==> !(#[trigger] items_view(items@)[k]).same(x@),
        decreases items.len() - j,
    {
        if items[j].equals(x) {
            assert(items_view(items@)[j as int].same(x@));
            return true;
        }
        j += 1;
    }
    false
}

/// The text `n` times over.
pub open spec fn repeat(s: Seq<char>, n: nat) -> Seq<char>
    decreases n,
{
    if n == 0 {
        Seq::empty()
    } else {
        repeat(s, (n - 1) as nat) + s
    }
}

/// A string a number of times over: null for zero times, and a mismatch for
/// a number that is no integer of zero or more.
pub open spec fn repetition(s: Seq<char>, n: Number, x: Json, y: Json) -> Result<Json, Error> {
    match n {
        Number::PosInt(count) => if count == 0 {
            Ok(Json::Null)
        } else {
            Ok(Json::String(repeat(s, count as nat)))
        },
        _ => Err(mismatch(x, y)),
    }
}

/// The product of two values: two objects are merged, two numbers are
/// multiplied, and a string and a number give the string that many times
/// over.
pub open spec fn product(unit: Unit, x: Json, y: Json) -> Result<Json, Error>
    decreases x, 0nat,
{
    match (x, y) {
        (Json::Object(a), Json::Object(b)) => match product_fields(unit, a, b, a.len()) {
            Ok(fields) => Ok(Json::Object(merge_missing(fields, a, b, b.len()))),
            Err(e) => Err(e),
        },
        (Json::Number(a), Json::Number(b)) => Ok(arithmetic(unit, Arithmetic::Multiply, a, b)),
        (Json::String(s), Json::Number(n)) => repetition(s, n, x, y),
        (Json::Number(n), Json::String(s)) => repetition(s, n, x, y),
        _ => Err(mismatch(x, y)),
    }
}

/// The first `n` fields of `a`, each multiplied with the field of its name
/// in `b` where `b` has one, and as it is where `b` has none. The first
/// field whose product fails gives the error.
pub open spec fn product_fields(unit: Unit, a: Fields, b: Fields, n: nat) -> Result<Fields, Error>
    decreases a, n,
{
    if n == 0 || n > a.len() {
        Ok(Seq::empty())
    } else {
        match product_fields(unit, a, b, (n - 1) as nat) {
            Err(e) => Err(e),
            Ok(done) => match lookup(b, a[n - 1].0) {
                Some(other) => match product(unit, a[n - 1].1, other) {
                    Ok(value) => Ok(insert(done, a[n - 1].0, value)),
                    Err(e) => Err(e),
                },
                None => Ok(insert(done, a[n - 1].0, a[n - 1].1)),
            },
        }
    }
}

/// The fields with those of the first `n` fields of `b` set in them whose
/// name `a` does not have.
pub open spec fn merge_missing(fields: Fields, a: Fields, b: Fields, n: nat) -> Fields
    decreases n,
{
    if n == 0 || n > b.len() {
        fields
    } else if has_key(a, b[n - 1].0) {
        merge_missing(fields, a, b, (n - 1) as nat)
    } else {
        insert(merge_missing(fields, a, b, (n - 1) as nat), b[n - 1].0, b[n - 1].1)
    }
}

/// The error of a zero divisor.
pub open spec fn zero_error(op: Arithmetic) -> Error {
    if op == Arithmetic::Remainder {
        Error::ModuloByZero
    } else {
        Error::DivisionByZero
    }
}

/// A number divided by each of the first `n` items of an array, in their
/// order. An item that is no number is a mismatch; an item that is zero is
/// passed over where `ignore_zero` is set, and an error where it is not. The
/// first item that fails gives the error.
pub open spec fn spread(
    unit: Unit,
    op: Arithmetic,
    numerator: Number,
    items: Seq<Json>,
    ignore_zero: bool,
    n: nat,
) -> Result<Seq<Json>, Error>
    decreases n,
{
    if n == 0 || n > items.len() {
        Ok(Seq::empty())
    } else {
        match spread(unit, op, numerator, items, ignore_zero, (n - 1) as nat) {
            Err(e) => Err(e),
            Ok(done) => match items[n - 1] {
                Json::Number(divisor) => if divisor.is_zero() {
                    if ignore_zero {
                        Ok(done)
                    } else {
                        Err(zero_error(op))
                    }
                } else {
                    Ok(done.push(arithmetic(unit, op, numerator, divisor)))
                },
                _ => Err(Error::TypeMismatch { left: Kind::Number, right: Kind::Array }),
            },
        }
    }
}

/// Each of the first `n` items of an array divided by a number that is not
/// zero. An item that is no number is a mismatch.
pub open spec fn scale(unit: Unit, op: Arithmetic, items: Seq<Json>, divisor: Number, n: nat) -> Result<
    Seq<Json>,
    Error,
>
    decreases n,
{
    if n == 0 || n > items.len() {
        Ok(Seq::empty())
    } else {
        match scale(unit, op, items, divisor, (n - 1) as nat) {
            Err(e) => Err(e),
            Ok(done) => match items[n - 1] {
                Json::Number(numerator) => Ok(done.push(arithmetic(unit, op, numerator, divisor))),
                _ => Err(Error::TypeMismatch { left: Kind::Array, right: Kind::Number }),
            },
        }
    }
}

/// Division, or its remainder, where a number is on one side at least. Two
/// numbers are divided, and a zero divisor is an error whatever
/// `ignore_zero` says. A number over an array is divided by each item, as
/// [`spread`] says. An array over a number has each item divided by it, as
/// [`scale`] says; where the number is zero, the result is null where
/// `ignore_zero` is set and an error where it is not.
pub open spec fn division(unit: Unit, op: Arithmetic, x: Json, y: Json, ignore_zero: bool) -> Result<
    Json,
    Error,
> {
    match (x, y) {
        (Json::Number(numerator), Json::Array(items)) => match spread(
            unit,
            op,
            numerator,
            items,
            ignore_zero,
            items.len(),
        ) {
            Ok(done) => Ok(Json::Array(done)),
            Err(e) => Err(e),
        },
        (Json::Array(items), Json::Number(divisor)) => if divisor.is_zero() {
            if ignore_zero {
                Ok(Json::Null)
            } else {
                Err(zero_error(op))
            }
        } else {
            match scale(unit, op, items, divisor, items.len()) {
                Ok(done) => Ok(Json::Array(done)),
                Err(e) => Err(e),
            }
        },
        (Json::Number(numerator), Json::Number(divisor)) => if divisor.is_zero() {
            Err(zero_error(op))
        } else {
            Ok(arithmetic(unit, op, numerator, divisor))
        },
        _ => Err(mismatch(x, y)),
    }
}

/// The place of the first occurrence of the separator in the text.
pub open spec fn first_occurrence(text: Seq<char>, separator: Seq<char>) -> int {
    choose|at: int| is_first_occurrence(text, separator, 0, at)
}

/// The pieces of a text between the occurrences of a separator that is not
/// empty, the occurrences taken from left to right and none overlapping the
/// one before.
pub open spec fn pieces(text: Seq<char>, separator: Seq<char>) -> Seq<Json>
    decreases text.len(),
{
    if separator.len() > 0 && exists|at: int| is_first_occurrence(text, separator, 0, at) {
        let at = first_occurrence(text, separator);
        seq![Json::String(text.subrange(0, at))] + pieces(
            text.subrange(at + separator.len(), text.len() as int),
            separator,
        )
    } else {
        seq![Json::String(text)]
    }
}

/// The pieces of a text that an empty separator parts: an empty piece, each
/// character by itself, and an empty piece.
pub open spec fn letters(text: Seq<char>) -> Seq<Json> {
    Seq::new(
        text.len() + 2,
        |i: int|
            if 1 <= i <= text.len() {
                Json::String(seq![text[i - 1]])
            } else {
                Json::String(Seq::empty())
            },
    )
}

/// The pieces into which a separator parts a text.
pub open spec fn split(text: Seq<char>, separator: Seq<char>) -> Seq<Json> {
    if separator.len() == 0 {
        letters(text)
    } else {
        pieces(text, separator)
    }
}

/// The quotient of two values: a string is split by a string, and numbers
/// and arrays of numbers are divided as [`division`] says.
pub open spec fn quotient(unit: Unit, x: Json, y: Json, ignore_zero: bool) -> Result<Json, Error> {
    match (x, y) {
        (Json::String(text), Json::String(separator)) => Ok(Json::Array(split(text, separator))),
        _ => division(unit, Arithmetic::Divide, x, y, ignore_zero),
    }
}

/// The remainder of the division of two values, which [`division`] defines
/// for numbers and arrays of numbers.
pub open spec fn remainder(unit: Unit, x: Json, y: Json, ignore_zero: bool) -> Result<Json, Error> {
    division(unit, Arithmetic::Remainder, x, y, ignore_zero)
}

/// What an operator makes of the value on its left and the one on its right.
/// `Identity` has no left operand, so between two values it is a syntax
/// error.
pub open spec fn apply(unit: Unit, operator: Operator, x: Json, y: Json) -> Result<Json, Error> {
    match operator {
        Operator::Add => sum(unit, x, y),
        Operator::Subtract => difference(unit, x, y),
        Operator::Multiply => product(unit, x, y),
        Operator::Divide { ignore_zero } => quotient(unit, x, y, ignore_zero),
        Operator::Modulo { ignore_zero } => remainder(unit, x, y, ignore_zero),
        Operator::Identity => Err(Error::Syntax),
    }
}

/// The value of the first `n` entries of a chain, reduced from left to
/// right: the first operand, then each operator applied to what stands so
/// far and to its operand. The first operator that fails gives the error.
pub open spec fn reduce(unit: Unit, chain: Seq<(Operator, Json)>, n: nat) -> Result<Json, Error>
    decreases n,
{
    if n <= 1 || n > chain.len() {
        Ok(chain[0].1)
    } else {
        match reduce(unit, chain, (n - 1) as nat) {
            Ok(so_far) => apply(unit, chain[n - 1].0, so_far, chain[n - 1].1),
            Err(e) => Err(e),
        }
    }
}

/// The models of the entries of a chain.
pub open spec fn chain_view(chain: Seq<(Operator, Value)>) -> Seq<(Operator, Json)> {
    Seq::new(chain.len(), |i: int| (chain[i].0, chain[i].1@))
}

/// The text `count` times over.
fn repeated(s: &String, count: u64) -> (r: String)
    ensures
        r@ == repeat(s@, count as nat),
{
    let mut out = String::new();
    let mut i: u64 = 0;
    while i < count
        invariant
            i <= count,
            out@ == repeat(s@, i as nat),
        decreases count - i,
    {
        out.append(s.as_str());
        i += 1;
    }
    out
}

/// A string a number of times over.
fn repetition_of(s: &String, n: &Number, x: &Value, y: &Value) -> (r: Result<Value, Error>)
    ensures
        result_view(r) == repetition(s@, *n, x@, y@),
{
    match n.as_u64() {
        Some(count) => {
            if count == 0 {
                Ok(Value::Null)
            } else {
                Ok(Value::String(repeated(s, count)))
            }
        },
        None => Err(mismatch_of(x, y)),
    }
}

/// Once the product of a field has failed, the product of every longer run
/// of fields fails in the same way.
pub proof fn lemma_product_fails(unit: Unit, a: Fields, b: Fields, n: nat, m: nat)
    requires
        n <= m <= a.len(),
        product_fields(unit, a, b, n) is Err,
    ensures
        product_fields(unit, a, b, m) == product_fields(unit, a, b, n),
    decreases m,
{
    if n < m {
        lemma_product_fails(unit, a, b, n, (m - 1) as nat);
    }
}

/// Once the division by an item has failed, the division by every longer
/// run of items fails in the same way.
pub proof fn lemma_spread_fails(
    unit: Unit,
    op: Arithmetic,
    numerator: Number,
    items: Seq<Json>,
    ignore_zero: bool,
    n: nat,
    m: nat,
)
    requires
        n <= m <= items.len(),
        spread(unit, op, numerator, items, ignore_zero, n) is Err,
    ensures
        spread(unit, op, numerator, items, ignore_zero, m) == spread(
            unit,
            op,
            numerator,
            items,
            ignore_zero,
            n,
        ),
    decreases m,
{
    if n < m {
        lemma_spread_fails(unit, op, numerator, items, ignore_zero, n, (m - 1) as nat);
    }
}

/// Once the division of an item has failed, the division of every longer run
/// of items fails in the same way.
pub proof fn lemma_scale_fails(
    unit: Unit,
    op: Arithmetic,
    items: Seq<Json>,
    divisor: Number,
    n: nat,
    m: nat,
)
    requires
        n <= m <= items.len(),
        scale(unit, op, items, divisor, n) is Err,
    ensures
        scale(unit, op, items, divisor, m) == scale(unit, op, items, divisor, n),
    decreases m,
{
    if n < m {
        lemma_scale_fails(unit, op, items, divisor, n, (m - 1) as nat);
    }
}

/// The error of a zero divisor.
fn zero_error_of(op: Arithmetic) -> (r: Error)
    ensures
        r == zero_error(op),
{
    match op {
        Arithmetic::Remainder => Error::ModuloByZero,
        _ => Error::DivisionByZero,
    }
}

/// Division, or its remainder, where a number is on one side at least.
pub fn divide_numbers<F: Fn(Arithmetic, u64, u64) -> u64>(
    pre: &Value,
    post: &Value,
    op: Arithmetic,
    ignore_zero: bool,
    fpu: &F,
) -> (r: Result<Value, Error>)
    requires
        fpu_ok(*fpu),
    ensures
        result_view(r) == division(fpu_model(*fpu), op, pre@, post@, ignore_zero),
{
    let ghost unit = fpu_model(*fpu);
    match (pre, post) {
        (Value::Number(numerator), Value::Array(items)) => {
            let ghost models = items_view(items@);
            proof {
                lemma_array_view(*items);
            }
            let mut out: Vec<Value> = Vec::new();
            let mut i: usize = 0;
            assert(items_view(out@) =~= Seq::empty());
            while i < items.len()
                invariant
                    i <= items.len(),
                    fpu_ok(*fpu),
                    unit == fpu_model(*fpu),
                    models == items_view(items@),
                    pre@ == Json::Number(*numerator),
                    post@ == Json::Array(models),
                    spread(unit, op, *numerator, models, ignore_zero, i as nat) == Ok::<
                        Seq<Json>,
                        Error,
                    >(items_view(out@)),
                decreases items.len() - i,
            {
                let ghost before = items_view(out@);
                proof {
                    lemma_kinds(&items[i as int]);
                }
                match &items[i] {
                    Value::Number(divisor) => {
                        if divisor.zero() {
                            if !ignore_zero {
                                proof {
                                    lemma_spread_fails(
                                        unit,
                                        op,
                                        *numerator,
                                        models,
                                        ignore_zero,
                                        i as nat + 1,
                                        models.len(),
                                    );
                                }
                                return Err(zero_error_of(op));
                            }
                        } else {
                            let value = combine(fpu, op, numerator, divisor);
                            out.push(value);
                            assert(items_view(out@) =~= before.push(value@));
                        }
                    },
                    _ => {
                        proof {
                            lemma_spread_fails(
                                unit,
                                op,
                                *numerator,
                                models,
                                ignore_zero,
                                i as nat + 1,
                                models.len(),
                            );
                        }
                        return Err(Error::TypeMismatch { left: Kind::Number, right: Kind::Array });
                    },
                }
                i += 1;
            }
            proof {
                lemma_array_view(out);
            }
            Ok(Value::Array(out))
        },
        (Value::Array(items), Value::Number(divisor)) => {
            let ghost models = items_view(items@);
            proof {
                lemma_array_view(*items);
            }
            if divisor.zero() {
                if ignore_zero {
                    return Ok(Value::Null);
                }
                return Err(zero_error_of(op));
            }
            let mut out: Vec<Value> = Vec::new();
            let mut i: usize = 0;
            assert(items_view(out@) =~= Seq::empty());
            while i < items.len()
                invariant
                    i <= items.len(),
                    fpu_ok(*fpu),
                    unit == fpu_model(*fpu),
                    models == items_view(items@),
                    pre@ == Json::Array(models),
                    post@ == Json::Number(*divisor),
                    !divisor.is_zero(),
                    scale(unit, op, models, *divisor, i as nat) == Ok::<Seq<Json>, Error>(
                        items_view(out@),
                    ),
                decreases items.len() - i,
            {
                let ghost before = items_view(out@);
                proof {
                    lemma_kinds(&items[i as int]);
                }
                match &items[i] {
                    Value::Number(numerator) => {
                        let value = combine(fpu, op, numerator, divisor);
                        out.push(value);
                        assert(items_view(out@) =~= before.push(value@));
                    },
                    _ => {
                        proof {
                            lemma_scale_fails(
                                unit,
                                op,
                                models,
                                *divisor,
                                i as nat + 1,
                                models.len(),
                            );
                        }
                        return Err(Error::TypeMismatch { left: Kind::Array, right: Kind::Number });
                    },
                }
                i += 1;
            }
            proof {
                lemma_array_view(out);
            }
            Ok(Value::Array(out))
        },
        (Value::Number(numerator), Value::Number(divisor)) => {
            if divisor.zero() {
                Err(zero_error_of(op))
            } else {
                Ok(combine(fpu, op, numerator, divisor))
            }
        },
        _ => {
            proof {
                lemma_kinds(pre);
                lemma_kinds(post);
            }
            Err(mismatch_of(pre, post))
        },
    }
}

/// An occurrence in a text is an occurrence in what is left of the text
/// after its first `from` characters, that much earlier.
pub proof fn lemma_occurs_later(text: Seq<char>, pattern: Seq<char>, from: int, at: int)
    requires
        0 <= from <= at,
        from <= text.len(),
    ensures
        occurs_at(text, pattern, at) == occurs_at(
            text.subrange(from, text.len() as int),
            pattern,
            at - from,
        ),
{
    if at + pattern.len() <= text.len() {
        assert(text.subrange(from, text.len() as int).subrange(
            at - from,
            at - from + pattern.len(),
        ) =~= text.subrange(at, at + pattern.len()));
    }
}

/// The first occurrence is the only place that [`is_first_occurrence`] holds
/// of.
pub proof fn lemma_first_occurrence(text: Seq<char>, pattern: Seq<char>, at: int)
    requires
        is_first_occurrence(text, pattern, 0, at),
    ensures
        first_occurrence(text, pattern) == at,
{
    let other = first_occurrence(text, pattern);
    assert(is_first_occurrence(text, pattern, 0, other));
    if other < at {
        assert(!occurs_at(text, pattern, other));
    }
    if at < other {
        assert(!occurs_at(text, pattern, at));
    }
}

/// The pieces into which a separator parts a text.
pub fn split_text(text: &Vec<char>, separator: &Vec<char>) -> (r: Vec<Value>)
    ensures
        items_view(r@) == split(text@, separator@),
{
    let mut out: Vec<Value> = Vec::new();
    if separator.len() == 0 {
        out.push(Value::String(String::new()));
        let mut i: usize = 0;
        while i < text.len()
            invariant
                i <= text.len(),
                out@.len() == i + 1,
                forall|k: int| 0 <= k <= i ==> (#[trigger] out@[k])@ == letters(text@)[k],
            decreases text.len() - i,
        {
            let letter = slice_of(text, i, i + 1);
            assert(letter@ =~= seq![text@[i as int]]);
            out.push(Value::String(string_of(&letter)));
            i += 1;
        }
        out.push(Value::String(String::new()));
        assert(items_view(out@) =~= letters(text@));
        return out;
    }
    let n = text.len();
    let mut from: usize = 0;
    let mut done = false;
    assert(items_view(out@) =~= Seq::empty());
    assert(text@.subrange(0, n as int) =~= text@);
    while !done
        invariant
            from <= n == text.len(),
            separator.len() > 0,
            !done ==> split(text@, separator@) == items_view(out@) + pieces(
                text@.subrange(from as int, n as int),
                separator@,
            ),
            done ==> split(text@, separator@) == items_view(out@),
        decreases n - from + (if done { 0int } else { 1int }),
    {
        let ghost before = items_view(out@);
        let ghost rest = text@.subrange(from as int, n as int);
        match find(text, separator, from) {
            Some(at) => {
                let piece = slice_of(text, from, at);
                out.push(Value::String(string_of(&piece)));
                proof {
                    assert forall|j: int| 0 <= j < at - from implies !occurs_at(
                        rest,
                        separator@,
                        j,
                    ) by {
                        lemma_occurs_later(text@, separator@, from as int, from + j);
                    }
                    lemma_occurs_later(text@, separator@, from as int, at as int);
                    assert(is_first_occurrence(rest, separator@, 0, at - from));
                    lemma_first_occurrence(rest, separator@, at - from);
                    assert(rest.subrange(0, at - from) =~= piece@);
                    assert(rest.subrange(at - from + separator@.len(), rest.len() as int)
                        =~= text@.subrange(at + separator@.len(), n as int));
                    assert(items_view(out@) =~= before.push(Json::String(piece@)));
                    assert(before + pieces(rest, separator@) =~= items_view(out@) + pieces(
                        text@.subrange(at + separator@.len(), n as int),
                        separator@,
                    ));
                }
                from = at + separator.len();
            },
            None => {
                let piece = slice_of(text, from, n);
                out.push(Value::String(string_of(&piece)));
                proof {
                    assert forall|j: int| !is_first_occurrence(rest, separator@, 0, j) by {
                        if 0 <= j {
                            lemma_occurs_later(text@, separator@, from as int, from + j);
                        }
                    }
                    assert(items_view(out@) =~= before.push(Json::String(piece@)));
                    assert(before + pieces(rest, separator@) =~= items_view(out@));
                }
                done = true;
            },
        }
    }
    out
}

/// What an operator makes of the value on its left and the one on its right.
pub fn apply_operator<F: Fn(Arithmetic, u64, u64) -> u64>(
    operator: Operator,
    pre: &Value,
    post: &Value,
    fpu: &F,
) -> (r: Result<Value, Error>)
    requires
        fpu_ok(*fpu),
    ensures
        result_view(r) == apply(fpu_model(*fpu), operator, pre@, post@),
        pre@.wf() && post@.wf() ==> (r matches Ok(v) ==> v@.wf()),
{
    match operator {
        Operator::Add => JsonParser::add_json_data(pre, post, fpu),
        Operator::Subtract => JsonParser::subtract_json_data(pre, post, fpu),
        Operator::Multiply => JsonParser::multiply_json_data(pre, post, fpu),
        Operator::Divide { ignore_zero } => JsonParser::divide_json_data(pre, post, ignore_zero, fpu),
        Operator::Modulo { ignore_zero } => JsonParser::modulo_json_data(pre, post, ignore_zero, fpu),
        Operator::Identity => Err(Error::Syntax),
    }
}

/// Once an operator of a chain has failed, every longer run of the chain
/// fails in the same way.
pub proof fn lemma_reduce_fails(unit: Unit, chain: Seq<(Operator, Json)>, n: nat, m: nat)
    requires
        n <= m <= chain.len(),
        reduce(unit, chain, n) is Err,
    ensures
        reduce(unit, chain, m) == reduce(unit, chain, n),
    decreases m,
{
    if n < m {
        lemma_reduce_fails(unit, chain, n, (m - 1) as nat);
    }
}

impl JsonParser {
    /// The sum of two values.
    pub fn add_json_data<F: Fn(Arithmetic, u64, u64) -> u64>(pre: &Value, post: &Value, fpu: &F) -> (r:
        Result<Value, Error>)
        requires
            fpu_ok(*fpu),
        ensures
            result_view(r) == sum(fpu_model(*fpu), pre@, post@),
            pre@.wf() && post@.wf() ==> (r matches Ok(v) ==> v@.wf()),
    {
        proof {
            if pre@.wf() && post@.wf() {
                lemma_sum_wf(fpu_model(*fpu), pre@, post@);
            }
        }
        match (pre, post) {
            (Value::Array(a), Value::Array(b)) => {
                let mut out: Vec<Value> = Vec::new();
                push_clones(&mut out, a);
                push_clones(&mut out, b);
                proof {
                    lemma_array_view(*a);
                    lemma_array_view(*b);
                    lemma_array_view(out);
                    assert(items_view(out@) =~= items_view(a@) + items_view(b@));
                }
                Ok(Value::Array(out))
            },
            (Value::Object(a), Value::Object(b)) => {
                let mut out = clone_fields(a);
                let mut i: usize = 0;
                while i < b.len()
                    invariant
                        i <= b.len(),
                        fields_view(out@) == merge(fields_view(a@), fields_view(b@), i as nat),
                    decreases b.len() - i,
                {
                    let value = b[i].1.clone();
                    insert_field(&mut out, b[i].0.clone(), value);
                    i += 1;
                }
                proof {
                    lemma_object_view(*a);
                    lemma_object_view(*b);
                    lemma_object_view(out);
                }
                Ok(Value::Object(out))
            },
            (Value::Number(a), Value::Number(b)) => Ok(combine(fpu, Arithmetic::Add, a, b)),
            (Value::String(a), Value::String(b)) => {
                let mut out = a.clone();
                out.append(b.as_str());
                Ok(Value::String(out))
            },
            (Value::Number(a), Value::Null) => Ok(Value::Number(*a)),
            (Value::Null, Value::Number(b)) => Ok(Value::Number(*b)),
            _ => {
                proof {
                    lemma_kinds(pre);
                    lemma_kinds(post);
                }
                Err(mismatch_of(pre, post))
            },
        }
    }

    /// The difference of two values.
    pub fn subtract_json_data<F: Fn(Arithmetic, u64, u64) -> u64>(
        pre: &Value,
        post: &Value,
        fpu: &F,
    ) -> (r: Result<Value, Error>)
        requires
            fpu_ok(*fpu),
        ensures
            result_view(r) == difference(fpu_model(*fpu), pre@, post@),
            pre@.wf() && post@.wf() ==> (r matches Ok(v) ==> v@.wf()),
    {
        proof {
            if pre@.wf() && post@.wf() {
                lemma_difference_wf(fpu_model(*fpu), pre@, post@);
            }
        }
        match (pre, post) {
            (Value::Array(a), Value::Array(b)) => {
                let mut out: Vec<Value> = Vec::new();
                let mut i: usize = 0;
                while i < a.len()
                    invariant
                        i <= a.len(),
                        items_view(out@) == without(items_view(a@), items_view(b@), i as nat),
                    decreases a.len() - i,
                {
                    let ghost before = items_view(out@);
                    if !among(&a[i], b) {
                        let item = a[i].clone();
                        out.push(item);
                        assert(items_view(out@) =~= before.push(a@[i as int]@));
                    }
                    i += 1;
                }
                proof {
                    lemma_array_view(*a);
                    lemma_array_view(*b);
                    lemma_array_view(out);
                }
                Ok(Value::Array(out))
            },
            (Value::Number(a), Value::Number(b)) => Ok(combine(fpu, Arithmetic::Subtract, a, b)),
            _ => {
                proof {
                    lemma_kinds(pre);
                    lemma_kinds(post);
                }
                Err(mismatch_of(pre, post))
            },
        }
    }

    /// The product of two values.
    pub fn multiply_json_data<F: Fn(Arithmetic, u64, u64) -> u64>(
        pre: &Value,
        post: &Value,
        fpu: &F,
    ) -> (r: Result<Value, Error>)
        requires
            fpu_ok(*fpu),
        ensures
            result_view(r) == product(fpu_model(*fpu), pre@, post@),
            pre@.wf() && post@.wf() ==> (r matches Ok(v) ==> v@.wf()),
        decreases pre,
    {
        proof {
            if pre@.wf() && post@.wf() {
                lemma_product_wf(fpu_model(*fpu), pre@, post@);
            }
        }
        match (pre, post) {
            (Value::Object(a), Value::Object(b)) => {
                let ghost unit = fpu_model(*fpu);
                let ghost fa = fields_view(a@);
                let ghost fb = fields_view(b@);
                proof {
                    lemma_object_view(*a);
                    lemma_object_view(*b);
                }
                let mut out: Vec<(String, Value)> = Vec::new();
                let mut i: usize = 0;
                assert(fields_view(out@) =~= Seq::empty());
                while i < a.len()
                    invariant
                        i <= a.len(),
                        fpu_ok(*fpu),
                        unit == fpu_model(*fpu),
                        fa == fields_view(a@),
                        fb == fields_view(b@),
                        pre@ == Json::Object(fa),
                        post@ == Json::Object(fb),
                        forall|k: int|
                            0 <= k < a@.len() ==> decreases_to!(pre => #[trigger] a@[k]),
                        product_fields(unit, fa, fb, i as nat) == Ok::<Fields, Error>(
                            fields_view(out@),
                        ),
                    decreases a.len() - i,
                {
                    let value = match find_key(b, &a[i].0) {
                        Some(j) => {
                            match JsonParser::multiply_json_data(&a[i].1, &b[j].1, fpu) {
                                Ok(value) => value,
                                Err(e) => {
                                    proof {
                                        lemma_product_fails(unit, fa, fb, i as nat + 1, a@.len() as nat);
                                    }
                                    return Err(e);
                                },
                            }
                        },
                        None => a[i].1.clone(),
                    };
                    insert_field(&mut out, a[i].0.clone(), value);
                    i += 1;
                }
                let mut j: usize = 0;
                while j < b.len()
                    invariant
                        j <= b.len(),
                        fa == fields_view(a@),
                        fb == fields_view(b@),
                        product_fields(unit, fa, fb, fa.len()) is Ok,
                        fields_view(out@) == merge_missing(
                            product_fields(unit, fa, fb, fa.len())->Ok_0,
                            fa,
                            fb,
                            j as nat,
                        ),
                    decreases b.len() - j,
                {
                    if find_key(a, &b[j].0).is_none() {
                        let value = b[j].1.clone();
                        insert_field(&mut out, b[j].0.clone(), value);
                    }
                    j += 1;
                }
                proof {
                    lemma_object_view(out);
                }
                Ok(Value::Object(out))
            },
            (Value::Number(a), Value::Number(b)) => Ok(combine(fpu, Arithmetic::Multiply, a, b)),
            (Value::String(s), Value::Number(n)) => repetition_of(s, n, pre, post),
            (Value::Number(n), Value::String(s)) => repetition_of(s, n, pre, post),
            _ => {
                proof {
                    lemma_kinds(pre);
                    lemma_kinds(post);
                }
                Err(mismatch_of(pre, post))
            },
        }
    }

    /// The quotient of two values.
    pub fn divide_json_data<F: Fn(Arithmetic, u64, u64) -> u64>(
        pre: &Value,
        post: &Value,
        ignore_infinite_divisor: bool,
        fpu: &F,
    ) -> (r: Result<Value, Error>)
        requires
            fpu_ok(*fpu),
        ensures
            result_view(r) == quotient(fpu_model(*fpu), pre@, post@, ignore_infinite_divisor),
            pre@.wf() && post@.wf() ==> (r matches Ok(v) ==> v@.wf()),
    {
        proof {
            if pre@.wf() && post@.wf() {
                lemma_quotient_wf(fpu_model(*fpu), pre@, post@, ignore_infinite_divisor);
            }
        }
        match (pre, post) {
            (Value::String(text), Value::String(separator)) => {
                let parts = split_text(&chars_of(text.as_str()), &chars_of(separator.as_str()));
                proof {
                    lemma_array_view(parts);
                }
                Ok(Value::Array(parts))
            },
            _ => {
                proof {
                    lemma_kinds(pre);
                    lemma_kinds(post);
                }
                divide_numbers(pre, post, Arithmetic::Divide, ignore_infinite_divisor, fpu)
            },
        }
    }

    /// The remainder of the division of two values.
    pub fn modulo_json_data<F: Fn(Arithmetic, u64, u64) -> u64>(
        pre: &Value,
        post: &Value,
        ignore_infinite_divisor: bool,
        fpu: &F,
    ) -> (r: Result<Value, Error>)
        requires
            fpu_ok(*fpu),
        ensures
            result_view(r) == remainder(fpu_model(*fpu), pre@, post@, ignore_infinite_divisor),
            pre@.wf() && post@.wf() ==> (r matches Ok(v) ==> v@.wf()),
    {
        proof {
            if pre@.wf() && post@.wf() {
                lemma_division_wf(fpu_model(*fpu), Arithmetic::Remainder, pre@, post@, ignore_infinite_divisor);
            }
        }
        divide_numbers(pre, post, Arithmetic::Remainder, ignore_infinite_divisor, fpu)
    }

    /// The value of a chain, reduced from left to right.
    pub fn json_data_operator<F: Fn(Arithmetic, u64, u64) -> u64>(
        json: &Vec<(Operator, Value)>,
        fpu: &F,
    ) -> (r: Result<Value, Error>)
        requires
            json.len() > 0,
            fpu_ok(*fpu),
        ensures
            result_view(r) == reduce(fpu_model(*fpu), chain_view(json@), json@.len()),
            chain_wf(chain_view(json@)) ==> (r matches Ok(v) ==> v@.wf()),
    {
        proof {
            if chain_wf(chain_view(json@)) {
                lemma_reduce_wf(fpu_model(*fpu), chain_view(json@), json@.len());
            }
        }
        let ghost unit = fpu_model(*fpu);
        let ghost chain = chain_view(json@);
        let mut recent_value = json[0].1.clone();
        let mut i: usize = 1;
        while i < json.len()
            invariant
                1 <= i <= json.len(),
                fpu_ok(*fpu),
                unit == fpu_model(*fpu),
                chain == chain_view(json@),
                reduce(unit, chain, i as nat) == Ok::<Json, Error>(recent_value@),
            decreases json.len() - i,
        {
            match apply_operator(json[i].0, &recent_value, &json[i].1, fpu) {
                Ok(value) => {
                    recent_value = value;
                },
                Err(e) => {
                    proof {
                        lemma_reduce_fails(unit, chain, i as nat + 1, chain.len());
                    }
                    return Err(e);
                },
            }
            i += 1;
        }
        Ok(recent_value)
    }
}

} // verus!
