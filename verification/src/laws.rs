//! Laws that hold of every query, operand and value.

use crate::error::Error;
use crate::filter::{
    has_brackets,
    is_word,
    member,
    resolve,
    resolve_from,
    segment_end,
    select,
    word_end,
};
use crate::number::{
    double_eq,
    double_of_int,
    is_finite_bits,
    is_zero_bits,
    Arithmetic,
    Number,
};
use crate::operator::{
    division,
    double_value,
    lemma_spread_fails,
    merge,
    merge_missing,
    product,
    product_fields,
    quotient,
    remainder,
    spread,
    sum,
    zero_error,
    Unit,
};
use crate::parser::{evaluate, lemma_mark_place, length, query};
use crate::text::{
    first_mark,
    has_mark,
    is_first_mark,
    is_outside,
    lemma_first_mark,
    marked,
    scan,
    scan_from,
    scan_start,
    scan_step,
    trim,
    Mark,
    Scan,
};
use crate::value::{
    has_key,
    insert,
    is_key_index,
    key_index,
    lemma_has_key,
    lemma_key_index,
    lookup,
    unique_keys,
    Fields,
    Json,
};
use vstd::prelude::*;

verus! {

/// The key characters that begin at `i` reach the end of a text whose
/// characters from `i` on are all key characters.
proof fn lemma_word_to_end(text: Seq<char>, i: int)
    requires
        0 <= i <= text.len(),
        forall|j: int| i <= j < text.len() ==> is_word(#[trigger] text[j]),
    ensures
        word_end(text, i) == text.len(),
    decreases text.len() - i,
{
    if i < text.len() {
        lemma_word_to_end(text, i + 1);
    }
}

/// The path of one key selects the field of that name: `.k` gives the value
/// of the field `k` of an object, and null where the object has no such
/// field, or the value is no object. The key is one or more key characters.
pub proof fn lemma_resolve_key(value: Json, key: Seq<char>)
    requires
        key.len() > 0,
        forall|j: int| 0 <= j < key.len() ==> is_word(#[trigger] key[j]),
    ensures
        resolve(value, seq!['.'] + key) == member(value, key),
        value matches Json::Object(fields) ==> resolve(value, seq!['.'] + key) == (match lookup(
            fields,
            key,
        ) {
            Some(found) => found,
            None => Json::Null,
        }),
{
    let path = seq!['.'] + key;
    assert forall|j: int| 1 <= j < path.len() implies is_word(#[trigger] path[j]) by {
        assert(path[j] == key[j - 1]);
    }
    lemma_word_to_end(path, 1);
    assert(path.subrange(1, path.len() as int) =~= key);
    assert(!has_brackets(path, path.len() as int));
    assert(select(value, path, 0) == member(value, key));
    assert(segment_end(path, 0) == path.len());
    assert(resolve_from(member(value, key), path, path.len() as int) == member(value, key));
}

/// Equal values have equal lengths, and a value that has no length has none
/// whichever equal value stands for it.
pub proof fn lemma_length_of_equal(x: Json, y: Json)
    requires
        x.same(y),
    ensures
        match (length(x), length(y)) {
            (Ok(a), Ok(b)) => a.same(b),
            (Err(e), Err(f)) => e == f,
            _ => false,
        },
{
    match (x, y) {
        (Json::Number(a), Json::Number(b)) => {
            assert(a.same(b));
            match (a, b) {
                (Number::Float(p), Number::Float(q)) => {
                    assert(double_eq(p, q));
                    assert(is_finite_bits(p) == is_finite_bits(q))
                        by {
                        lemma_equal_doubles(p, q);
                    }
                },
                _ => {},
            }
            lemma_same_reflexive_double(a.double());
        },
        (Json::Array(a), Json::Array(b)) => {
            lemma_same_reflexive_double(double_of_int(a.len() as int));
        },
        (Json::Object(a), Json::Object(b)) => {
            lemma_same_reflexive_double(double_of_int(a.len() as int));
        },
        (Json::String(a), Json::String(b)) => {
            lemma_same_reflexive_double(double_of_int(a.len() as int));
        },
        _ => {},
    }
}

/// Two doubles that are equal are both finite, or both zero.
proof fn lemma_equal_doubles(p: u64, q: u64)
    requires
        double_eq(p, q),
    ensures
        is_finite_bits(p) == is_finite_bits(q),
{
    if p != q {
        assert(is_zero_bits(p) && is_zero_bits(q));
    }
}

/// The value of a double equals itself.
proof fn lemma_same_reflexive_double(bits: u64)
    ensures
        double_value(bits).same(double_value(bits)),
{
}

/// The scan of a text up to a place depends on the characters before that
/// place only.
pub proof fn lemma_scan_prefix(st: Scan, s: Seq<char>, t: Seq<char>, n: int)
    requires
        0 <= n <= s.len(),
        n <= t.len(),
        forall|j: int| 0 <= j < n ==> s[j] == t[j],
    ensures
        scan_from(st, s, n) == scan_from(st, t, n),
    decreases n,
{
    if n > 0 {
        lemma_scan_prefix(st, s, t, n - 1);
    }
}

/// A scan goes on from a place as it would begin, at the state it has there,
/// on what is left of the text.
pub proof fn lemma_scan_suffix(st: Scan, s: Seq<char>, k: int, i: int)
    requires
        0 <= k,
        0 <= i,
        k + i <= s.len(),
    ensures
        scan_from(st, s, k + i) == scan_from(
            scan_from(st, s, k),
            s.subrange(k, s.len() as int),
            i,
        ),
    decreases i,
{
    if i > 0 {
        lemma_scan_suffix(st, s, k, i - 1);
        assert(s.subrange(k, s.len() as int)[i - 1] == s[k + i - 1]);
    }
}

/// Outside a string no backslash is pending.
pub proof fn lemma_scan_escaped(s: Seq<char>, n: int)
    requires
        0 <= n <= s.len(),
    ensures
        scan(s, n).escaped ==> scan(s, n).quoted,
    decreases n,
{
    if n > 0 {
        lemma_scan_escaped(s, n - 1);
    }
}

/// A query that is two queries joined by a pipe is the second applied to
/// the value of the first: where `a` closes every string, bracket and brace
/// that it opens, so that the pipe after it stands at the top level,
/// evaluating `a|b` on an input gives the error of `a` where `a` fails, and
/// else what `b` makes of the value of `a`.
pub proof fn lemma_pipeline_composition(unit: Unit, a: Seq<char>, b: Seq<char>, input: Json)
    requires
        is_outside(scan(a, a.len() as int)),
    ensures
        evaluate(unit, a + seq!['|'] + b, input) == (match evaluate(unit, a, input) {
            Ok(value) => evaluate(unit, b, value),
            Err(e) => Err(e),
        }),
    decreases a.len(),
{
    let t = a + seq!['|'] + b;
    let n = a.len() as int;
    assert forall|j: int| 0 <= j < n implies marked(t, Mark::Pipe, j) == marked(
        a,
        Mark::Pipe,
        j,
    ) by {
        lemma_scan_prefix(scan_start(), t, a, j);
    }
    lemma_scan_prefix(scan_start(), t, a, n);
    assert(t[n] == '|');
    assert(marked(t, Mark::Pipe, n));
    if has_mark(a, Mark::Pipe) {
        lemma_mark_place(a, Mark::Pipe);
        let p = first_mark(a, Mark::Pipe);
        assert(marked(t, Mark::Pipe, p));
        assert(is_first_mark(t, Mark::Pipe, p));
        lemma_first_mark(t, Mark::Pipe, p);
        let rest = a.subrange(p + 1, n);
        assert(t.subrange(0, p) =~= a.subrange(0, p));
        assert(t.subrange(p + 1, t.len() as int) =~= rest + seq!['|'] + b);
        lemma_scan_escaped(a, p);
        assert(scan(a, p + 1) == scan_step(scan(a, p), a[p]));
        assert(scan(a, p + 1) == scan_start());
        lemma_scan_suffix(scan_start(), a, p + 1, n - (p + 1));
        assert(rest.len() == n - (p + 1));
        assert(scan(rest, rest.len() as int) == scan(a, n));
        match query(unit, trim(a.subrange(0, p)), input) {
            Ok(value) => {
                lemma_pipeline_composition(unit, rest, b, value);
            },
            Err(_) => {},
        }
    } else {
        assert(is_first_mark(t, Mark::Pipe, n));
        lemma_first_mark(t, Mark::Pipe, n);
        assert(t.subrange(0, n) =~= a);
        assert(t.subrange(n + 1, t.len() as int) =~= b);
    }
}

/// The sum of two numbers does not depend on their order, where the
/// floating-point unit adds in either order to the same double.
pub proof fn lemma_sum_commutes(unit: Unit, a: Number, b: Number)
    requires
        forall|p: u64, q: u64|
            #[trigger] unit(Arithmetic::Add, p, q) == unit(Arithmetic::Add, q, p),
    ensures
        sum(unit, Json::Number(a), Json::Number(b)) == sum(
            unit,
            Json::Number(b),
            Json::Number(a),
        ),
{
}

/// The sum of two arrays is the items of the left one and then those of
/// the right one.
pub proof fn lemma_sum_of_arrays(unit: Unit, a: Seq<Json>, b: Seq<Json>)
    ensures
        sum(unit, Json::Array(a), Json::Array(b)) == Ok::<Json, Error>(Json::Array(a + b)),
{
}

/// The sum of two strings is the left one and then the right one.
pub proof fn lemma_sum_of_strings(unit: Unit, a: Seq<char>, b: Seq<char>)
    ensures
        sum(unit, Json::String(a), Json::String(b)) == Ok::<Json, Error>(Json::String(a + b)),
{
}

/// Setting a field keeps the names apart, gives the name the value, and
/// leaves every other name as it was.
pub proof fn lemma_insert(fields: Fields, key: Seq<char>, value: Json, other: Seq<char>)
    requires
        unique_keys(fields),
    ensures
        unique_keys(insert(fields, key, value)),
        lookup(insert(fields, key, value), key) == Some(value),
        other != key ==> lookup(insert(fields, key, value), other) == lookup(fields, other),
        has_key(insert(fields, key, value), other) == (other == key || has_key(fields, other)),
{
    let after = insert(fields, key, value);
    if has_key(fields, key) {
        lemma_has_key(fields, key);
        let i = key_index(fields, key);
        assert(after[i].0 == key);
        assert(is_key_index(after, key, i)) by {
            assert forall|j: int| 0 <= j < i implies #[trigger] after[j].0 != key by {
                assert(after[j] == fields[j]);
            }
        }
        lemma_key_index(after, key, i);
        if has_key(fields, other) {
            lemma_has_key(fields, other);
            let k = key_index(fields, other);
            assert(after[k].0 == other);
            if other != key {
                assert(k != i);
                assert(is_key_index(after, other, k)) by {
                    assert forall|j: int| 0 <= j < k implies #[trigger] after[j].0 != other by {
                        if j != i {
                            assert(after[j] == fields[j]);
                        }
                    }
                }
                lemma_key_index(after, other, k);
            }
        } else if other != key {
            if has_key(after, other) {
                let k = choose|k: int| 0 <= k < after.len() && #[trigger] after[k].0 == other;
                assert(k != i);
                assert(fields[k].0 == other);
            }
        }
    } else {
        let i = fields.len() as int;
        assert(after[i].0 == key);
        assert(is_key_index(after, key, i)) by {
            assert forall|j: int| 0 <= j < i implies #[trigger] after[j].0 != key by {
                assert(after[j] == fields[j]);
                assert(fields[j].0 != key);
            }
        }
        lemma_key_index(after, key, i);
        if has_key(fields, other) {
            lemma_has_key(fields, other);
            let k = key_index(fields, other);
            assert(after[k] == fields[k]);
            assert(is_key_index(after, other, k)) by {
                assert forall|j: int| 0 <= j < k implies #[trigger] after[j].0 != other by {
                    assert(after[j] == fields[j]);
                }
            }
            lemma_key_index(after, other, k);
        } else if other != key {
            if has_key(after, other) {
                let k = choose|k: int| 0 <= k < after.len() && #[trigger] after[k].0 == other;
                assert(k != i);
                assert(fields[k].0 == other);
            }
        }
        assert forall|p: int, q: int| 0 <= p < q < after.len() implies #[trigger] after[p].0
            != #[trigger] after[q].0 by {
            if q == i {
                assert(after[p] == fields[p]);
                assert(fields[p].0 != key);
            } else {
                assert(after[p] == fields[p]);
                assert(after[q] == fields[q]);
            }
        }
    }
    if has_key(fields, key) {
        let i = key_index(fields, key);
        assert forall|p: int, q: int| 0 <= p < q < after.len() implies #[trigger] after[p].0
            != #[trigger] after[q].0 by {
            assert(after[p].0 == fields[p].0);
            assert(after[q].0 == fields[q].0);
        }
    }
}

/// What one more field adds to the names and values of the fields before
/// it.
pub proof fn lemma_take_keys(fields: Fields, n: int, key: Seq<char>)
    requires
        unique_keys(fields),
        0 < n <= fields.len(),
    ensures
        unique_keys(fields.take(n)),
        unique_keys(fields.take(n - 1)),
        has_key(fields.take(n), key) == (has_key(fields.take(n - 1), key) || fields[n - 1].0
            == key),
        fields[n - 1].0 == key ==> lookup(fields.take(n), key) == Some(fields[n - 1].1),
        fields[n - 1].0 == key ==> !has_key(fields.take(n - 1), key),
        fields[n - 1].0 != key ==> lookup(fields.take(n), key) == lookup(
            fields.take(n - 1),
            key,
        ),
{
    let longer = fields.take(n);
    let shorter = fields.take(n - 1);
    if fields[n - 1].0 == key {
        assert(longer[n - 1].0 == key);
        assert(is_key_index(longer, key, n - 1)) by {
            assert forall|j: int| 0 <= j < n - 1 implies #[trigger] longer[j].0 != key by {
                assert(longer[j] == fields[j]);
            }
        }
        lemma_key_index(longer, key, n - 1);
        if has_key(shorter, key) {
            let j = choose|j: int| 0 <= j < shorter.len() && #[trigger] shorter[j].0 == key;
            assert(fields[j].0 == key);
        }
    } else {
        if has_key(shorter, key) {
            lemma_has_key(shorter, key);
            let i = key_index(shorter, key);
            assert(longer[i] == shorter[i]);
            assert(is_key_index(longer, key, i)) by {
                assert forall|j: int| 0 <= j < i implies #[trigger] longer[j].0 != key by {
                    assert(longer[j] == shorter[j]);
                }
            }
            lemma_key_index(longer, key, i);
        } else {
            if has_key(longer, key) {
                let j = choose|j: int| 0 <= j < longer.len() && #[trigger] longer[j].0 == key;
                assert(j < n - 1);
                assert(shorter[j].0 == key);
            }
        }
    }
}

/// The names and values of the fields that [`merge`] gives: the names of
/// either side, each with its value on the right where the right side has
/// it, and else with its value on the left.
pub proof fn lemma_merge(a: Fields, b: Fields, n: nat, key: Seq<char>)
    requires
        unique_keys(a),
        unique_keys(b),
        n <= b.len(),
    ensures
        unique_keys(merge(a, b, n)),
        has_key(merge(a, b, n), key) == (has_key(a, key) || has_key(b.take(n as int), key)),
        lookup(merge(a, b, n), key) == (if has_key(b.take(n as int), key) {
            lookup(b.take(n as int), key)
        } else {
            lookup(a, key)
        }),
    decreases n,
{
    if n == 0 {
        assert(b.take(0).len() == 0);
    } else {
        lemma_merge(a, b, (n - 1) as nat, key);
        lemma_take_keys(b, n as int, key);
        lemma_insert(merge(a, b, (n - 1) as nat), b[n - 1].0, b[n - 1].1, key);
    }
}

/// In the sum of two objects every name of either side is a field once, a
/// name of the right side has the value it has there, and any other name
/// has the value it has on the left.
pub proof fn lemma_sum_of_objects(unit: Unit, a: Fields, b: Fields, key: Seq<char>)
    requires
        unique_keys(a),
        unique_keys(b),
    ensures
        sum(unit, Json::Object(a), Json::Object(b)) == Ok::<Json, Error>(
            Json::Object(merge(a, b, b.len())),
        ),
        unique_keys(merge(a, b, b.len())),
        has_key(merge(a, b, b.len()), key) == (has_key(a, key) || has_key(b, key)),
        has_key(b, key) ==> lookup(merge(a, b, b.len()), key) == lookup(b, key),
        !has_key(b, key) ==> lookup(merge(a, b, b.len()), key) == lookup(a, key),
{
    lemma_merge(a, b, b.len(), key);
    assert(b.take(b.len() as int) =~= b);
}

/// The names and values of the fields that [`product_fields`] gives, where
/// no product fails: the first `n` names of the left side, each with the
/// product of its two values where the right side has the name, and with its
/// value on the left where it has not.
pub proof fn lemma_product_fields(unit: Unit, a: Fields, b: Fields, n: nat, key: Seq<char>)
    requires
        unique_keys(a),
        unique_keys(b),
        n <= a.len(),
        product_fields(unit, a, b, n) is Ok,
    ensures
        unique_keys(product_fields(unit, a, b, n)->Ok_0),
        has_key(product_fields(unit, a, b, n)->Ok_0, key) == has_key(a.take(n as int), key),
        has_key(a.take(n as int), key) && has_key(b, key) ==> product(
            unit,
            lookup(a.take(n as int), key)->Some_0,
            lookup(b, key)->Some_0,
        ) is Ok && lookup(product_fields(unit, a, b, n)->Ok_0, key) == Some(
            product(unit, lookup(a.take(n as int), key)->Some_0, lookup(b, key)->Some_0)->Ok_0,
        ),
        has_key(a.take(n as int), key) && !has_key(b, key) ==> lookup(
            product_fields(unit, a, b, n)->Ok_0,
            key,
        ) == lookup(a.take(n as int), key),
    decreases n,
{
    if n == 0 {
        assert(a.take(0).len() == 0);
        let done = product_fields(unit, a, b, n)->Ok_0;
        assert(done.len() == 0);
    } else {
        let before = product_fields(unit, a, b, (n - 1) as nat);
        assert(before is Ok);
        lemma_product_fields(unit, a, b, (n - 1) as nat, key);
        lemma_take_keys(a, n as int, key);
        let name = a[n - 1].0;
        let value = match lookup(b, name) {
            Some(other) => product(unit, a[n - 1].1, other)->Ok_0,
            None => a[n - 1].1,
        };
        assert(product_fields(unit, a, b, n)->Ok_0 == insert(before->Ok_0, name, value));
        lemma_insert(before->Ok_0, name, value, key);
    }
}

/// The names and values of the fields that [`merge_missing`] gives: those of
/// `fields`, and after them the first `n` fields of `b` whose names `a` does
/// not have. `fields` has the names of `a`.
pub proof fn lemma_merge_missing(fields: Fields, a: Fields, b: Fields, n: nat, key: Seq<char>)
    requires
        unique_keys(fields),
        unique_keys(b),
        n <= b.len(),
        forall|k: Seq<char>| has_key(fields, k) == has_key(a, k),
    ensures
        unique_keys(merge_missing(fields, a, b, n)),
        has_key(merge_missing(fields, a, b, n), key) == (has_key(a, key) || has_key(
            b.take(n as int),
            key,
        )),
        has_key(a, key) ==> lookup(merge_missing(fields, a, b, n), key) == lookup(fields, key),
        !has_key(a, key) ==> lookup(merge_missing(fields, a, b, n), key) == lookup(
            b.take(n as int),
            key,
        ),
    decreases n,
{
    if n == 0 {
        assert(b.take(0).len() == 0);
        if !has_key(a, key) {
            assert(!has_key(fields, key));
        }
    } else {
        lemma_merge_missing(fields, a, b, (n - 1) as nat, key);
        lemma_take_keys(b, n as int, key);
        if !has_key(a, b[n - 1].0) {
            lemma_insert(merge_missing(fields, a, b, (n - 1) as nat), b[n - 1].0, b[n - 1].1, key);
        }
    }
}

/// The product of two objects, where it does not fail, has every name of
/// either side as a field once. A name of both sides has the product of its
/// two values; a name of one side only has the value it has there.
pub proof fn lemma_product_of_objects(unit: Unit, a: Fields, b: Fields, key: Seq<char>)
    requires
        unique_keys(a),
        unique_keys(b),
        product(unit, Json::Object(a), Json::Object(b)) is Ok,
    ensures
        product(unit, Json::Object(a), Json::Object(b))->Ok_0 is Object,
        ({
            let fields = product(unit, Json::Object(a), Json::Object(b))->Ok_0->Object_0;
            &&& unique_keys(fields)
            &&& has_key(fields, key) == (has_key(a, key) || has_key(b, key))
            &&& has_key(a, key) && has_key(b, key) ==> product(
                unit,
                lookup(a, key)->Some_0,
                lookup(b, key)->Some_0,
            ) is Ok && lookup(fields, key) == Some(
                product(unit, lookup(a, key)->Some_0, lookup(b, key)->Some_0)->Ok_0,
            )
            &&& has_key(a, key) && !has_key(b, key) ==> lookup(fields, key) == lookup(a, key)
            &&& !has_key(a, key) && has_key(b, key) ==> lookup(fields, key) == lookup(b, key)
        }),
{
    let done = product_fields(unit, a, b, a.len());
    assert(done is Ok);
    assert(a.take(a.len() as int) =~= a);
    assert(b.take(b.len() as int) =~= b);
    lemma_product_fields(unit, a, b, a.len(), key);
    assert forall|k: Seq<char>| has_key(done->Ok_0, k) == has_key(a, k) by {
        lemma_product_fields(unit, a, b, a.len(), k);
    }
    lemma_merge_missing(done->Ok_0, a, b, b.len(), key);
}

/// A division of a number by zero fails, whether or not zero divisors are to
/// be passed over; so does the remainder of one.
pub proof fn lemma_zero_divisor(
    unit: Unit,
    numerator: Number,
    divisor: Number,
    ignore_zero: bool,
)
    requires
        divisor.is_zero(),
    ensures
        quotient(unit, Json::Number(numerator), Json::Number(divisor), ignore_zero) == Err::<
            Json,
            Error,
        >(Error::DivisionByZero),
        remainder(unit, Json::Number(numerator), Json::Number(divisor), ignore_zero) == Err::<
            Json,
            Error,
        >(Error::ModuloByZero),
{
}

/// A division of an array by zero fails where zero divisors are not to be
/// passed over, and is null where they are.
pub proof fn lemma_zero_divisor_of_array(
    unit: Unit,
    items: Seq<Json>,
    divisor: Number,
    ignore_zero: bool,
)
    requires
        divisor.is_zero(),
    ensures
        quotient(unit, Json::Array(items), Json::Number(divisor), ignore_zero) == (if ignore_zero {
            Ok::<Json, Error>(Json::Null)
        } else {
            Err::<Json, Error>(Error::DivisionByZero)
        }),
{
}

/// A zero among the divisors of a number fails the division, where zero
/// divisors are not to be passed over.
pub proof fn lemma_zero_among_divisors_fails(
    unit: Unit,
    op: Arithmetic,
    numerator: Number,
    items: Seq<Json>,
    k: int,
)
    requires
        0 <= k < items.len(),
        items[k] matches Json::Number(divisor) && divisor.is_zero(),
    ensures
        spread(unit, op, numerator, items, false, items.len()) is Err,
        spread(unit, op, numerator, items, false, k as nat) is Ok ==> spread(
            unit,
            op,
            numerator,
            items,
            false,
            items.len(),
        ) == Err::<Seq<Json>, Error>(zero_error(op)),
        division(unit, op, Json::Number(numerator), Json::Array(items), false) is Err,
{
    assert(spread(unit, op, numerator, items, false, (k + 1) as nat) is Err);
    lemma_spread_fails(unit, op, numerator, items, false, (k + 1) as nat, items.len());
}

/// A zero among the divisors of a number is dropped, where zero divisors are
/// to be passed over: the division goes as if the zero were not among them.
pub proof fn lemma_zero_among_divisors_dropped(
    unit: Unit,
    op: Arithmetic,
    numerator: Number,
    items: Seq<Json>,
    k: int,
)
    requires
        0 <= k < items.len(),
        items[k] matches Json::Number(divisor) && divisor.is_zero(),
    ensures
        spread(unit, op, numerator, items, true, items.len()) == spread(
            unit,
            op,
            numerator,
            items.remove(k),
            true,
            (items.len() - 1) as nat,
        ),
        division(unit, op, Json::Number(numerator), Json::Array(items), true) == division(
            unit,
            op,
            Json::Number(numerator),
            Json::Array(items.remove(k)),
            true,
        ),
{
    lemma_spread_without(unit, op, numerator, items, k, items.len());
}

/// The division by the first `n` divisors, a zero at place `k` among them,
/// is the division by the `n - 1` divisors that are left without it.
proof fn lemma_spread_without(
    unit: Unit,
    op: Arithmetic,
    numerator: Number,
    items: Seq<Json>,
    k: int,
    n: nat,
)
    requires
        0 <= k < n <= items.len(),
        items[k] matches Json::Number(divisor) && divisor.is_zero(),
    ensures
        spread(unit, op, numerator, items, true, n) == spread(
            unit,
            op,
            numerator,
            items.remove(k),
            true,
            (n - 1) as nat,
        ),
    decreases n,
{
    let rest = items.remove(k);
    if n == k + 1 {
        lemma_spread_prefix(unit, op, numerator, items, rest, true, k as nat);
    } else {
        lemma_spread_without(unit, op, numerator, items, k, (n - 1) as nat);
        assert(rest[n - 2] == items[n - 1]);
    }
}

/// The division by the first `n` items depends on those items only.
pub proof fn lemma_spread_prefix(
    unit: Unit,
    op: Arithmetic,
    numerator: Number,
    s: Seq<Json>,
    t: Seq<Json>,
    ignore_zero: bool,
    n: nat,
)
    requires
        n <= s.len(),
        n <= t.len(),
        forall|j: int| 0 <= j < n ==> s[j] == t[j],
    ensures
        spread(unit, op, numerator, s, ignore_zero, n) == spread(
            unit,
            op,
            numerator,
            t,
            ignore_zero,
            n,
        ),
    decreases n,
{
    if n > 0 {
        lemma_spread_prefix(unit, op, numerator, s, t, ignore_zero, (n - 1) as nat);
    }
}

} // verus!
