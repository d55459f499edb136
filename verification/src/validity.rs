//! Well-formedness is kept: what a query makes of a well-formed input is
//! well-formed.

use crate::filter::{lemma_segment_end, member, resolve_from, segment_end, select, word_end};
use crate::laws::lemma_insert;
use crate::number::{Arithmetic, Number};
use crate::operator::{
    apply,
    arithmetic,
    difference,
    division,
    first_occurrence,
    letters,
    merge,
    merge_missing,
    pieces,
    product,
    product_fields,
    quotient,
    reduce,
    scale,
    split,
    spread,
    sum,
    without,
    Operator,
    Unit,
};
use crate::template::{fill, fill_fields, unmark};
use crate::text::is_first_occurrence;
use crate::value::{has_key, insert, key_index, lemma_has_key, lookup, unique_keys, Fields, Json};
use vstd::prelude::*;

verus! {

/// Whether the fields are those of a well-formed object.
pub open spec fn fields_wf(fields: Fields) -> bool {
    unique_keys(fields) && forall|i: int| 0 <= i < fields.len() ==> (#[trigger] fields[i]).1.wf()
}

/// Whether the items are those of a well-formed array.
pub open spec fn items_wf(items: Seq<Json>) -> bool {
    forall|i: int| 0 <= i < items.len() ==> (#[trigger] items[i]).wf()
}

/// An array is well-formed where its items are.
pub proof fn lemma_array_wf(items: Seq<Json>)
    ensures
        Json::Array(items).wf() == items_wf(items),
{
    let x = Json::Array(items);
    assert(x->Array_0 == items);
    if x.wf() {
        assert(forall|i: int| 0 <= i < items.len() ==> (#[trigger] x->Array_0[i]).wf());
    }
    if items_wf(items) {
        assert(forall|i: int| 0 <= i < items.len() ==> (#[trigger] x->Array_0[i]).wf());
    }
}

/// An object is well-formed where its fields are.
pub proof fn lemma_object_wf(fields: Fields)
    ensures
        Json::Object(fields).wf() == fields_wf(fields),
{
    let x = Json::Object(fields);
    assert(x->Object_0 == fields);
    if x.wf() {
        assert(forall|i: int| 0 <= i < fields.len() ==> (#[trigger] x->Object_0[i]).1.wf());
    }
    if fields_wf(fields) {
        assert(forall|i: int| 0 <= i < fields.len() ==> (#[trigger] x->Object_0[i]).1.wf());
    }
}

/// Whether every operand of a chain is well-formed.
pub open spec fn chain_wf(chain: Seq<(Operator, Json)>) -> bool {
    forall|i: int| 0 <= i < chain.len() ==> (#[trigger] chain[i]).1.wf()
}

/// One more well-formed item keeps the items well-formed.
pub proof fn lemma_push_wf(items: Seq<Json>, value: Json)
    requires
        items_wf(items),
        value.wf(),
    ensures
        items_wf(items.push(value)),
{
    let after = items.push(value);
    assert forall|i: int| 0 <= i < after.len() implies (#[trigger] after[i]).wf() by {
        if i < items.len() {
            assert(after[i] == items[i]);
        }
    }
}

/// Well-formed items joined are well-formed.
pub proof fn lemma_join_wf(a: Seq<Json>, b: Seq<Json>)
    requires
        items_wf(a),
        items_wf(b),
    ensures
        items_wf(a + b),
{
    let after = a + b;
    assert forall|i: int| 0 <= i < after.len() implies (#[trigger] after[i]).wf() by {
        if i < a.len() {
            assert(after[i] == a[i]);
        } else {
            assert(after[i] == b[i - a.len()]);
        }
    }
}

/// Setting a field to a well-formed value keeps the fields well-formed.
pub proof fn lemma_insert_wf(fields: Fields, key: Seq<char>, value: Json)
    requires
        fields_wf(fields),
        value.wf(),
    ensures
        fields_wf(insert(fields, key, value)),
{
    lemma_insert(fields, key, value, key);
    let after = insert(fields, key, value);
    if has_key(fields, key) {
        lemma_has_key(fields, key);
    }
    assert forall|i: int| 0 <= i < after.len() implies (#[trigger] after[i]).1.wf() by {
        if has_key(fields, key) {
            if i != key_index(fields, key) {
                assert(after[i] == fields[i]);
            }
        } else {
            if i < fields.len() {
                assert(after[i] == fields[i]);
            }
        }
    }
}

/// The value of a field of well-formed fields is well-formed.
pub proof fn lemma_lookup_wf(fields: Fields, key: Seq<char>)
    requires
        fields_wf(fields),
    ensures
        lookup(fields, key) matches Some(value) ==> value.wf(),
{
    if has_key(fields, key) {
        lemma_has_key(fields, key);
    }
}

/// What a path selects from a well-formed value is well-formed.
pub proof fn lemma_resolve_wf(value: Json, path: Seq<char>, i: int)
    requires
        value.wf(),
    ensures
        resolve_from(value, path, i).wf(),
    decreases path.len() - i,
{
    if 0 <= i < path.len() {
        if path[i] == '.' {
            lemma_segment_end(path, i);
            lemma_select_wf(value, path, i);
            lemma_resolve_wf(select(value, path, i), path, segment_end(path, i));
        } else {
            lemma_resolve_wf(value, path, i + 1);
        }
    }
}

/// A field of a well-formed value is well-formed.
pub proof fn lemma_member_wf(value: Json, key: Seq<char>)
    requires
        value.wf(),
    ensures
        member(value, key).wf(),
{
    match value {
        Json::Object(fields) => {
            lemma_object_wf(fields);
            lemma_lookup_wf(fields, key);
        },
        _ => {},
    }
}

/// What a segment selects from a well-formed value is well-formed.
pub proof fn lemma_select_wf(value: Json, path: Seq<char>, i: int)
    requires
        value.wf(),
    ensures
        select(value, path, i).wf(),
{
    let k = word_end(path, i + 1);
    let key = path.subrange(i + 1, k);
    lemma_member_wf(value, key);
    let inner = if key.len() > 0 {
        member(value, key)
    } else {
        value
    };
    match inner {
        Json::Array(items) => {
            lemma_array_wf(items);
        },
        _ => {},
    }
}

/// A well-formed document filled from a well-formed input is well-formed.
pub proof fn lemma_fill_wf(template: Json, input: Json)
    requires
        template.wf(),
        input.wf(),
    ensures
        fill(template, input).wf(),
    decreases template, 0nat,
{
    match template {
        Json::String(s) => {
            if s.len() > 0 && s[0] == '.' {
                lemma_resolve_wf(input, s, 0);
            }
        },
        Json::Array(items) => {
            let filled = fill(template, input)->Array_0;
            lemma_array_wf(items);
            assert forall|i: int| 0 <= i < filled.len() implies (#[trigger] filled[i]).wf() by {
                lemma_fill_wf(items[i], input);
            }
            lemma_array_wf(filled);
        },
        Json::Object(fields) => {
            lemma_object_wf(fields);
            lemma_fill_fields_wf(fields, input, fields.len());
            lemma_object_wf(fill_fields(fields, input, fields.len()));
        },
        _ => {},
    }
}

/// Well-formed fields filled from a well-formed input are well-formed.
pub proof fn lemma_fill_fields_wf(fields: Fields, input: Json, n: nat)
    requires
        fields_wf(fields),
        input.wf(),
        n <= fields.len(),
    ensures
        fields_wf(fill_fields(fields, input, n)),
    decreases fields, n,
{
    if n > 0 {
        lemma_fill_fields_wf(fields, input, (n - 1) as nat);
        lemma_fill_wf(fields[n - 1].1, input);
        lemma_insert_wf(
            fill_fields(fields, input, (n - 1) as nat),
            unmark(fields[n - 1].0),
            fill(fields[n - 1].1, input),
        );
    }
}

/// Well-formed fields merged are well-formed.
pub proof fn lemma_merge_wf(a: Fields, b: Fields, n: nat)
    requires
        fields_wf(a),
        fields_wf(b),
        n <= b.len(),
    ensures
        fields_wf(merge(a, b, n)),
    decreases n,
{
    if n > 0 {
        lemma_merge_wf(a, b, (n - 1) as nat);
        lemma_insert_wf(merge(a, b, (n - 1) as nat), b[n - 1].0, b[n - 1].1);
    }
}

/// What is left of well-formed items is well-formed.
pub proof fn lemma_without_wf(a: Seq<Json>, b: Seq<Json>, n: nat)
    requires
        items_wf(a),
        n <= a.len(),
    ensures
        items_wf(without(a, b, n)),
    decreases n,
{
    if n > 0 {
        lemma_without_wf(a, b, (n - 1) as nat);
        lemma_push_wf(without(a, b, (n - 1) as nat), a[n - 1]);
    }
}

/// The sum of well-formed values is well-formed.
pub proof fn lemma_sum_wf(unit: Unit, x: Json, y: Json)
    requires
        x.wf(),
        y.wf(),
    ensures
        sum(unit, x, y) matches Ok(value) ==> value.wf(),
{
    match (x, y) {
        (Json::Object(a), Json::Object(b)) => {
            lemma_object_wf(a);
            lemma_object_wf(b);
            lemma_merge_wf(a, b, b.len());
            lemma_object_wf(merge(a, b, b.len()));
        },
        (Json::Array(a), Json::Array(b)) => {
            lemma_array_wf(a);
            lemma_array_wf(b);
            lemma_join_wf(a, b);
            lemma_array_wf(a + b);
        },
        _ => {},
    }
}

/// The difference of well-formed values is well-formed.
pub proof fn lemma_difference_wf(unit: Unit, x: Json, y: Json)
    requires
        x.wf(),
        y.wf(),
    ensures
        difference(unit, x, y) matches Ok(value) ==> value.wf(),
{
    match (x, y) {
        (Json::Array(a), Json::Array(b)) => {
            lemma_array_wf(a);
            lemma_without_wf(a, b, a.len());
            lemma_array_wf(without(a, b, a.len()));
        },
        _ => {},
    }
}

/// The product of well-formed values is well-formed.
pub proof fn lemma_product_wf(unit: Unit, x: Json, y: Json)
    requires
        x.wf(),
        y.wf(),
    ensures
        product(unit, x, y) matches Ok(value) ==> value.wf(),
    decreases x, 0nat,
{
    match (x, y) {
        (Json::Object(a), Json::Object(b)) => {
            lemma_object_wf(a);
            lemma_object_wf(b);
            if product_fields(unit, a, b, a.len()) is Ok {
                lemma_product_fields_wf(unit, a, b, a.len());
                lemma_merge_missing_wf(product_fields(unit, a, b, a.len())->Ok_0, a, b, b.len());
                lemma_object_wf(
                    merge_missing(product_fields(unit, a, b, a.len())->Ok_0, a, b, b.len()),
                );
            }
        },
        _ => {},
    }
}

/// The products of well-formed fields are well-formed.
pub proof fn lemma_product_fields_wf(unit: Unit, a: Fields, b: Fields, n: nat)
    requires
        fields_wf(a),
        fields_wf(b),
        n <= a.len(),
    ensures
        product_fields(unit, a, b, n) matches Ok(fields) ==> fields_wf(fields),
    decreases a, n,
{
    if n > 0 {
        lemma_product_fields_wf(unit, a, b, (n - 1) as nat);
        match product_fields(unit, a, b, (n - 1) as nat) {
            Ok(done) => {
                lemma_lookup_wf(b, a[n - 1].0);
                match lookup(b, a[n - 1].0) {
                    Some(other) => {
                        lemma_product_wf(unit, a[n - 1].1, other);
                        match product(unit, a[n - 1].1, other) {
                            Ok(value) => {
                                lemma_insert_wf(done, a[n - 1].0, value);
                            },
                            Err(_) => {},
                        }
                    },
                    None => {
                        lemma_insert_wf(done, a[n - 1].0, a[n - 1].1);
                    },
                }
            },
            Err(_) => {},
        }
    }
}

/// Well-formed fields with the missing ones of well-formed fields set in
/// them are well-formed.
pub proof fn lemma_merge_missing_wf(fields: Fields, a: Fields, b: Fields, n: nat)
    requires
        fields_wf(fields),
        fields_wf(b),
        n <= b.len(),
    ensures
        fields_wf(merge_missing(fields, a, b, n)),
    decreases n,
{
    if n > 0 {
        lemma_merge_missing_wf(fields, a, b, (n - 1) as nat);
        if !has_key(a, b[n - 1].0) {
            lemma_insert_wf(merge_missing(fields, a, b, (n - 1) as nat), b[n - 1].0, b[n - 1].1);
        }
    }
}

/// The quotients of a number by divisors are well-formed.
pub proof fn lemma_spread_wf(
    unit: Unit,
    op: Arithmetic,
    numerator: Number,
    items: Seq<Json>,
    ignore_zero: bool,
    n: nat,
)
    requires
        n <= items.len(),
    ensures
        spread(unit, op, numerator, items, ignore_zero, n) matches Ok(done) ==> items_wf(done),
    decreases n,
{
    if n > 0 {
        lemma_spread_wf(unit, op, numerator, items, ignore_zero, (n - 1) as nat);
        match (spread(unit, op, numerator, items, ignore_zero, (n - 1) as nat), items[n - 1]) {
            (Ok(done), Json::Number(divisor)) => {
                lemma_push_wf(done, arithmetic(unit, op, numerator, divisor));
            },
            _ => {},
        }
    }
}

/// The quotients of items by a number are well-formed.
pub proof fn lemma_scale_wf(unit: Unit, op: Arithmetic, items: Seq<Json>, divisor: Number, n: nat)
    requires
        n <= items.len(),
    ensures
        scale(unit, op, items, divisor, n) matches Ok(done) ==> items_wf(done),
    decreases n,
{
    if n > 0 {
        lemma_scale_wf(unit, op, items, divisor, (n - 1) as nat);
        match (scale(unit, op, items, divisor, (n - 1) as nat), items[n - 1]) {
            (Ok(done), Json::Number(numerator)) => {
                lemma_push_wf(done, arithmetic(unit, op, numerator, divisor));
            },
            _ => {},
        }
    }
}

/// What a division gives is well-formed.
pub proof fn lemma_division_wf(unit: Unit, op: Arithmetic, x: Json, y: Json, ignore_zero: bool)
    ensures
        division(unit, op, x, y, ignore_zero) matches Ok(value) ==> value.wf(),
{
    match (x, y) {
        (Json::Number(numerator), Json::Array(items)) => {
            lemma_spread_wf(unit, op, numerator, items, ignore_zero, items.len());
            match spread(unit, op, numerator, items, ignore_zero, items.len()) {
                Ok(done) => lemma_array_wf(done),
                Err(_) => {},
            }
        },
        (Json::Array(items), Json::Number(divisor)) => {
            lemma_scale_wf(unit, op, items, divisor, items.len());
            match scale(unit, op, items, divisor, items.len()) {
                Ok(done) => lemma_array_wf(done),
                Err(_) => {},
            }
        },
        _ => {},
    }
}

/// The pieces of a text are well-formed.
pub proof fn lemma_pieces_wf(text: Seq<char>, separator: Seq<char>)
    ensures
        items_wf(pieces(text, separator)),
    decreases text.len(),
{
    if separator.len() > 0 && exists|at: int|
        is_first_occurrence(text, separator, 0, at) {
        let at = first_occurrence(text, separator);
        lemma_pieces_wf(text.subrange(at + separator.len(), text.len() as int), separator);
        lemma_join_wf(
            seq![Json::String(text.subrange(0, at))],
            pieces(text.subrange(at + separator.len(), text.len() as int), separator),
        );
    }
}

/// A quotient is well-formed.
pub proof fn lemma_quotient_wf(unit: Unit, x: Json, y: Json, ignore_zero: bool)
    ensures
        quotient(unit, x, y, ignore_zero) matches Ok(value) ==> value.wf(),
{
    match (x, y) {
        (Json::String(text), Json::String(separator)) => {
            lemma_pieces_wf(text, separator);
            assert(items_wf(letters(text)));
            lemma_array_wf(split(text, separator));
        },
        _ => {
            lemma_division_wf(unit, Arithmetic::Divide, x, y, ignore_zero);
        },
    }
}

/// What an operator makes of well-formed values is well-formed.
pub proof fn lemma_apply_wf(unit: Unit, operator: Operator, x: Json, y: Json)
    requires
        x.wf(),
        y.wf(),
    ensures
        apply(unit, operator, x, y) matches Ok(value) ==> value.wf(),
{
    match operator {
        Operator::Add => lemma_sum_wf(unit, x, y),
        Operator::Subtract => lemma_difference_wf(unit, x, y),
        Operator::Multiply => lemma_product_wf(unit, x, y),
        Operator::Divide { ignore_zero } => lemma_quotient_wf(unit, x, y, ignore_zero),
        Operator::Modulo { ignore_zero } => lemma_division_wf(
            unit,
            Arithmetic::Remainder,
            x,
            y,
            ignore_zero,
        ),
        Operator::Identity => {},
    }
}

/// The value of a chain of well-formed operands is well-formed.
pub proof fn lemma_reduce_wf(unit: Unit, chain: Seq<(Operator, Json)>, n: nat)
    requires
        chain_wf(chain),
        0 < chain.len(),
        n <= chain.len(),
    ensures
        reduce(unit, chain, n) matches Ok(value) ==> value.wf(),
    decreases n,
{
    if n > 1 {
        lemma_reduce_wf(unit, chain, (n - 1) as nat);
        match reduce(unit, chain, (n - 1) as nat) {
            Ok(so_far) => {
                lemma_apply_wf(unit, chain[n - 1].0, so_far, chain[n - 1].1);
            },
            Err(_) => {},
        }
    }
}

} // verus!
