//! The value tree that queries read and produce, and its mathematical model.
//!
//! [`Value`] is the executable tree; [`Json`] is what it stands for, with
//! sequences in place of vectors and strings. Every contract in this crate is
//! stated over [`Json`].

use crate::error::Error;
use crate::number::Number;
use vstd::prelude::*;

verus! {

/// The fields of an object, in the order in which they were inserted.
pub type Fields = Seq<(Seq<char>, Json)>;

/// The model of a value.
#[verifier::ext_equal]
pub enum Json {
    Null,
    Bool(bool),
    Number(Number),
    String(Seq<char>),
    Array(Seq<Json>),
    Object(Fields),
}

/// A value: null, a boolean, a number, a string, an array of values, or an
/// object, whose fields are kept in insertion order.
#[derive(Debug)]
pub enum Value {
    Null,
    Bool(bool),
    Number(Number),
    String(String),
    Array(Vec<Value>),
    Object(Vec<(String, Value)>),
}

/// The six types a value can have.
#[derive(Clone, Copy, Debug, PartialEq, Eq, Structural)]
pub enum Kind {
    Null,
    Bool,
    Number,
    String,
    Array,
    Object,
}

/// What a value stands for.
pub open spec fn model(v: Value) -> Json
    decreases v,
{
    match v {
        Value::Null => Json::Null,
        Value::Bool(b) => Json::Bool(b),
        Value::Number(n) => Json::Number(n),
        Value::String(s) => Json::String(s@),
        Value::Array(items) => Json::Array(
            Seq::new(
                items@.len(),
                |i: int|
                    if 0 <= i < items@.len() {
                        model(items@[i])
                    } else {
                        Json::Null
                    },
            ),
        ),
        Value::Object(fields) => Json::Object(
            Seq::new(
                fields@.len(),
                |i: int|
                    if 0 <= i < fields@.len() {
                        (fields@[i].0@, model(fields@[i].1))
                    } else {
                        (Seq::empty(), Json::Null)
                    },
            ),
        ),
    }
}

impl View for Value {
    type V = Json;

    open spec fn view(&self) -> Json {
        model(*self)
    }
}

/// The model of what a function gives: the model of its value, or its error.
pub open spec fn result_view(r: Result<Value, Error>) -> Result<Json, Error> {
    match r {
        Ok(value) => Ok(value@),
        Err(e) => Err(e),
    }
}

/// The models of a sequence of values.
pub open spec fn items_view(items: Seq<Value>) -> Seq<Json> {
    Seq::new(items.len(), |i: int| items[i]@)
}

/// The models of a sequence of fields.
pub open spec fn fields_view(fields: Seq<(String, Value)>) -> Fields {
    Seq::new(fields.len(), |i: int| (fields[i].0@, fields[i].1@))
}

/// The model of an array is the array of the models of its items.
pub proof fn lemma_array_view(items: Vec<Value>)
    ensures
        Value::Array(items)@ == Json::Array(items_view(items@)),
{
    let v = Value::Array(items);
    assert(v@->Array_0.len() == items@.len());
    assert forall|i: int| 0 <= i < items@.len() implies v@->Array_0[i] == items_view(items@)[i] by {
        assert(v@->Array_0[i] == items@[i]@);
    }
    assert(v@->Array_0 =~= items_view(items@));
}

/// The model of an object is the object of the models of its fields.
pub proof fn lemma_object_view(fields: Vec<(String, Value)>)
    ensures
        Value::Object(fields)@ == Json::Object(fields_view(fields@)),
{
    let v = Value::Object(fields);
    assert(v@ is Object);
    assert(v@->Object_0.len() == fields@.len());
    assert forall|i: int| 0 <= i < fields@.len() implies v@->Object_0[i] == fields_view(
        fields@,
    )[i] by {
        assert(v@->Object_0[i] == (fields@[i].0@, fields@[i].1@));
    }
    assert(v@->Object_0 =~= fields_view(fields@));
}

/// Whether a field of the name is among the fields.
pub open spec fn has_key(fields: Fields, key: Seq<char>) -> bool {
    exists|i: int| 0 <= i < fields.len() && #[trigger] fields[i].0 == key
}

/// Whether `i` is the place of the first field of the name.
pub open spec fn is_key_index(fields: Fields, key: Seq<char>, i: int) -> bool {
    &&& 0 <= i < fields.len()
    &&& fields[i].0 == key
    &&& forall|j: int| 0 <= j < i ==> #[trigger] fields[j].0 != key
}

/// The place of the first field of the name.
pub open spec fn key_index(fields: Fields, key: Seq<char>) -> int {
    choose|i: int| is_key_index(fields, key, i)
}

/// The value of the field of the name, where there is one.
pub open spec fn lookup(fields: Fields, key: Seq<char>) -> Option<Json> {
    if has_key(fields, key) {
        Some(fields[key_index(fields, key)].1)
    } else {
        None
    }
}

/// The fields with the field of the name set to the value: in its old place
/// where the name was there, at the end where it was not.
pub open spec fn insert(fields: Fields, key: Seq<char>, value: Json) -> Fields {
    if has_key(fields, key) {
        fields.update(key_index(fields, key), (key, value))
    } else {
        fields.push((key, value))
    }
}

/// Whether no two fields have the same name.
pub open spec fn unique_keys(fields: Fields) -> bool {
    forall|i: int, j: int|
        0 <= i < j < fields.len() ==> #[trigger] fields[i].0 != #[trigger] fields[j].0
}

impl Json {
    /// The type of the value.
    pub open spec fn kind(self) -> Kind {
        match self {
            Json::Null => Kind::Null,
            Json::Bool(_) => Kind::Bool,
            Json::Number(_) => Kind::Number,
            Json::String(_) => Kind::String,
            Json::Array(_) => Kind::Array,
            Json::Object(_) => Kind::Object,
        }
    }

    /// Well-formedness: every number in the tree is well-formed and no object
    /// has two fields of one name.
    pub open spec fn wf(self) -> bool
        decreases self,
    {
        match self {
            Json::Number(n) => n.wf(),
            Json::Array(items) => forall|i: int|
                0 <= i < items.len() ==> (#[trigger] items[i]).wf(),
            Json::Object(fields) => unique_keys(fields) && forall|i: int|
                0 <= i < fields.len() ==> (#[trigger] fields[i]).1.wf(),
            _ => true,
        }
    }

    /// Equality of values: numbers as [`Number::same`] says, arrays item by
    /// item, and objects as mappings, whatever the order of their fields.
    pub open spec fn same(self, other: Json) -> bool
        decreases self,
    {
        match (self, other) {
            (Json::Null, Json::Null) => true,
            (Json::Bool(a), Json::Bool(b)) => a == b,
            (Json::Number(a), Json::Number(b)) => a.same(b),
            (Json::String(a), Json::String(b)) => a == b,
            (Json::Array(a), Json::Array(b)) => a.len() == b.len() && forall|i: int|
                0 <= i < a.len() ==> (#[trigger] a[i]).same(b[i]),
            (Json::Object(a), Json::Object(b)) => a.len() == b.len() && forall|i: int|
                0 <= i < a.len() ==> has_key(b, (#[trigger] a[i]).0) && a[i].1.same(
                    b[key_index(b, a[i].0)].1,
                ),
            _ => false,
        }
    }
}

/// The place of the first field of the name, where there is one.
pub fn find_key(fields: &Vec<(String, Value)>, key: &String) -> (r: Option<usize>)
    ensures
        r is Some == has_key(fields_view(fields@), key@),
        r matches Some(i) ==> is_key_index(fields_view(fields@), key@, i as int) && i
            == key_index(fields_view(fields@), key@),
{
    let ghost model = fields_view(fields@);
    let mut i: usize = 0;
    while i < fields.len()
        invariant
            i <= fields.len(),
            model == fields_view(fields@),
            forall|j: int| 0 <= j < i ==> #[trigger] model[j].0 != key@,
        decreases fields.len() - i,
    {
        if fields[i].0 == *key {
            proof {
                assert(model[i as int].0 == key@);
                assert(is_key_index(model, key@, i as int));
                lemma_key_index(model, key@, i as int);
            }
            return Some(i);
        }
        i += 1;
    }
    None
}

/// The first field of a name is the only place that [`is_key_index`] holds
/// of.
pub proof fn lemma_key_index(fields: Fields, key: Seq<char>, i: int)
    requires
        is_key_index(fields, key, i),
    ensures
        has_key(fields, key),
        key_index(fields, key) == i,
{
    let j = key_index(fields, key);
    assert(is_key_index(fields, key, j));
    if j < i {
        assert(fields[j].0 != key);
    }
    if i < j {
        assert(fields[i].0 != key);
    }
}

/// A name that is among the fields has a first place.
pub proof fn lemma_has_key(fields: Fields, key: Seq<char>)
    requires
        has_key(fields, key),
    ensures
        is_key_index(fields, key, key_index(fields, key)),
    decreases fields.len(),
{
    let w = choose|i: int| 0 <= i < fields.len() && #[trigger] fields[i].0 == key;
    lemma_first_key(fields, key, w);
}

/// Fields with the name at place `w` have a first field of the name.
proof fn lemma_first_key(fields: Fields, key: Seq<char>, w: int)
    requires
        0 <= w < fields.len(),
        fields[w].0 == key,
    ensures
        is_key_index(fields, key, key_index(fields, key)),
    decreases w,
{
    if forall|j: int| 0 <= j < w ==> #[trigger] fields[j].0 != key {
        assert(is_key_index(fields, key, w));
    } else {
        let j = choose|j: int| 0 <= j < w && #[trigger] fields[j].0 == key;
        lemma_first_key(fields, key, j);
    }
}

/// Sets the field of the name to the value: in its old place where the name
/// is there, at the end where it is not.
pub fn insert_field(fields: &mut Vec<(String, Value)>, key: String, value: Value)
    ensures
        fields_view(final(fields)@) == insert(fields_view(old(fields)@), key@, value@),
{
    let ghost before = fields_view(fields@);
    match find_key(fields, &key) {
        Some(i) => {
            fields.set(i, (key, value));
            assert(fields_view(fields@) =~= before.update(i as int, (key@, value@)));
        },
        None => {
            fields.push((key, value));
            assert(fields_view(fields@) =~= before.push((key@, value@)));
        },
    }
}

impl Value {
    /// The type of the value.
    pub fn kind(&self) -> (r: Kind)
        ensures
            r == self@.kind(),
    {
        match self {
            Value::Null => Kind::Null,
            Value::Bool(_) => Kind::Bool,
            Value::Number(_) => Kind::Number,
            Value::String(_) => Kind::String,
            Value::Array(items) => {
                proof {
                    lemma_array_view(*items);
                }
                Kind::Array
            },
            Value::Object(fields) => {
                proof {
                    lemma_object_view(*fields);
                }
                Kind::Object
            },
        }
    }

    /// Whether two values are equal, as [`Json::same`] says.
    pub fn equals(&self, other: &Value) -> (r: bool)
        ensures
            r == self@.same(other@),
        decreases self,
    {
        match (self, other) {
            (Value::Null, Value::Null) => true,
            (Value::Bool(a), Value::Bool(b)) => *a == *b,
            (Value::Number(a), Value::Number(b)) => a.equals(b),
            (Value::String(a), Value::String(b)) => *a == *b,
            (Value::Array(a), Value::Array(b)) => {
                proof {
                    lemma_array_view(*a);
                    lemma_array_view(*b);
                }
                if a.len() != b.len() {
                    return false;
                }
                let mut i: usize = 0;
                while i < a.len()
                    invariant
                        i <= a.len(),
                        a.len() == b.len(),
                        self@ == Json::Array(items_view(a@)),
                        other@ == Json::Array(items_view(b@)),
                        forall|k: int| 0 <= k < a@.len() ==> decreases_to!(self => #[trigger] a@[k]),
                        forall|k: int|
                            0 <= k < i ==> (#[trigger] items_view(a@)[k]).same(items_view(b@)[k]),
                    decreases a.len() - i,
                {
                    if !a[i].equals(&b[i]) {
                        assert(!items_view(a@)[i as int].same(items_view(b@)[i as int]));
                        return false;
                    }
                    i += 1;
                }
                true
            },
            (Value::Object(a), Value::Object(b)) => {
                proof {
                    lemma_object_view(*a);
                    lemma_object_view(*b);
                }
                if a.len() != b.len() {
                    return false;
                }
                let ghost fa = fields_view(a@);
                let ghost fb = fields_view(b@);
                let mut i: usize = 0;
                while i < a.len()
                    invariant
                        i <= a.len(),
                        a.len() == b.len(),
                        fa == fields_view(a@),
                        fb == fields_view(b@),
                        self@ == Json::Object(fa),
                        other@ == Json::Object(fb),
                        forall|k: int| 0 <= k < a@.len() ==> decreases_to!(self => #[trigger] a@[k]),
                        forall|k: int|
                            0 <= k < i ==> has_key(fb, (#[trigger] fa[k]).0) && fa[k].1.same(
                                fb[key_index(fb, fa[k].0)].1,
                            ),
                    decreases a.len() - i,
                {
                    let found = find_key(b, &a[i].0);
                    match found {
                        None => {
                            assert(!has_key(fb, fa[i as int].0));
                            return false;
                        },
                        Some(j) => {
                            if !a[i].1.equals(&b[j].1) {
                                assert(!fa[i as int].1.same(fb[key_index(fb, fa[i as int].0)].1));
                                return false;
                            }
                        },
                    }
                    i += 1;
                }
                true
            },
            (Value::Array(a), _) => {
                proof {
                    lemma_array_view(*a);
                }
                false
            },
            (Value::Object(a), _) => {
                proof {
                    lemma_object_view(*a);
                }
                false
            },
            (_, Value::Array(b)) => {
                proof {
                    lemma_array_view(*b);
                }
                false
            },
            (_, Value::Object(b)) => {
                proof {
                    lemma_object_view(*b);
                }
                false
            },
            _ => false,
        }
    }
}

impl Clone for Value {
    fn clone(&self) -> (r: Value)
        ensures
            r@ == self@,
        decreases self,
    {
        match self {
            Value::Null => Value::Null,
            Value::Bool(b) => Value::Bool(*b),
            Value::Number(n) => Value::Number(*n),
            Value::String(s) => Value::String(s.clone()),
            Value::Array(items) => {
                let mut out: Vec<Value> = Vec::new();
                let mut i: usize = 0;
                while i < items.len()
                    invariant
                        i <= items.len(),
                        out@.len() == i,
                        forall|k: int|
                            0 <= k < items@.len() ==> decreases_to!(self => #[trigger] items@[k]),
                        forall|k: int| 0 <= k < i ==> (#[trigger] out@[k])@ == items@[k]@,
                    decreases items.len() - i,
                {
                    let item = items[i].clone();
                    out.push(item);
                    i += 1;
                }
                proof {
                    lemma_array_view(out);
                    lemma_array_view(*items);
                    assert(items_view(out@) =~= items_view(items@));
                }
                Value::Array(out)
            },
            Value::Object(fields) => {
                let mut out: Vec<(String, Value)> = Vec::new();
                let mut i: usize = 0;
                while i < fields.len()
                    invariant
                        i <= fields.len(),
                        out@.len() == i,
                        forall|k: int|
                            0 <= k < fields@.len() ==> decreases_to!(self => #[trigger] fields@[k]),
                        forall|k: int|
                            0 <= k < i ==> (#[trigger] out@[k]).0@ == fields@[k].0@ && out@[k].1@
                                == fields@[k].1@,
                    decreases fields.len() - i,
                {
                    let value = fields[i].1.clone();
                    out.push((fields[i].0.clone(), value));
                    i += 1;
                }
                proof {
                    lemma_object_view(out);
                    lemma_object_view(*fields);
                    assert(fields_view(out@) =~= fields_view(fields@));
                }
                Value::Object(out)
            },
        }
    }
}

impl PartialEq for Value {
    fn eq(&self, other: &Value) -> (r: bool) {
        self.equals(other)
    }
}

impl vstd::std_specs::cmp::PartialEqSpecImpl for Value {
    open spec fn obeys_eq_spec() -> bool {
        true
    }

    open spec fn eq_spec(&self, other: &Value) -> bool {
        self@.same(other@)
    }
}

} // verus!
