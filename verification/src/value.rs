//! Domain values in their generic form: what a schema maps to and from nodes.

use vstd::prelude::*;
use crate::identifier::Identifier;
use crate::quantity::Quantity;
use crate::text::{copy_bytes, same_bytes};

verus! {

/// The value of one field, or of a whole record.
#[derive(Debug, PartialEq, Eq)]
pub enum Value {
    /// An unsigned whole number.
    Integer(u64),
    /// A physical quantity.
    Quantity(Quantity),
    /// A unique identifier.
    Identifier(Identifier),
    /// A string.
    Text(Vec<u8>),
    /// A variant of an enumeration, by its place among the declared spellings.
    Variant(usize),
    /// A boolean that is written as the presence of a keyword.
    Flag(bool),
    /// An optional field that has no value.
    Absent,
    /// A record: the values of its fields, in the order of its schema.
    Record(Vec<Value>),
    /// A value of a union: the place of its shape among the candidates, and
    /// the values of that shape's fields.
    Choice(usize, Vec<Value>),
    /// An ordered sequence of records, or of values of a union.
    Sequence(Vec<Value>),
}

/// The mathematical value of a [`Value`].
pub enum ValueV {
    Integer(u64),
    Quantity(Quantity),
    Identifier(Identifier),
    Text(Seq<u8>),
    Variant(usize),
    Flag(bool),
    Absent,
    Record(Seq<ValueV>),
    Choice(usize, Seq<ValueV>),
    Sequence(Seq<ValueV>),
}

/// The mathematical values of the elements of a vector of values.
pub open spec fn items_view(items: Vec<Value>) -> Seq<ValueV>
    decreases items, 1int,
{
    Seq::new(
        items.len() as nat,
        |i: int|
            if 0 <= i < items.len() {
                value_view(items[i])
            } else {
                arbitrary()
            },
    )
}

/// The mathematical value of a [`Value`].
pub open spec fn value_view(v: Value) -> ValueV
    decreases v, 0int,
{
    match v {
        Value::Integer(n) => ValueV::Integer(n),
        Value::Quantity(q) => ValueV::Quantity(q),
        Value::Identifier(id) => ValueV::Identifier(id),
        Value::Text(t) => ValueV::Text(t@),
        Value::Variant(i) => ValueV::Variant(i),
        Value::Flag(b) => ValueV::Flag(b),
        Value::Absent => ValueV::Absent,
        Value::Record(items) => ValueV::Record(items_view(items)),
        Value::Choice(k, items) => ValueV::Choice(k, items_view(items)),
        Value::Sequence(items) => ValueV::Sequence(items_view(items)),
    }
}

impl View for Value {
    type V = ValueV;

    open spec fn view(&self) -> ValueV {
        value_view(*self)
    }
}

/// The values of a run of values, in order.
pub open spec fn values_view(items: Seq<Value>) -> Seq<ValueV> {
    items.map_values(|v: Value| v@)
}

/// The elements of a vector have the values of its view, one for one.
pub proof fn lemma_items_view(items: Vec<Value>)
    ensures
        items_view(items) == values_view(items@),
{
    assert(items_view(items) =~= values_view(items@));
}

/// The value of an optional value.
pub open spec fn option_value_view(o: Option<Value>) -> Option<ValueV> {
    match o {
        Some(v) => Some(v@),
        None => None,
    }
}

/// A copy of a run of values.
pub fn clone_values(items: &Vec<Value>) -> (r: Vec<Value>)
    ensures
        values_view(r@) == values_view(items@),
    decreases items, 1int,
{
    let mut out: Vec<Value> = Vec::new();
    let mut i: usize = 0;
    while i < items.len()
        invariant
            i <= items@.len(),
            out@.len() == i,
            forall|k: int| 0 <= k < i ==> (#[trigger] out@[k])@ == items@[k]@,
        decreases items@.len() - i,
    {
        proof {
            vstd::std_specs::vec::axiom_vec_index_decreases(*items, i as int);
        }
        out.push(clone_value(&items[i]));
        i += 1;
    }
    assert(values_view(out@) =~= values_view(items@));
    out
}

/// A copy of a value.
pub fn clone_value(v: &Value) -> (r: Value)
    ensures
        r@ == v@,
    decreases v, 0int,
{
    match v {
        Value::Integer(n) => Value::Integer(*n),
        Value::Quantity(q) => Value::Quantity(*q),
        Value::Identifier(id) => Value::Identifier(*id),
        Value::Text(t) => Value::Text(copy_bytes(t.as_slice())),
        Value::Variant(i) => Value::Variant(*i),
        Value::Flag(b) => Value::Flag(*b),
        Value::Absent => Value::Absent,
        Value::Record(items) => {
            let copy = clone_values(items);
            proof {
                lemma_items_view(*items);
                lemma_items_view(copy);
            }
            Value::Record(copy)
        },
        Value::Choice(k, items) => {
            let copy = clone_values(items);
            proof {
                lemma_items_view(*items);
                lemma_items_view(copy);
            }
            Value::Choice(*k, copy)
        },
        Value::Sequence(items) => {
            let copy = clone_values(items);
            proof {
                lemma_items_view(*items);
                lemma_items_view(copy);
            }
            Value::Sequence(copy)
        },
    }
}

/// Whether two runs of values are equal, element by element.
pub fn same_values(a: &Vec<Value>, b: &Vec<Value>) -> (r: bool)
    ensures
        r == (values_view(a@) == values_view(b@)),
    decreases a, 1int,
{
    if a.len() != b.len() {
        assert(values_view(a@).len() != values_view(b@).len());
        return false;
    }
    let mut i: usize = 0;
    while i < a.len()
        invariant
            i <= a@.len(),
            a@.len() == b@.len(),
            forall|k: int| 0 <= k < i ==> (#[trigger] a@[k])@ == b@[k]@,
        decreases a@.len() - i,
    {
        proof {
            vstd::std_specs::vec::axiom_vec_index_decreases(*a, i as int);
        }
        if !same_value(&a[i], &b[i]) {
            assert(values_view(a@)[i as int] != values_view(b@)[i as int]);
            return false;
        }
        i += 1;
    }
    assert(values_view(a@) =~= values_view(b@));
    true
}

/// Whether two values are equal.
pub fn same_value(a: &Value, b: &Value) -> (r: bool)
    ensures
        r == (a@ == b@),
    decreases a, 0int,
{
    match (a, b) {
        (Value::Integer(x), Value::Integer(y)) => *x == *y,
        (Value::Quantity(x), Value::Quantity(y)) => x.nanos == y.nanos,
        (Value::Identifier(x), Value::Identifier(y)) => x.bits == y.bits,
        (Value::Text(x), Value::Text(y)) => same_bytes(x.as_slice(), y.as_slice()),
        (Value::Variant(x), Value::Variant(y)) => *x == *y,
        (Value::Flag(x), Value::Flag(y)) => *x == *y,
        (Value::Absent, Value::Absent) => true,
        (Value::Record(x), Value::Record(y)) => {
            proof {
                lemma_items_view(*x);
                lemma_items_view(*y);
            }
            same_values(x, y)
        },
        (Value::Choice(j, x), Value::Choice(k, y)) => {
            proof {
                lemma_items_view(*x);
                lemma_items_view(*y);
            }
            *j == *k && same_values(x, y)
        },
        (Value::Sequence(x), Value::Sequence(y)) => {
            proof {
                lemma_items_view(*x);
                lemma_items_view(*y);
            }
            same_values(x, y)
        },
        _ => false,
    }
}

} // verus!
