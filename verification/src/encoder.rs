//! The record mapper: encoding the values of a record as a list node, as its
//! schema directs.

use vstd::prelude::*;
use crate::laws::{value_reads_back, values_read_back};
use crate::record::{
    bare, choice_conforms, encode_field_spec, encode_fields_spec, encode_heterogeneous_spec,
    encode_homogeneous_spec, encode_record_spec, encode_union_spec, field_conforms, left_out,
    record_conforms, tag_nodes,
};
use crate::scalar::{encode_scalar, fits_scalar};
use crate::schema::{
    fields_view, lemma_field_items_view, lemma_schema_items_view, schemas_view, Field, Schema,
};
use crate::text::copy_bytes;
use crate::tree::{nodes_view, Atom, Node, NodeV};
use crate::value::{lemma_items_view, option_value_view, same_value, values_view, Value, ValueV};

verus! {

/// Whether a field with this value is left out of the output.
pub fn is_left_out(default: &Option<Value>, suppress: bool, value: &Value) -> (r: bool)
    ensures
        r == left_out(option_value_view(*default), suppress, value@),
{
    match default {
        Some(d) => suppress && same_value(d, value),
        None => false,
    }
}

/// Whether every value from the `i`-th on is a record of the schema.
pub open spec fn all_records(records: Seq<ValueV>, schema: crate::schema::SchemaV) -> bool {
    forall|i: int|
        0 <= i < records.len() ==> {
            &&& (#[trigger] records[i]) is Record
            &&& record_conforms(records[i]->Record_0, schema)
        }
}

/// Whether every value is a value of the union.
pub open spec fn all_choices(choices: Seq<ValueV>, variants: Seq<crate::schema::SchemaV>) -> bool {
    forall|i: int| 0 <= i < choices.len() ==> choice_conforms(#[trigger] choices[i], variants)
}

/// Encodes a value of a union: the record, by the schema of its own shape.
pub fn encode_union(k: usize, values: &Vec<Value>, variants: &Vec<Schema>) -> (node: Node)
    requires
        k < variants@.len(),
        record_conforms(values_view(values@), variants@[k as int]@),
    ensures
        node@ == encode_union_spec(k, values_view(values@), schemas_view(variants@)),
    decreases variants, 1int,
{
    proof {
        vstd::std_specs::vec::axiom_vec_index_decreases(*variants, k as int);
    }
    assert(schemas_view(variants@)[k as int] == variants@[k as int]@);
    encode_record(values, &variants[k])
}

/// Appends the nodes of a run of records of one schema, in their order.
pub fn append_homogeneous(out: &mut Vec<Node>, records: &Vec<Value>, schema: &Schema)
    requires
        all_records(values_view(records@), schema@),
    ensures
        nodes_view(final(out)@) == nodes_view(old(out)@) + encode_homogeneous_spec(
            values_view(records@),
            schema@,
            0,
        ),
    decreases schema, 1int,
{
    let ghost rs = values_view(records@);
    let ghost start = nodes_view(out@);
    let mut i: usize = 0;
    while i < records.len()
        invariant
            i <= records@.len(),
            rs == values_view(records@),
            all_records(rs, schema@),
            nodes_view(out@) + encode_homogeneous_spec(rs, schema@, i as int) == start
                + encode_homogeneous_spec(rs, schema@, 0),
        decreases records@.len() - i,
    {
        assert(rs[i as int] == records@[i as int]@);
        let ghost before = nodes_view(out@);
        match &records[i] {
            Value::Record(values) => {
                proof {
                    lemma_items_view(*values);
                }
                let node = encode_record(values, schema);
                out.push(node);
                proof {
                    let n = out@[out@.len() - 1]@;
                    assert(nodes_view(out@) =~= before.push(n));
                    assert(before.push(n) + encode_homogeneous_spec(rs, schema@, i + 1) =~= before
                        + (seq![n] + encode_homogeneous_spec(rs, schema@, i + 1)));
                }
            },
            _ => {},
        }
        i += 1;
    }
    assert(nodes_view(out@) + Seq::<NodeV>::empty() =~= nodes_view(out@));
}

/// Appends the nodes of a run of values of a union, in their order.
pub fn append_heterogeneous(out: &mut Vec<Node>, choices: &Vec<Value>, variants: &Vec<Schema>)
    requires
        all_choices(values_view(choices@), schemas_view(variants@)),
    ensures
        nodes_view(final(out)@) == nodes_view(old(out)@) + encode_heterogeneous_spec(
            values_view(choices@),
            schemas_view(variants@),
            0,
        ),
    decreases variants, 2int,
{
    let ghost cs = values_view(choices@);
    let ghost vs = schemas_view(variants@);
    let ghost start = nodes_view(out@);
    let mut i: usize = 0;
    while i < choices.len()
        invariant
            i <= choices@.len(),
            cs == values_view(choices@),
            vs == schemas_view(variants@),
            all_choices(cs, vs),
            nodes_view(out@) + encode_heterogeneous_spec(cs, vs, i as int) == start
                + encode_heterogeneous_spec(cs, vs, 0),
        decreases choices@.len() - i,
    {
        assert(cs[i as int] == choices@[i as int]@);
        assert(choice_conforms(cs[i as int], vs));
        let ghost before = nodes_view(out@);
        match &choices[i] {
            Value::Choice(k, values) => {
                proof {
                    lemma_items_view(*values);
                    assert(vs[*k as int] == variants@[*k as int]@);
                }
                let node = encode_union(*k, values, variants);
                out.push(node);
                proof {
                    let n = out@[out@.len() - 1]@;
                    assert(nodes_view(out@) =~= before.push(n));
                    assert(before.push(n) + encode_heterogeneous_spec(cs, vs, i + 1) =~= before + (
                    seq![n] + encode_heterogeneous_spec(cs, vs, i + 1)));
                }
            },
            _ => {},
        }
        i += 1;
    }
    assert(nodes_view(out@) + Seq::<NodeV>::empty() =~= nodes_view(out@));
}

/// Appends the nodes of one field: none where it is left out.
fn encode_field(out: &mut Vec<Node>, field: &Field, value: &Value)
    requires
        field_conforms(field@, value@),
    ensures
        nodes_view(final(out)@) == nodes_view(old(out)@) + encode_field_spec(field@, value@),
    decreases field, 0int,
{
    let ghost before = nodes_view(out@);
    match field {
        Field::Positional { kind, default, suppress } => {
            if !is_left_out(default, *suppress, value) {
                let atom = encode_scalar(kind, value);
                out.push(Node::Atom(atom));
                assert(nodes_view(out@) =~= before + encode_field_spec(field@, value@));
            } else {
                assert(before + Seq::<NodeV>::empty() =~= before);
            }
        },
        Field::Keyed { schema, default, suppress } => {
            if !is_left_out(default, *suppress, value) {
                match value {
                    Value::Record(values) => {
                        proof {
                            lemma_items_view(*values);
                        }
                        let node = encode_record(values, schema);
                        out.push(node);
                        assert(nodes_view(out@) =~= before + encode_field_spec(field@, value@));
                    },
                    _ => {
                        assert(before + Seq::<NodeV>::empty() =~= before);
                    },
                }
            } else {
                assert(before + Seq::<NodeV>::empty() =~= before);
            }
        },
        Field::Flag { keyword } => {
            match value {
                Value::Flag(true) => {
                    out.push(
                        Node::Atom(Atom { text: copy_bytes(keyword.as_slice()), quoted: false }),
                    );
                    assert(nodes_view(out@) =~= before + encode_field_spec(field@, value@));
                },
                _ => {
                    assert(before + Seq::<NodeV>::empty() =~= before);
                },
            }
        },
        Field::Repeated { schema } => {
            match value {
                Value::Sequence(records) => {
                    proof {
                        lemma_items_view(*records);
                    }
                    append_homogeneous(out, records, schema);
                },
                _ => {
                    assert(before + Seq::<NodeV>::empty() =~= before);
                },
            }
        },
        Field::Sequence { variants } => {
            match value {
                Value::Sequence(choices) => {
                    proof {
                        lemma_items_view(*choices);
                        lemma_schema_items_view(*variants);
                    }
                    append_heterogeneous(out, choices, variants);
                },
                _ => {
                    assert(before + Seq::<NodeV>::empty() =~= before);
                },
            }
        },
    }
}

/// Encodes a record of the schema as a list node.
///
/// The list starts with the tag, where the schema has one; then come the
/// fields, in the order in which the schema declares them. A positional
/// field is a bare child, a keyed field a sub-list of its own, a flag its
/// keyword. A field is left out exactly where its schema asks that its
/// default be suppressed and the value is that default.
pub fn encode_record(values: &Vec<Value>, schema: &Schema) -> (node: Node)
    requires
        record_conforms(values_view(values@), schema@),
    ensures
        node@ == encode_record_spec(values_view(values@), schema@),
    decreases schema, 0int,
{
    proof {
        lemma_field_items_view(schema.fields);
    }
    let ghost fields = schema@.fields;
    let ghost vs = values_view(values@);
    let mut out: Vec<Node> = Vec::new();
    match &schema.tag {
        Some(t) => {
            out.push(Node::Atom(Atom { text: copy_bytes(t.as_slice()), quoted: false }));
        },
        None => {},
    }
    assert(nodes_view(out@) =~= tag_nodes(schema@.tag));
    let mut i: usize = 0;
    while i < schema.fields.len()
        invariant
            i <= schema.fields@.len(),
            fields == fields_view(schema.fields@),
            fields == schema@.fields,
            vs == values_view(values@),
            record_conforms(vs, schema@),
            nodes_view(out@) + encode_fields_spec(fields, vs, i as int) == tag_nodes(schema@.tag)
                + encode_fields_spec(fields, vs, 0),
        decreases schema.fields@.len() - i,
    {
        proof {
            assert(decreases_to!(*schema => schema.fields));
            vstd::std_specs::vec::axiom_vec_index_decreases(schema.fields, i as int);
        }
        assert(fields[i as int] == schema.fields@[i as int]@);
        assert(vs[i as int] == values@[i as int]@);
        assert(field_conforms(schema@.fields[i as int], vs[i as int]));
        let ghost before = nodes_view(out@);
        encode_field(&mut out, &schema.fields[i], &values[i]);
        i += 1;
        assert(nodes_view(out@) + encode_fields_spec(fields, vs, i as int) =~= before
            + encode_fields_spec(fields, vs, i - 1));
    }
    assert(nodes_view(out@) + Seq::<NodeV>::empty() =~= nodes_view(out@));
    Node::list(out)
}

} // verus!

verus! {

/// Whether every value is a record of the schema.
pub fn are_records(items: &Vec<Value>, schema: &Schema) -> (r: bool)
    ensures
        r == all_records(values_view(items@), schema@),
    decreases schema, 1int,
{
    let ghost rs = values_view(items@);
    let mut i: usize = 0;
    while i < items.len()
        invariant
            i <= items@.len(),
            rs == values_view(items@),
            forall|k: int|
                0 <= k < i ==> {
                    &&& (#[trigger] rs[k]) is Record
                    &&& record_conforms(rs[k]->Record_0, schema@)
                },
        decreases items@.len() - i,
    {
        assert(rs[i as int] == items@[i as int]@);
        match &items[i] {
            Value::Record(values) => {
                proof {
                    lemma_items_view(*values);
                }
                if !conforms(values, schema) {
                    return false;
                }
            },
            _ => {
                return false;
            },
        }
        i += 1;
    }
    true
}

/// Whether a value is a value of the union.
pub fn is_choice(value: &Value, variants: &Vec<Schema>) -> (r: bool)
    ensures
        r == choice_conforms(value@, schemas_view(variants@)),
    decreases variants, 1int,
{
    match value {
        Value::Choice(k, values) => {
            if *k >= variants.len() {
                return false;
            }
            proof {
                lemma_items_view(*values);
                vstd::std_specs::vec::axiom_vec_index_decreases(*variants, *k as int);
                assert(schemas_view(variants@)[*k as int] == variants@[*k as int]@);
            }
            conforms(values, &variants[*k])
        },
        _ => false,
    }
}

/// Whether every value is a value of the union.
pub fn are_choices(items: &Vec<Value>, variants: &Vec<Schema>) -> (r: bool)
    ensures
        r == all_choices(values_view(items@), schemas_view(variants@)),
    decreases variants, 2int,
{
    let ghost cs = values_view(items@);
    let ghost vs = schemas_view(variants@);
    let mut i: usize = 0;
    while i < items.len()
        invariant
            i <= items@.len(),
            cs == values_view(items@),
            vs == schemas_view(variants@),
            forall|k: int| 0 <= k < i ==> choice_conforms(#[trigger] cs[k], vs),
        decreases items@.len() - i,
    {
        assert(cs[i as int] == items@[i as int]@);
        if !is_choice(&items[i], variants) {
            return false;
        }
        i += 1;
    }
    true
}

/// Whether a value is one that the field can hold.
pub fn field_admits(field: &Field, value: &Value) -> (r: bool)
    ensures
        r == field_conforms(field@, value@),
    decreases field, 0int,
{
    match field {
        Field::Positional { kind, default, suppress } => is_left_out(default, *suppress, value)
            || fits_scalar(kind, value),
        Field::Keyed { schema, default, suppress } => {
            if is_left_out(default, *suppress, value) {
                return true;
            }
            match value {
                Value::Record(values) => {
                    proof {
                        lemma_items_view(*values);
                    }
                    conforms(values, schema)
                },
                _ => false,
            }
        },
        Field::Flag { keyword } => matches!(value, Value::Flag(_)),
        Field::Repeated { schema } => match value {
            Value::Sequence(items) => {
                proof {
                    lemma_items_view(*items);
                }
                are_records(items, schema)
            },
            _ => false,
        },
        Field::Sequence { variants } => match value {
            Value::Sequence(items) => {
                proof {
                    lemma_items_view(*items);
                    lemma_schema_items_view(*variants);
                }
                are_choices(items, variants)
            },
            _ => false,
        },
    }
}

/// Whether the values are a record of the schema.
pub fn conforms(values: &Vec<Value>, schema: &Schema) -> (r: bool)
    ensures
        r == record_conforms(values_view(values@), schema@),
    decreases schema, 0int,
{
    proof {
        lemma_field_items_view(schema.fields);
    }
    if values.len() != schema.fields.len() {
        return false;
    }
    let ghost fields = schema@.fields;
    let ghost vs = values_view(values@);
    let mut i: usize = 0;
    while i < schema.fields.len()
        invariant
            i <= schema.fields@.len(),
            values@.len() == schema.fields@.len(),
            fields == fields_view(schema.fields@),
            fields == schema@.fields,
            vs == values_view(values@),
            forall|k: int| 0 <= k < i ==> field_conforms(#[trigger] fields[k], vs[k]),
        decreases schema.fields@.len() - i,
    {
        proof {
            assert(decreases_to!(*schema => schema.fields));
            vstd::std_specs::vec::axiom_vec_index_decreases(schema.fields, i as int);
        }
        assert(fields[i as int] == schema.fields@[i as int]@);
        assert(vs[i as int] == values@[i as int]@);
        if !field_admits(&schema.fields[i], &values[i]) {
            return false;
        }
        i += 1;
    }
    true
}

/// Encodes the values as a record of the schema, where they are one.
pub fn try_encode_record(values: &Vec<Value>, schema: &Schema) -> (r: Option<Node>)
    ensures
        r is Some <==> record_conforms(values_view(values@), schema@),
        r matches Some(node) ==> node@ == encode_record_spec(values_view(values@), schema@),
{
    if conforms(values, schema) {
        Some(encode_record(values, schema))
    } else {
        None
    }
}

/// Writes every identifier that occurs in the value, and so learns that
/// each reads back as itself.
pub fn confirm_value_reads_back(value: &Value)
    ensures
        value_reads_back(value@),
    decreases value, 0int,
{
    match value {
        Value::Identifier(id) => {
            let text = id.encode();
        },
        Value::Record(items) => {
            proof {
                lemma_items_view(*items);
            }
            confirm_values_read_back(items);
        },
        Value::Choice(k, items) => {
            proof {
                lemma_items_view(*items);
            }
            confirm_values_read_back(items);
        },
        Value::Sequence(items) => {
            proof {
                lemma_items_view(*items);
            }
            confirm_values_read_back(items);
        },
        _ => {},
    }
}

/// Writes every identifier that occurs in the values, and so learns that
/// each reads back as itself: what the laws of the round trip ask of the
/// values of a record.
pub fn confirm_values_read_back(values: &Vec<Value>)
    ensures
        values_read_back(values_view(values@)),
    decreases values, 1int,
{
    let ghost vs = values_view(values@);
    let mut i: usize = 0;
    while i < values.len()
        invariant
            i <= values@.len(),
            vs == values_view(values@),
            forall|k: int| 0 <= k < i ==> value_reads_back(#[trigger] vs[k]),
        decreases values@.len() - i,
    {
        proof {
            vstd::std_specs::vec::axiom_vec_index_decreases(*values, i as int);
        }
        assert(vs[i as int] == values@[i as int]@);
        confirm_value_reads_back(&values[i]);
        i += 1;
    }
}

} // verus!
