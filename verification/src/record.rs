//! The record mapper, the union resolver and the sequence containers, as
//! mathematical functions: what decoding a node against a schema gives, and
//! which node encodes a record.
//!
//! Decoding checks the tag and then takes the fields in the order of the
//! schema from the children that are left. A positional field takes the
//! first child that is left, if that is an atom. A keyed field takes the
//! first list that is left with its tag. A flag takes the first bare atom
//! that is its keyword. A repeated field takes every list with its tag. A
//! sequence takes all that is left. Children that are left at the end are
//! an error unless the schema is lenient.

use vstd::prelude::*;
use crate::error::{ErrorKind, ErrorV};
use crate::scalar::{decode_scalar_spec, encode_scalar_spec, scalar_fits};
use crate::schema::{FieldV, SchemaV};
use crate::tree::NodeV;
use crate::value::ValueV;

verus! {

/// The tag of a node: the text of the bare atom that a list starts with.
pub open spec fn tag_of(n: NodeV) -> Option<Seq<u8>> {
    match n {
        NodeV::List { items } => if items.len() > 0 {
            match items[0] {
                NodeV::Atom { text, quoted } => if quoted {
                    None
                } else {
                    Some(text)
                },
                NodeV::List { .. } => None,
            }
        } else {
            None
        },
        NodeV::Atom { .. } => None,
    }
}

/// The place of the first node at or after `i` that is a list with the tag.
pub open spec fn find_tagged(nodes: Seq<NodeV>, tag: Seq<u8>, i: int) -> Option<int>
    decreases nodes.len() - i,
{
    if i < 0 || i >= nodes.len() {
        None
    } else if tag_of(nodes[i]) == Some(tag) {
        Some(i)
    } else {
        find_tagged(nodes, tag, i + 1)
    }
}

/// The bare atom that writes a keyword or a tag.
pub open spec fn bare(text: Seq<u8>) -> NodeV {
    NodeV::Atom { text, quoted: false }
}

/// The place of the first node at or after `i` that is the bare keyword.
pub open spec fn find_keyword(nodes: Seq<NodeV>, keyword: Seq<u8>, i: int) -> Option<int>
    decreases nodes.len() - i,
{
    if i < 0 || i >= nodes.len() {
        None
    } else if nodes[i] == bare(keyword) {
        Some(i)
    } else {
        find_keyword(nodes, keyword, i + 1)
    }
}

/// The value of a field that is absent: its default, or a failure where it
/// has none.
pub open spec fn absent_field(default: Option<ValueV>, left: Seq<NodeV>) -> Result<
    (ValueV, Seq<NodeV>),
    ErrorV,
> {
    match default {
        Some(d) => Ok((d, left)),
        None => Err(ErrorV::MissingField),
    }
}

/// The children of a list that stand for the fields of the schema: all but
/// the tag. `None` where the node is no list or lacks the tag.
pub open spec fn body_of(node: NodeV, schema: SchemaV) -> Option<Seq<NodeV>> {
    match node {
        NodeV::Atom { .. } => None,
        NodeV::List { items } => match schema.tag {
            None => Some(items),
            Some(t) => if tag_of(node) == Some(t) {
                Some(items.subrange(1, items.len() as int))
            } else {
                None
            },
        },
    }
}

/// What decoding a node as a record of the schema gives: the values of the
/// fields in the order of the schema, or the first failure.
pub open spec fn decode_record_spec(node: NodeV, schema: SchemaV) -> Result<Seq<ValueV>, ErrorV>
    decreases schema, 0int,
{
    match body_of(node, schema) {
        None => Err(ErrorV::TagMismatch),
        Some(children) => match decode_fields_spec(schema.fields, 0, children) {
            Err(e) => Err(e),
            Ok((values, left)) => if left.len() > 0 && !schema.lenient {
                Err(ErrorV::UnknownField)
            } else {
                Ok(values)
            },
        },
    }
}

/// Decodes the fields from the `i`-th on out of the children that are left:
/// their values, and the children left after them.
pub open spec fn decode_fields_spec(fields: Seq<FieldV>, i: int, left: Seq<NodeV>) -> Result<
    (Seq<ValueV>, Seq<NodeV>),
    ErrorV,
>
    decreases fields, fields.len() - i,
{
    if i < 0 || i >= fields.len() {
        Ok((Seq::empty(), left))
    } else {
        match decode_field_spec(fields[i], left) {
            Err(e) => Err(e),
            Ok((value, rest)) => match decode_fields_spec(fields, i + 1, rest) {
                Err(e) => Err(e),
                Ok((values, last)) => Ok((seq![value] + values, last)),
            },
        }
    }
}

/// Decodes one field out of the children that are left: its value, and the
/// children left after it.
pub open spec fn decode_field_spec(field: FieldV, left: Seq<NodeV>) -> Result<
    (ValueV, Seq<NodeV>),
    ErrorV,
>
    decreases field, 0int,
{
    match field {
        FieldV::Positional { kind, default, suppress } => if left.len() > 0 && left[0] is Atom {
            match decode_scalar_spec(kind, left[0]->text, left[0]->quoted) {
                Ok(value) => Ok((value, left.remove(0))),
                Err(e) => Err(e),
            }
        } else {
            absent_field(default, left)
        },
        FieldV::Keyed { schema, default, suppress } => {
            let found = match schema.tag {
                Some(t) => find_tagged(left, t, 0),
                None => None,
            };
            match found {
                Some(j) => match decode_record_spec(left[j], schema) {
                    Ok(values) => Ok((ValueV::Record(values), left.remove(j))),
                    Err(e) => Err(e),
                },
                None => absent_field(default, left),
            }
        },
        FieldV::Flag { keyword } => match find_keyword(left, keyword, 0) {
            Some(j) => Ok((ValueV::Flag(true), left.remove(j))),
            None => Ok((ValueV::Flag(false), left)),
        },
        FieldV::Repeated { schema } => match decode_homogeneous_spec(left, schema, 0) {
            Ok((records, rest)) => Ok((ValueV::Sequence(records), rest)),
            Err(e) => Err(e),
        },
        FieldV::Sequence { variants } => match decode_heterogeneous_spec(left, variants, 0) {
            Ok(choices) => Ok((ValueV::Sequence(choices), Seq::empty())),
            Err(e) => Err(e),
        },
    }
}

/// Decodes every list from the `i`-th node on that has the tag of the
/// schema, in order: the records, and the nodes that were passed over.
pub open spec fn decode_homogeneous_spec(nodes: Seq<NodeV>, schema: SchemaV, i: int) -> Result<
    (Seq<ValueV>, Seq<NodeV>),
    ErrorV,
>
    decreases schema, nodes.len() - i + 1,
{
    if i < 0 || i >= nodes.len() {
        Ok((Seq::empty(), Seq::empty()))
    } else if schema.tag is Some && tag_of(nodes[i]) == schema.tag {
        match decode_record_spec(nodes[i], schema) {
            Err(e) => Err(e),
            Ok(values) => match decode_homogeneous_spec(nodes, schema, i + 1) {
                Err(e) => Err(e),
                Ok((records, rest)) => Ok((seq![ValueV::Record(values)] + records, rest)),
            },
        }
    } else {
        match decode_homogeneous_spec(nodes, schema, i + 1) {
            Err(e) => Err(e),
            Ok((records, rest)) => Ok((records, seq![nodes[i]] + rest)),
        }
    }
}

/// Decodes every node from the `i`-th on as a value of the union, in order.
pub open spec fn decode_heterogeneous_spec(nodes: Seq<NodeV>, variants: Seq<SchemaV>, i: int)
    -> Result<Seq<ValueV>, ErrorV>
    decreases variants, variants.len() + 1 + nodes.len() - i,
{
    if i < 0 || i >= nodes.len() {
        Ok(Seq::empty())
    } else {
        match try_variants_spec(nodes[i], variants, 0) {
            Err(reasons) => Err(ErrorV::NoMatchingVariant { reasons }),
            Ok((k, values)) => match decode_heterogeneous_spec(nodes, variants, i + 1) {
                Err(e) => Err(e),
                Ok(choices) => Ok(seq![ValueV::Choice(k, values)] + choices),
            },
        }
    }
}

/// Tries the candidates from the `k`-th on, in order: the place and the
/// record of the first that accepts the node, or why each of them refused.
pub open spec fn try_variants_spec(node: NodeV, variants: Seq<SchemaV>, k: int) -> Result<
    (usize, Seq<ValueV>),
    Seq<ErrorKind>,
>
    decreases variants, variants.len() - k,
{
    if k < 0 || k >= variants.len() {
        Err(Seq::empty())
    } else {
        match decode_record_spec(node, variants[k]) {
            Ok(values) => Ok((k as usize, values)),
            Err(e) => match try_variants_spec(node, variants, k + 1) {
                Ok(found) => Ok(found),
                Err(reasons) => Err(seq![e.kind()] + reasons),
            },
        }
    }
}

/// What resolving a node against a union gives: the place of the first
/// candidate, in the order of declaration, that accepts the node, with the
/// record it decodes to; or `NoMatchingVariant` with the reason of every
/// candidate.
pub open spec fn decode_union_spec(node: NodeV, variants: Seq<SchemaV>) -> Result<
    (usize, Seq<ValueV>),
    ErrorV,
> {
    match try_variants_spec(node, variants, 0) {
        Ok(found) => Ok(found),
        Err(reasons) => Err(ErrorV::NoMatchingVariant { reasons }),
    }
}

/// Whether a field with this value is left out of the output.
pub open spec fn left_out(default: Option<ValueV>, suppress: bool, value: ValueV) -> bool {
    suppress && default == Some(value)
}

/// Whether the values are a record of the schema: one value for each field,
/// each of the field's kind.
pub open spec fn record_conforms(values: Seq<ValueV>, schema: SchemaV) -> bool
    decreases schema, 0int,
{
    &&& values.len() == schema.fields.len()
    &&& forall|i: int|
        0 <= i < schema.fields.len() ==> field_conforms(
            #[trigger] schema.fields[i],
            values[i],
        )
}

/// Whether a value is one that the field can hold.
pub open spec fn field_conforms(field: FieldV, value: ValueV) -> bool
    decreases field, 0int,
{
    match field {
        FieldV::Positional { kind, default, suppress } => left_out(default, suppress, value)
            || scalar_fits(kind, value),
        FieldV::Keyed { schema, default, suppress } => left_out(default, suppress, value) || (
        value is Record && record_conforms(value->Record_0, schema)),
        FieldV::Flag { keyword } => value is Flag,
        FieldV::Repeated { schema } => value is Sequence && forall|i: int|
            0 <= i < value->Sequence_0.len() ==> {
                &&& (#[trigger] value->Sequence_0[i]) is Record
                &&& record_conforms(value->Sequence_0[i]->Record_0, schema)
            },
        FieldV::Sequence { variants } => value is Sequence && forall|i: int|
            0 <= i < value->Sequence_0.len() ==> choice_conforms(
                #[trigger] value->Sequence_0[i],
                variants,
            ),
    }
}

/// Whether a value is a value of the union: a choice of one of the
/// candidates, with a record of that candidate.
pub open spec fn choice_conforms(value: ValueV, variants: Seq<SchemaV>) -> bool
    decreases variants, 0int,
{
    &&& value is Choice
    &&& value->Choice_0 < variants.len()
    &&& record_conforms(value->Choice_1, variants[value->Choice_0 as int])
}

/// The atom that a tagged list starts with; nothing for a list without tag.
pub open spec fn tag_nodes(tag: Option<Seq<u8>>) -> Seq<NodeV> {
    match tag {
        Some(t) => seq![bare(t)],
        None => Seq::empty(),
    }
}

/// The node that encodes a record of the schema: the tag, then the fields in
/// the order of the schema.
pub open spec fn encode_record_spec(values: Seq<ValueV>, schema: SchemaV) -> NodeV
    decreases schema, 0int,
{
    NodeV::List { items: tag_nodes(schema.tag) + encode_fields_spec(schema.fields, values, 0) }
}

/// The nodes that encode the fields from the `i`-th on.
pub open spec fn encode_fields_spec(fields: Seq<FieldV>, values: Seq<ValueV>, i: int) -> Seq<
    NodeV,
>
    decreases fields, fields.len() - i,
{
    if i < 0 || i >= fields.len() || i >= values.len() {
        Seq::empty()
    } else {
        encode_field_spec(fields[i], values[i]) + encode_fields_spec(fields, values, i + 1)
    }
}

/// The nodes that encode one field: none where it is left out.
pub open spec fn encode_field_spec(field: FieldV, value: ValueV) -> Seq<NodeV>
    decreases field, 0int,
{
    match field {
        FieldV::Positional { kind, default, suppress } => if left_out(default, suppress, value) {
            Seq::empty()
        } else {
            seq![encode_scalar_spec(kind, value)]
        },
        FieldV::Keyed { schema, default, suppress } => if left_out(default, suppress, value)
            || !(value is Record) {
            Seq::empty()
        } else {
            seq![encode_record_spec(value->Record_0, schema)]
        },
        FieldV::Flag { keyword } => if value == ValueV::Flag(true) {
            seq![bare(keyword)]
        } else {
            Seq::empty()
        },
        FieldV::Repeated { schema } => if value is Sequence {
            encode_homogeneous_spec(value->Sequence_0, schema, 0)
        } else {
            Seq::empty()
        },
        FieldV::Sequence { variants } => if value is Sequence {
            encode_heterogeneous_spec(value->Sequence_0, variants, 0)
        } else {
            Seq::empty()
        },
    }
}

/// The nodes that encode the records from the `i`-th on, in their order.
pub open spec fn encode_homogeneous_spec(records: Seq<ValueV>, schema: SchemaV, i: int) -> Seq<
    NodeV,
>
    decreases schema, records.len() - i + 1,
{
    if i < 0 || i >= records.len() {
        Seq::empty()
    } else if records[i] is Record {
        seq![encode_record_spec(records[i]->Record_0, schema)] + encode_homogeneous_spec(
            records,
            schema,
            i + 1,
        )
    } else {
        encode_homogeneous_spec(records, schema, i + 1)
    }
}

/// The node that encodes a value of a union: the record, by its own shape.
pub open spec fn encode_union_spec(k: usize, values: Seq<ValueV>, variants: Seq<SchemaV>) -> NodeV
    decreases variants, 0int,
{
    if k < variants.len() {
        encode_record_spec(values, variants[k as int])
    } else {
        NodeV::List { items: Seq::empty() }
    }
}

/// The nodes that encode the values of a union from the `i`-th on, in their
/// order.
pub open spec fn encode_heterogeneous_spec(choices: Seq<ValueV>, variants: Seq<SchemaV>, i: int)
    -> Seq<NodeV>
    decreases variants, choices.len() - i + 1,
{
    if i < 0 || i >= choices.len() {
        Seq::empty()
    } else if choices[i] is Choice {
        seq![encode_union_spec(choices[i]->Choice_0, choices[i]->Choice_1, variants)]
            + encode_heterogeneous_spec(choices, variants, i + 1)
    } else {
        encode_heterogeneous_spec(choices, variants, i + 1)
    }
}

} // verus!
