//! The record mapper: decoding a list node into the values of a record, as
//! its schema directs.

use vstd::prelude::*;
use crate::error::{CodecError, ErrorKind, ErrorV};
use crate::record::{
    bare, body_of, decode_field_spec, decode_fields_spec, decode_heterogeneous_spec,
    decode_homogeneous_spec, decode_record_spec, decode_union_spec, find_keyword, find_tagged,
    tag_of, try_variants_spec,
};
use crate::scalar::decode_scalar;
use crate::schema::{
    fields_view, lemma_field_items_view, lemma_schema_items_view, schemas_view, Field, Schema,
};
use crate::text::same_bytes;
use crate::tree::{lemma_list_view, nodes_view, Node, NodeV};
use crate::value::{clone_value, lemma_items_view, values_view, Value, ValueV};

verus! {

/// The values of a run of borrowed nodes, in order.
pub open spec fn refs_view(nodes: Seq<&Node>) -> Seq<NodeV> {
    nodes.map_values(|n: &Node| n@)
}

/// Whether a node is a list that starts with the bare atom `tag`.
pub fn has_tag(node: &Node, tag: &[u8]) -> (r: bool)
    ensures
        r == (tag_of(node@) == Some(tag@)),
{
    match node {
        Node::Atom(_) => false,
        Node::List(items) => {
            proof {
                lemma_list_view(*items);
            }
            if items.len() == 0 {
                return false;
            }
            assert(nodes_view(items@)[0] == items@[0]@);
            match &items[0] {
                Node::Atom(atom) => !atom.quoted && same_bytes(atom.text.as_slice(), tag),
                Node::List(inner) => {
                    proof {
                        lemma_list_view(*inner);
                    }
                    false
                },
            }
        },
    }
}

/// Whether a node is the bare atom `keyword`.
pub fn is_keyword(node: &Node, keyword: &[u8]) -> (r: bool)
    ensures
        r == (node@ == bare(keyword@)),
{
    match node {
        Node::Atom(atom) => !atom.quoted && same_bytes(atom.text.as_slice(), keyword),
        Node::List(items) => {
            proof {
                lemma_list_view(*items);
            }
            false
        },
    }
}

/// Borrows the nodes of `items` from the `start`-th on.
fn borrow_from<'a>(items: &'a Vec<Node>, start: usize) -> (left: Vec<&'a Node>)
    requires
        start <= items@.len(),
    ensures
        refs_view(left@) == nodes_view(items@).subrange(start as int, items@.len() as int),
{
    let mut left: Vec<&Node> = Vec::new();
    let mut k: usize = start;
    while k < items.len()
        invariant
            start <= k <= items@.len(),
            left@.len() == k - start,
            forall|j: int| 0 <= j < left@.len() ==> *(#[trigger] left@[j]) == items@[start + j],
        decreases items@.len() - k,
    {
        left.push(&items[k]);
        k += 1;
    }
    assert(refs_view(left@) =~= nodes_view(items@).subrange(start as int, items@.len() as int));
    left
}

/// Puts `head` in front of the reasons of a search that found nothing.
pub open spec fn after_reasons(
    head: Seq<ErrorKind>,
    found: Result<(usize, Seq<ValueV>), Seq<ErrorKind>>,
) -> Result<(usize, Seq<ValueV>), Seq<ErrorKind>> {
    match found {
        Ok(x) => Ok(x),
        Err(reasons) => Err(head + reasons),
    }
}

/// Puts `head` in front of decoded values.
pub open spec fn after_values(head: Seq<ValueV>, rest: Result<Seq<ValueV>, ErrorV>) -> Result<
    Seq<ValueV>,
    ErrorV,
> {
    match rest {
        Ok(values) => Ok(head + values),
        Err(e) => Err(e),
    }
}

/// Puts `head` in front of decoded values, and keeps what is left.
pub open spec fn after_fields(
    head: Seq<ValueV>,
    rest: Result<(Seq<ValueV>, Seq<NodeV>), ErrorV>,
) -> Result<(Seq<ValueV>, Seq<NodeV>), ErrorV> {
    match rest {
        Ok((values, left)) => Ok((head + values, left)),
        Err(e) => Err(e),
    }
}

/// Puts records and passed-over nodes in front of those of a later part.
pub open spec fn after_records(
    records: Seq<ValueV>,
    passed: Seq<NodeV>,
    rest: Result<(Seq<ValueV>, Seq<NodeV>), ErrorV>,
) -> Result<(Seq<ValueV>, Seq<NodeV>), ErrorV> {
    match rest {
        Ok((more, left)) => Ok((records + more, passed + left)),
        Err(e) => Err(e),
    }
}

/// Resolves a node against the candidates of a union.
///
/// The candidates are tried in the order of their declaration, and the first
/// that accepts the node wins, whatever a later one would have made of it:
/// the result is its place and the record it decodes to. Where none accepts,
/// the failure is `NoMatchingVariant`, with the reason of each candidate.
pub fn decode_union(node: &Node, variants: &Vec<Schema>) -> (r: Result<(usize, Vec<Value>), CodecError>)
    ensures
        match r {
            Ok((k, values)) => decode_union_spec(node@, schemas_view(variants@)) == Ok::<
                (usize, Seq<ValueV>),
                ErrorV,
            >((k, values_view(values@))) && k < variants@.len(),
            Err(e) => decode_union_spec(node@, schemas_view(variants@)) == Err::<
                (usize, Seq<ValueV>),
                ErrorV,
            >(e@),
        },
    decreases variants, 1int,
{
    let ghost vs = schemas_view(variants@);
    let mut reasons: Vec<ErrorKind> = Vec::new();
    let mut k: usize = 0;
    assert(Seq::<ErrorKind>::empty() + Seq::<ErrorKind>::empty() =~= Seq::<ErrorKind>::empty());
    while k < variants.len()
        invariant
            k <= variants@.len(),
            vs == schemas_view(variants@),
            try_variants_spec(node@, vs, 0) == after_reasons(
                reasons@,
                try_variants_spec(node@, vs, k as int),
            ),
        decreases variants@.len() - k,
    {
        proof {
            vstd::std_specs::vec::axiom_vec_index_decreases(*variants, k as int);
        }
        assert(vs[k as int] == variants@[k as int]@);
        let ghost before = reasons@;
        match decode_record(node, &variants[k]) {
            Ok(values) => {
                return Ok((k, values));
            },
            Err(e) => {
                reasons.push(e.kind());
                proof {
                    if let Err(later) = try_variants_spec(node@, vs, k + 1) {
                        assert(before + (seq![e@.kind()] + later) =~= reasons@ + later);
                    }
                }
            },
        }
        k += 1;
    }
    assert(reasons@ + Seq::<ErrorKind>::empty() =~= reasons@);
    Err(CodecError::NoMatchingVariant { reasons })
}

/// Decodes every node that is left as a value of the union.
fn heterogeneous_in(left: &Vec<&Node>, variants: &Vec<Schema>) -> (r: Result<
    Vec<Value>,
    CodecError,
>)
    ensures
        match r {
            Ok(choices) => decode_heterogeneous_spec(
                refs_view(left@),
                schemas_view(variants@),
                0,
            ) == Ok::<Seq<ValueV>, ErrorV>(values_view(choices@)),
            Err(e) => decode_heterogeneous_spec(refs_view(left@), schemas_view(variants@), 0)
                == Err::<Seq<ValueV>, ErrorV>(e@),
        },
    decreases variants, 2int,
{
    let ghost nodes = refs_view(left@);
    let ghost vs = schemas_view(variants@);
    let mut choices: Vec<Value> = Vec::new();
    let mut i: usize = 0;
    assert(values_view(choices@) =~= Seq::empty());
    assert(Seq::<ValueV>::empty() + Seq::<ValueV>::empty() =~= Seq::<ValueV>::empty());
    while i < left.len()
        invariant
            i <= left@.len(),
            nodes == refs_view(left@),
            vs == schemas_view(variants@),
            decode_heterogeneous_spec(nodes, vs, 0) == after_values(
                values_view(choices@),
                decode_heterogeneous_spec(nodes, vs, i as int),
            ),
        decreases left@.len() - i,
    {
        assert(nodes[i as int] == left@[i as int]@);
        let ghost before = values_view(choices@);
        match decode_union(left[i], variants) {
            Err(e) => {
                return Err(e);
            },
            Ok((k, values)) => {
                proof {
                    lemma_items_view(values);
                }
                choices.push(Value::Choice(k, values));
                proof {
                    let c = choices@[choices@.len() - 1]@;
                    assert(values_view(choices@) =~= before.push(c));
                    if let Ok(more) = decode_heterogeneous_spec(nodes, vs, i + 1) {
                        assert(before + (seq![c] + more) =~= before.push(c) + more);
                    }
                }
            },
        }
        i += 1;
    }
    assert(values_view(choices@) + Seq::<ValueV>::empty() =~= values_view(choices@));
    Ok(choices)
}

/// Decodes every list that is left with the tag of the schema, and hands
/// back the nodes that it passed over.
fn homogeneous_in<'a>(left: &Vec<&'a Node>, schema: &Schema) -> (r: Result<
    (Vec<Value>, Vec<&'a Node>),
    CodecError,
>)
    ensures
        match r {
            Ok((records, rest)) => decode_homogeneous_spec(refs_view(left@), schema@, 0) == Ok::<
                (Seq<ValueV>, Seq<NodeV>),
                ErrorV,
            >((values_view(records@), refs_view(rest@))),
            Err(e) => decode_homogeneous_spec(refs_view(left@), schema@, 0) == Err::<
                (Seq<ValueV>, Seq<NodeV>),
                ErrorV,
            >(e@),
        },
    decreases schema, 1int,
{
    let ghost nodes = refs_view(left@);
    let mut records: Vec<Value> = Vec::new();
    let mut rest: Vec<&Node> = Vec::new();
    let mut i: usize = 0;
    assert(values_view(records@) =~= Seq::empty());
    assert(refs_view(rest@) =~= Seq::empty());
    assert(Seq::<ValueV>::empty() + Seq::<ValueV>::empty() =~= Seq::<ValueV>::empty());
    assert(Seq::<NodeV>::empty() + Seq::<NodeV>::empty() =~= Seq::<NodeV>::empty());
    while i < left.len()
        invariant
            i <= left@.len(),
            nodes == refs_view(left@),
            decode_homogeneous_spec(nodes, schema@, 0) == after_records(
                values_view(records@),
                refs_view(rest@),
                decode_homogeneous_spec(nodes, schema@, i as int),
            ),
        decreases left@.len() - i,
    {
        assert(nodes[i as int] == left@[i as int]@);
        let ghost records_before = values_view(records@);
        let ghost rest_before = refs_view(rest@);
        let tagged: bool = match &schema.tag {
            Some(t) => has_tag(left[i], t.as_slice()),
            None => false,
        };
        if tagged {
            match decode_record(left[i], schema) {
                Err(e) => {
                    return Err(e);
                },
                Ok(values) => {
                    proof {
                        lemma_items_view(values);
                    }
                    records.push(Value::Record(values));
                    proof {
                        let c = records@[records@.len() - 1]@;
                        assert(values_view(records@) =~= records_before.push(c));
                        if let Ok((more, passed)) = decode_homogeneous_spec(nodes, schema@, i + 1) {
                            assert(records_before + (seq![c] + more) =~= records_before.push(c)
                                + more);
                        }
                    }
                },
            }
        } else {
            rest.push(left[i]);
            proof {
                let n = nodes[i as int];
                assert(refs_view(rest@) =~= rest_before.push(n));
                if let Ok((more, passed)) = decode_homogeneous_spec(nodes, schema@, i + 1) {
                    assert(rest_before + (seq![n] + passed) =~= rest_before.push(n) + passed);
                }
            }
        }
        i += 1;
    }
    assert(values_view(records@) + Seq::<ValueV>::empty() =~= values_view(records@));
    assert(refs_view(rest@) + Seq::<NodeV>::empty() =~= refs_view(rest@));
    Ok((records, rest))
}

/// The value of a field that is absent.
fn absent(default: &Option<Value>) -> (r: Result<Value, CodecError>)
    ensures
        match r {
            Ok(v) => default matches Some(d) && v@ == d@,
            Err(e) => default is None && e@ == ErrorV::MissingField,
        },
{
    match default {
        Some(d) => Ok(clone_value(d)),
        None => Err(CodecError::MissingField),
    }
}

/// Looks for the first list that is left with the tag.
fn position_tagged(left: &Vec<&Node>, tag: &[u8]) -> (r: Option<usize>)
    ensures
        match r {
            Some(j) => find_tagged(refs_view(left@), tag@, 0) == Some(j as int) && j < left@.len(),
            None => find_tagged(refs_view(left@), tag@, 0) is None,
        },
{
    let ghost nodes = refs_view(left@);
    let mut j: usize = 0;
    while j < left.len()
        invariant
            j <= left@.len(),
            nodes == refs_view(left@),
            find_tagged(nodes, tag@, 0) == find_tagged(nodes, tag@, j as int),
        decreases left@.len() - j,
    {
        assert(nodes[j as int] == left@[j as int]@);
        if has_tag(left[j], tag) {
            return Some(j);
        }
        j += 1;
    }
    None
}

/// Looks for the first node that is left and is the bare keyword.
fn position_keyword(left: &Vec<&Node>, keyword: &[u8]) -> (r: Option<usize>)
    ensures
        match r {
            Some(j) => find_keyword(refs_view(left@), keyword@, 0) == Some(j as int) && j
                < left@.len(),
            None => find_keyword(refs_view(left@), keyword@, 0) is None,
        },
{
    let ghost nodes = refs_view(left@);
    let mut j: usize = 0;
    while j < left.len()
        invariant
            j <= left@.len(),
            nodes == refs_view(left@),
            find_keyword(nodes, keyword@, 0) == find_keyword(nodes, keyword@, j as int),
        decreases left@.len() - j,
    {
        assert(nodes[j as int] == left@[j as int]@);
        if is_keyword(left[j], keyword) {
            return Some(j);
        }
        j += 1;
    }
    None
}

/// Decodes one field out of the nodes that are left, and takes out of them
/// what the field used.
fn decode_field<'a>(field: &Field, left: &mut Vec<&'a Node>) -> (r: Result<Value, CodecError>)
    ensures
        match r {
            Ok(v) => decode_field_spec(field@, refs_view(old(left)@)) == Ok::<
                (ValueV, Seq<NodeV>),
                ErrorV,
            >((v@, refs_view(final(left)@))),
            Err(e) => decode_field_spec(field@, refs_view(old(left)@)) == Err::<
                (ValueV, Seq<NodeV>),
                ErrorV,
            >(e@),
        },
    decreases field, 0int,
{
    let ghost nodes = refs_view(left@);
    match field {
        Field::Positional { kind, default, suppress } => {
            if left.len() > 0 {
                assert(nodes[0] == left@[0]@);
                match left[0] {
                    Node::Atom(atom) => {
                        let value = decode_scalar(kind, atom)?;
                        left.remove(0);
                        assert(refs_view(left@) =~= nodes.remove(0));
                        return Ok(value);
                    },
                    Node::List(items) => {
                        proof {
                            lemma_list_view(*items);
                        }
                    },
                }
            }
            absent(default)
        },
        Field::Keyed { schema, default, suppress } => {
            let found: Option<usize> = match &schema.tag {
                Some(t) => position_tagged(left, t.as_slice()),
                None => None,
            };
            match found {
                Some(j) => {
                    assert(nodes[j as int] == left@[j as int]@);
                    let values = decode_record(left[j], schema)?;
                    left.remove(j);
                    assert(refs_view(left@) =~= nodes.remove(j as int));
                    proof {
                        lemma_items_view(values);
                    }
                    Ok(Value::Record(values))
                },
                None => absent(default),
            }
        },
        Field::Flag { keyword } => {
            match position_keyword(left, keyword.as_slice()) {
                Some(j) => {
                    left.remove(j);
                    assert(refs_view(left@) =~= nodes.remove(j as int));
                    Ok(Value::Flag(true))
                },
                None => Ok(Value::Flag(false)),
            }
        },
        Field::Repeated { schema } => {
            let (records, rest) = homogeneous_in(left, schema)?;
            *left = rest;
            proof {
                lemma_items_view(records);
            }
            Ok(Value::Sequence(records))
        },
        Field::Sequence { variants } => {
            proof {
                lemma_schema_items_view(*variants);
            }
            let choices = heterogeneous_in(left, variants)?;
            left.clear();
            assert(refs_view(left@) =~= Seq::<NodeV>::empty());
            proof {
                lemma_items_view(choices);
            }
            Ok(Value::Sequence(choices))
        },
    }
}

/// Decodes a node as a record of the schema.
///
/// The node must be a list that starts with the schema's tag, where the
/// schema has one: else `TagMismatch`. The fields are then taken in the order
/// of the schema from the children that are left; a field that is absent has
/// its default, or fails with `MissingField` where it has none; an atom that
/// does not fit its scalar fails with `ScalarDecodeError`. Children that are
/// left at the end fail with `UnknownField`, unless the schema is lenient.
/// The result holds one value for each field, in the order of the schema.
pub fn decode_record(node: &Node, schema: &Schema) -> (r: Result<Vec<Value>, CodecError>)
    ensures
        match r {
            Ok(values) => decode_record_spec(node@, schema@) == Ok::<Seq<ValueV>, ErrorV>(
                values_view(values@),
            ),
            Err(e) => decode_record_spec(node@, schema@) == Err::<Seq<ValueV>, ErrorV>(e@),
        },
    decreases schema, 0int,
{
    let items = match node {
        Node::Atom(_) => {
            return Err(CodecError::TagMismatch);
        },
        Node::List(items) => items,
    };
    proof {
        lemma_list_view(*items);
        lemma_field_items_view(schema.fields);
    }
    let start: usize = match &schema.tag {
        None => 0,
        Some(t) => {
            if !has_tag(node, t.as_slice()) {
                return Err(CodecError::TagMismatch);
            }
            1
        },
    };
    let mut left = borrow_from(items, start);
    let ghost children = refs_view(left@);
    assert(body_of(node@, schema@) == Some(children)) by {
        assert(nodes_view(items@).subrange(0, items@.len() as int) =~= nodes_view(items@));
    }
    let ghost fields = schema@.fields;
    let mut values: Vec<Value> = Vec::new();
    let mut i: usize = 0;
    assert(values_view(values@) =~= Seq::empty());
    assert(Seq::<ValueV>::empty() + Seq::<ValueV>::empty() =~= Seq::<ValueV>::empty());
    while i < schema.fields.len()
        invariant
            i <= schema.fields@.len(),
            fields == fields_view(schema.fields@),
            fields == schema@.fields,
            body_of(node@, schema@) == Some(children),
            decode_fields_spec(fields, 0, children) == after_fields(
                values_view(values@),
                decode_fields_spec(fields, i as int, refs_view(left@)),
            ),
        decreases schema.fields@.len() - i,
    {
        proof {
            assert(decreases_to!(*schema => schema.fields));
            vstd::std_specs::vec::axiom_vec_index_decreases(schema.fields, i as int);
        }
        assert(fields[i as int] == schema.fields@[i as int]@);
        let ghost before = values_view(values@);
        match decode_field(&schema.fields[i], &mut left) {
            Err(e) => {
                return Err(e);
            },
            Ok(value) => {
                values.push(value);
                proof {
                    let v = values@[values@.len() - 1]@;
                    assert(values_view(values@) =~= before.push(v));
                    if let Ok((more, last)) = decode_fields_spec(fields, i + 1, refs_view(left@)) {
                        assert(before + (seq![v] + more) =~= before.push(v) + more);
                    }
                }
            },
        }
        i += 1;
    }
    assert(values_view(values@) + Seq::<ValueV>::empty() =~= values_view(values@));
    if left.len() > 0 && !schema.lenient {
        Err(CodecError::UnknownField)
    } else {
        Ok(values)
    }
}

/// Borrows every node of `items`.
fn borrow_all<'a>(items: &'a Vec<Node>) -> (left: Vec<&'a Node>)
    ensures
        refs_view(left@) == nodes_view(items@),
{
    let left = borrow_from(items, 0);
    assert(nodes_view(items@).subrange(0, items@.len() as int) =~= nodes_view(items@));
    left
}

/// Collects the repeated blocks of one kind among the children of a list.
///
/// Every child that is a list with the tag of the schema is decoded as a
/// record of it, in the order of the document; the other children are passed
/// over. The first record that fails to decode fails the whole.
pub fn decode_homogeneous(children: &Vec<Node>, schema: &Schema) -> (r: Result<
    Vec<Value>,
    CodecError,
>)
    ensures
        match r {
            Ok(records) => decode_homogeneous_spec(nodes_view(children@), schema@, 0) matches Ok(
                (found, passed),
            ) && found == values_view(records@),
            Err(e) => decode_homogeneous_spec(nodes_view(children@), schema@, 0) == Err::<
                (Seq<ValueV>, Seq<NodeV>),
                ErrorV,
            >(e@),
        },
{
    let left = borrow_all(children);
    match homogeneous_in(&left, schema) {
        Ok((records, rest)) => Ok(records),
        Err(e) => Err(e),
    }
}

/// Decodes children of different kinds, each as a value of the union.
///
/// Every child is resolved against the candidates, in the order of the
/// document; the first child that no candidate accepts fails the whole.
pub fn decode_heterogeneous(children: &Vec<Node>, variants: &Vec<Schema>) -> (r: Result<
    Vec<Value>,
    CodecError,
>)
    ensures
        match r {
            Ok(choices) => decode_heterogeneous_spec(
                nodes_view(children@),
                schemas_view(variants@),
                0,
            ) == Ok::<Seq<ValueV>, ErrorV>(values_view(choices@)),
            Err(e) => decode_heterogeneous_spec(nodes_view(children@), schemas_view(variants@), 0)
                == Err::<Seq<ValueV>, ErrorV>(e@),
        },
{
    let left = borrow_all(children);
    heterogeneous_in(&left, variants)
}

} // verus!
