//! What holds of the codec as a whole: a record that is encoded and decoded
//! again comes back unchanged, a suppressed default leaves no trace and
//! comes back as the default, and a union resolves to the first candidate
//! that accepts.

use vstd::prelude::*;
use crate::decimal::lemma_decimal_text;
use crate::encoder::{all_choices, all_records};
use crate::error::ErrorV;
use crate::identifier::{hyphenated, uuid_parse, Identifier};
use crate::quantity::lemma_quantity_round_trip;
use crate::record::{
    bare, body_of, choice_conforms, decode_field_spec, decode_fields_spec,
    decode_heterogeneous_spec, decode_homogeneous_spec, decode_record_spec, decode_union_spec,
    encode_field_spec, encode_fields_spec, encode_heterogeneous_spec, encode_homogeneous_spec,
    encode_record_spec, encode_union_spec, field_conforms, find_keyword, find_tagged, left_out,
    record_conforms, tag_nodes, tag_of, try_variants_spec,
};
use crate::scalar::{decode_scalar_spec, encode_scalar_spec, first_spelling, scalar_fits};
use crate::schema::{FieldV, ScalarKindV, SchemaV};
use crate::tree::NodeV;
use crate::value::ValueV;

verus! {

/// No text stands twice among the texts.
pub open spec fn distinct_texts(texts: Seq<Seq<u8>>) -> bool {
    forall|i: int, j: int| 0 <= i < j < texts.len() ==> #[trigger] texts[i] != #[trigger] texts[j]
}

/// An enumeration is well formed where no two variants share a spelling and
/// its fallback is one of its variants.
pub open spec fn kind_well_formed(kind: ScalarKindV) -> bool {
    match kind {
        ScalarKindV::Symbol { spellings, fallback } => distinct_texts(spellings) && fallback
            < spellings.len(),
        _ => true,
    }
}

/// A positional field that the output may lack.
pub open spec fn omittable(field: FieldV) -> bool {
    match field {
        FieldV::Positional { kind, default, suppress } => suppress && default is Some,
        _ => false,
    }
}

/// Whether the tag differs from the tag of every list that `later` writes.
pub open spec fn apart(tag: Option<Seq<u8>>, later: FieldV) -> bool {
    match later {
        FieldV::Keyed { schema, default, suppress } => schema.tag != tag,
        FieldV::Repeated { schema } => schema.tag != tag,
        FieldV::Sequence { variants } => forall|k: int|
            0 <= k < variants.len() ==> (#[trigger] variants[k]).tag is Some && variants[k].tag
                != tag,
        _ => true,
    }
}

/// Whether `first` can stand before `later` in a schema: nothing that
/// `later` writes can be taken for `first`.
///
/// After a positional field that may be left out comes no bare value; after
/// a flag comes no positional field and no flag with the same keyword; after
/// a keyed or repeated field comes no list with the same tag; after a
/// sequence comes nothing.
pub open spec fn in_order(first: FieldV, later: FieldV) -> bool {
    match first {
        FieldV::Positional { kind, default, suppress } => omittable(first) ==> !(later
            is Positional) && !(later is Flag),
        FieldV::Flag { keyword } => match later {
            FieldV::Positional { .. } => false,
            FieldV::Flag { keyword: other } => keyword != other,
            _ => true,
        },
        FieldV::Keyed { schema, default, suppress } => apart(schema.tag, later),
        FieldV::Repeated { schema } => apart(schema.tag, later),
        FieldV::Sequence { variants } => false,
    }
}

/// Every field can stand before those that follow it.
pub open spec fn fields_in_order(fields: Seq<FieldV>) -> bool {
    forall|i: int, j: int|
        0 <= i < j < fields.len() ==> in_order(#[trigger] fields[i], #[trigger] fields[j])
}

/// The candidates of a union can be told apart: there is at most one, or
/// each has a tag and no two share one.
pub open spec fn union_well_formed(variants: Seq<SchemaV>) -> bool {
    variants.len() <= 1 || {
        &&& forall|k: int| 0 <= k < variants.len() ==> (#[trigger] variants[k]).tag is Some
        &&& forall|j: int, k: int|
            0 <= j < k < variants.len() ==> (#[trigger] variants[j]).tag != (
            #[trigger] variants[k]).tag
    }
}

/// A schema from which what was encoded can be decoded again: its fields are
/// well formed and in order.
pub open spec fn schema_well_formed(schema: SchemaV) -> bool
    decreases schema, 0int,
{
    &&& forall|i: int|
        0 <= i < schema.fields.len() ==> field_well_formed(#[trigger] schema.fields[i])
    &&& fields_in_order(schema.fields)
}

/// A field whose own schemas are well formed, tagged where it is found by its
/// tag, and, in a union, told apart.
pub open spec fn field_well_formed(field: FieldV) -> bool
    decreases field, 0int,
{
    match field {
        FieldV::Positional { kind, default, suppress } => kind_well_formed(kind),
        FieldV::Keyed { schema, default, suppress } => schema.tag is Some && schema_well_formed(
            schema,
        ),
        FieldV::Flag { keyword } => true,
        FieldV::Repeated { schema } => schema.tag is Some && schema_well_formed(schema),
        FieldV::Sequence { variants } => union_well_formed(variants) && forall|k: int|
            0 <= k < variants.len() ==> schema_well_formed(#[trigger] variants[k]),
    }
}

/// An identifier that the identifier codec reads back as itself after
/// writing it. The `uuid` crate documents this of its parser, and each call
/// of `Identifier::encode` states it of the identifier that it writes.
pub open spec fn reads_back(id: Identifier) -> bool {
    uuid_parse(hyphenated(id.bits)) == Some(id.bits)
}

/// Every identifier that occurs in the value reads back as itself. A value
/// that holds no identifier is such a value.
pub open spec fn value_reads_back(v: ValueV) -> bool
    decreases v, 0int,
{
    match v {
        ValueV::Identifier(id) => reads_back(id),
        ValueV::Record(items) => values_read_back(items),
        ValueV::Choice(k, items) => values_read_back(items),
        ValueV::Sequence(items) => values_read_back(items),
        _ => true,
    }
}

/// Every identifier that occurs in the values reads back as itself.
pub open spec fn values_read_back(values: Seq<ValueV>) -> bool
    decreases values, 1int,
{
    forall|i: int| 0 <= i < values.len() ==> value_reads_back(#[trigger] values[i])
}

/// Every identifier that is written when the values are encoded as a
/// record of the schema reads back as itself. An identifier in a field that
/// is left out is not written, and nothing is asked of it.
pub open spec fn written_read_back(values: Seq<ValueV>, schema: SchemaV) -> bool
    decreases schema, 0int,
{
    forall|i: int|
        0 <= i < schema.fields.len() && i < values.len() ==> field_written_reads_back(
            #[trigger] schema.fields[i],
            values[i],
        )
}

/// Every identifier that is written when the value is encoded as the field
/// reads back as itself.
pub open spec fn field_written_reads_back(field: FieldV, value: ValueV) -> bool
    decreases field, 0int,
{
    match field {
        FieldV::Positional { kind, default, suppress } => left_out(default, suppress, value)
            || value_reads_back(value),
        FieldV::Keyed { schema, default, suppress } => left_out(default, suppress, value) || (
        value is Record ==> written_read_back(value->Record_0, schema)),
        FieldV::Flag { keyword } => true,
        FieldV::Repeated { schema } => value is Sequence ==> records_written_read_back(
            value->Sequence_0,
            schema,
        ),
        FieldV::Sequence { variants } => value is Sequence ==> choices_written_read_back(
            value->Sequence_0,
            variants,
        ),
    }
}

/// Every identifier that is written when the records are encoded reads back
/// as itself.
pub open spec fn records_written_read_back(records: Seq<ValueV>, schema: SchemaV) -> bool
    decreases schema, 1int,
{
    forall|x: int|
        0 <= x < records.len() ==> ((#[trigger] records[x]) is Record ==> written_read_back(
            records[x]->Record_0,
            schema,
        ))
}

/// Every identifier that is written when the values of a union are encoded
/// reads back as itself.
pub open spec fn choices_written_read_back(choices: Seq<ValueV>, variants: Seq<SchemaV>) -> bool
    decreases variants, 1int,
{
    forall|x: int|
        0 <= x < choices.len() ==> ((#[trigger] choices[x]) is Choice && choices[x]->Choice_0
            < variants.len() ==> written_read_back(
            choices[x]->Choice_1,
            variants[choices[x]->Choice_0 as int],
        ))
}

/// Where every identifier of the values reads back, every identifier that
/// is written does.
pub proof fn lemma_all_read_back(values: Seq<ValueV>, schema: SchemaV)
    requires
        values_read_back(values),
    ensures
        written_read_back(values, schema),
    decreases schema, 0int,
{
    assert forall|i: int|
        0 <= i < schema.fields.len() && i < values.len() implies field_written_reads_back(
        #[trigger] schema.fields[i],
        values[i],
    ) by {
        assert(value_reads_back(values[i]));
        lemma_all_read_back_field(schema.fields[i], values[i]);
    }
}

/// Where every identifier of the value reads back, every identifier that is
/// written does.
pub proof fn lemma_all_read_back_field(field: FieldV, value: ValueV)
    requires
        value_reads_back(value),
    ensures
        field_written_reads_back(field, value),
    decreases field, 0int,
{
    match field {
        FieldV::Keyed { schema, default, suppress } => {
            if value is Record {
                lemma_all_read_back(value->Record_0, schema);
            }
        },
        FieldV::Repeated { schema } => {
            if value is Sequence {
                let records = value->Sequence_0;
                assert forall|x: int| 0 <= x < records.len() implies ((#[trigger] records[x])
                    is Record ==> written_read_back(records[x]->Record_0, schema)) by {
                    assert(value_reads_back(records[x]));
                    if records[x] is Record {
                        lemma_all_read_back(records[x]->Record_0, schema);
                    }
                }
            }
        },
        FieldV::Sequence { variants } => {
            if value is Sequence {
                let choices = value->Sequence_0;
                assert forall|x: int| 0 <= x < choices.len() implies ((#[trigger] choices[x])
                    is Choice && choices[x]->Choice_0 < variants.len() ==> written_read_back(
                    choices[x]->Choice_1,
                    variants[choices[x]->Choice_0 as int],
                )) by {
                    assert(value_reads_back(choices[x]));
                    if choices[x] is Choice && choices[x]->Choice_0 < variants.len() {
                        lemma_all_read_back(
                            choices[x]->Choice_1,
                            variants[choices[x]->Choice_0 as int],
                        );
                    }
                }
            }
        },
        _ => {},
    }
}

/// A node that cannot be taken for the field `first` when that is absent.
pub open spec fn quiet(first: FieldV, n: NodeV) -> bool {
    match first {
        FieldV::Positional { kind, default, suppress } => omittable(first) ==> n is List,
        FieldV::Flag { keyword } => n != bare(keyword),
        FieldV::Keyed { schema, default, suppress } => tag_of(n) is None || tag_of(n)
            != schema.tag,
        FieldV::Repeated { schema } => tag_of(n) is None || tag_of(n) != schema.tag,
        FieldV::Sequence { variants } => false,
    }
}

/// Every node is quiet for the field.
pub open spec fn all_quiet(first: FieldV, nodes: Seq<NodeV>) -> bool {
    forall|x: int| 0 <= x < nodes.len() ==> quiet(first, #[trigger] nodes[x])
}

/// Among distinct spellings each is first found at its own place.
pub proof fn lemma_first_spelling(spellings: Seq<Seq<u8>>, i: int, from: int)
    requires
        distinct_texts(spellings),
        0 <= from <= i < spellings.len(),
    ensures
        first_spelling(spellings, spellings[i], from) == Some(i),
    decreases i - from,
{
    if from < i {
        lemma_first_spelling(spellings, i, from + 1);
    }
}

/// A scalar that is written and read again comes back unchanged.
pub proof fn lemma_scalar_round_trip(kind: ScalarKindV, value: ValueV)
    requires
        kind_well_formed(kind),
        scalar_fits(kind, value),
        value_reads_back(value),
    ensures
        encode_scalar_spec(kind, value) is Atom,
        decode_scalar_spec(
            kind,
            encode_scalar_spec(kind, value)->text,
            encode_scalar_spec(kind, value)->quoted,
        ) == Ok::<ValueV, ErrorV>(value),
{
    match (kind, value) {
        (ScalarKindV::Integer, ValueV::Integer(n)) => {
            lemma_decimal_text(n as nat);
        },
        (ScalarKindV::Quantity, ValueV::Quantity(q)) => {
            lemma_quantity_round_trip(q);
        },
        (ScalarKindV::Identifier, ValueV::Identifier(id)) => {
            assert(reads_back(id));
        },
        (ScalarKindV::Symbol { spellings, fallback }, ValueV::Variant(i)) => {
            lemma_first_spelling(spellings, i as int, 0);
        },
        _ => {},
    }
}

/// The node of a record is a list, and has the tag of its schema.
pub proof fn lemma_encoded_tag(values: Seq<ValueV>, schema: SchemaV)
    ensures
        encode_record_spec(values, schema) is List,
        schema.tag is Some ==> tag_of(encode_record_spec(values, schema)) == schema.tag,
        body_of(encode_record_spec(values, schema), schema) == Some(
            encode_fields_spec(schema.fields, values, 0),
        ),
{
    let fields = encode_fields_spec(schema.fields, values, 0);
    let items = tag_nodes(schema.tag) + fields;
    match schema.tag {
        Some(t) => {
            assert(items[0] == bare(t));
            assert(items.subrange(1, items.len() as int) =~= fields);
        },
        None => {
            assert(items =~= fields);
        },
    }
}

/// No list with the tag is found where no node from `i` on has it.
pub proof fn lemma_find_tagged_none(nodes: Seq<NodeV>, tag: Seq<u8>, i: int)
    requires
        0 <= i,
        forall|x: int| i <= x < nodes.len() ==> tag_of(#[trigger] nodes[x]) != Some(tag),
    ensures
        find_tagged(nodes, tag, i) is None,
    decreases nodes.len() - i,
{
    if i < nodes.len() {
        lemma_find_tagged_none(nodes, tag, i + 1);
    }
}

/// No keyword is found where no node from `i` on is it.
pub proof fn lemma_find_keyword_none(nodes: Seq<NodeV>, keyword: Seq<u8>, i: int)
    requires
        0 <= i,
        forall|x: int| i <= x < nodes.len() ==> #[trigger] nodes[x] != bare(keyword),
    ensures
        find_keyword(nodes, keyword, i) is None,
    decreases nodes.len() - i,
{
    if i < nodes.len() {
        lemma_find_keyword_none(nodes, keyword, i + 1);
    }
}

/// The nodes of a run of records: one for each, in order.
pub proof fn lemma_homogeneous_nodes(records: Seq<ValueV>, schema: SchemaV, i: int)
    requires
        0 <= i <= records.len(),
        all_records(records, schema),
    ensures
        encode_homogeneous_spec(records, schema, i).len() == records.len() - i,
        forall|x: int|
            0 <= x < records.len() - i ==> #[trigger] encode_homogeneous_spec(records, schema, i)[x]
                == encode_record_spec(records[i + x]->Record_0, schema),
    decreases records.len() - i,
{
    if i < records.len() {
        lemma_homogeneous_nodes(records, schema, i + 1);
        assert(records[i] is Record);
        let rest = encode_homogeneous_spec(records, schema, i + 1);
        let all = encode_homogeneous_spec(records, schema, i);
        assert forall|x: int| 0 <= x < records.len() - i implies #[trigger] all[x]
            == encode_record_spec(records[i + x]->Record_0, schema) by {
            if x > 0 {
                assert(all[x] == rest[x - 1]);
            }
        }
    }
}

/// The nodes of a run of values of a union: one for each, in order.
pub proof fn lemma_heterogeneous_nodes(choices: Seq<ValueV>, variants: Seq<SchemaV>, i: int)
    requires
        0 <= i <= choices.len(),
        all_choices(choices, variants),
    ensures
        encode_heterogeneous_spec(choices, variants, i).len() == choices.len() - i,
        forall|x: int|
            0 <= x < choices.len() - i ==> #[trigger] encode_heterogeneous_spec(
                choices,
                variants,
                i,
            )[x] == encode_union_spec(
                choices[i + x]->Choice_0,
                choices[i + x]->Choice_1,
                variants,
            ),
    decreases choices.len() - i,
{
    if i < choices.len() {
        lemma_heterogeneous_nodes(choices, variants, i + 1);
        assert(choice_conforms(choices[i], variants));
        let rest = encode_heterogeneous_spec(choices, variants, i + 1);
        let all = encode_heterogeneous_spec(choices, variants, i);
        assert forall|x: int| 0 <= x < choices.len() - i implies #[trigger] all[x]
            == encode_union_spec(
            choices[i + x]->Choice_0,
            choices[i + x]->Choice_1,
            variants,
        ) by {
            if x > 0 {
                assert(all[x] == rest[x - 1]);
            }
        }
    }
}

/// What a field writes cannot be taken for a field that may stand before it.
pub proof fn lemma_field_quiet(first: FieldV, later: FieldV, value: ValueV)
    requires
        in_order(first, later),
        field_well_formed(later),
        field_conforms(later, value),
    ensures
        all_quiet(first, encode_field_spec(later, value)),
{
    let nodes = encode_field_spec(later, value);
    assert forall|x: int| 0 <= x < nodes.len() implies quiet(first, #[trigger] nodes[x]) by {
        match later {
            FieldV::Positional { kind, default, suppress } => {},
            FieldV::Flag { keyword } => {},
            FieldV::Keyed { schema, default, suppress } => {
                lemma_encoded_tag(value->Record_0, schema);
            },
            FieldV::Repeated { schema } => {
                lemma_homogeneous_nodes(value->Sequence_0, schema, 0);
                lemma_encoded_tag(value->Sequence_0[x]->Record_0, schema);
            },
            FieldV::Sequence { variants } => {
                let choices = value->Sequence_0;
                lemma_heterogeneous_nodes(choices, variants, 0);
                assert(choice_conforms(choices[x], variants));
                let k = choices[x]->Choice_0 as int;
                lemma_encoded_tag(choices[x]->Choice_1, variants[k]);
            },
        }
    }
}

/// What the fields from the `j`-th on write cannot be taken for a field that
/// may stand before all of them.
pub proof fn lemma_rest_quiet(first: FieldV, fields: Seq<FieldV>, values: Seq<ValueV>, j: int)
    requires
        0 <= j,
        values.len() == fields.len(),
        forall|m: int| j <= m < fields.len() ==> in_order(first, #[trigger] fields[m]),
        forall|m: int| j <= m < fields.len() ==> field_well_formed(#[trigger] fields[m]),
        forall|m: int| j <= m < fields.len() ==> field_conforms(#[trigger] fields[m], values[m]),
    ensures
        all_quiet(first, encode_fields_spec(fields, values, j)),
    decreases fields.len() - j,
{
    if j < fields.len() {
        lemma_rest_quiet(first, fields, values, j + 1);
        lemma_field_quiet(first, fields[j], values[j]);
        let head = encode_field_spec(fields[j], values[j]);
        let rest = encode_fields_spec(fields, values, j + 1);
        let all = encode_fields_spec(fields, values, j);
        assert forall|x: int| 0 <= x < all.len() implies quiet(first, #[trigger] all[x]) by {
            if x < head.len() {
                assert(all[x] == head[x]);
            } else {
                assert(all[x] == rest[x - head.len()]);
            }
        }
    }
}

/// **First match wins.** A union resolves to the candidate at `k` exactly
/// where that candidate accepts the node and none before it does, whatever
/// the candidates after it would make of the node.
pub proof fn lemma_first_match_wins(node: NodeV, variants: Seq<SchemaV>, k: int, from: int)
    requires
        0 <= from <= k < variants.len(),
        decode_record_spec(node, variants[k]) is Ok,
        forall|j: int| from <= j < k ==> decode_record_spec(node, #[trigger] variants[j]) is Err,
    ensures
        try_variants_spec(node, variants, from) == Ok::<(usize, Seq<ValueV>), Seq<crate::error::ErrorKind>>(
            (k as usize, decode_record_spec(node, variants[k])->Ok_0),
        ),
        from == 0 ==> decode_union_spec(node, variants) == Ok::<(usize, Seq<ValueV>), ErrorV>(
            (k as usize, decode_record_spec(node, variants[k])->Ok_0),
        ),
    decreases k - from,
{
    if from < k {
        assert(decode_record_spec(node, variants[from]) is Err);
        lemma_first_match_wins(node, variants, k, from + 1);
    }
}

} // verus!

verus! {

/// Nodes without the tag of the schema are all passed over.
proof fn lemma_homogeneous_passes(nodes: Seq<NodeV>, schema: SchemaV, idx: int)
    requires
        0 <= idx <= nodes.len(),
        forall|x: int|
            idx <= x < nodes.len() ==> tag_of(#[trigger] nodes[x]) is None || tag_of(nodes[x])
                != schema.tag,
    ensures
        decode_homogeneous_spec(nodes, schema, idx) == Ok::<(Seq<ValueV>, Seq<NodeV>), ErrorV>(
            (Seq::empty(), nodes.subrange(idx, nodes.len() as int)),
        ),
    decreases nodes.len() - idx,
{
    if idx < nodes.len() {
        lemma_homogeneous_passes(nodes, schema, idx + 1);
        assert(tag_of(nodes[idx]) is None || tag_of(nodes[idx]) != schema.tag);
        assert(seq![nodes[idx]] + nodes.subrange(idx + 1, nodes.len() as int)
            =~= nodes.subrange(idx, nodes.len() as int));
    } else {
        assert(nodes.subrange(idx, nodes.len() as int) =~= Seq::<NodeV>::empty());
    }
}

/// A run of records that is encoded, followed by nodes with other tags,
/// decodes to the same records and passes the other nodes over.
proof fn lemma_homogeneous_round_trip(
    records: Seq<ValueV>,
    schema: SchemaV,
    rest: Seq<NodeV>,
    idx: int,
)
    requires
        0 <= idx <= records.len(),
        schema.tag is Some,
        schema_well_formed(schema),
        all_records(records, schema),
        records_written_read_back(records, schema),
        forall|x: int|
            0 <= x < rest.len() ==> tag_of(#[trigger] rest[x]) is None || tag_of(rest[x])
                != schema.tag,
    ensures
        decode_homogeneous_spec(encode_homogeneous_spec(records, schema, 0) + rest, schema, idx)
            == Ok::<(Seq<ValueV>, Seq<NodeV>), ErrorV>(
            (records.subrange(idx, records.len() as int), rest),
        ),
    decreases schema, records.len() - idx + 1,
{
    let enc = encode_homogeneous_spec(records, schema, 0);
    let nodes = enc + rest;
    lemma_homogeneous_nodes(records, schema, 0);
    if idx == records.len() {
        assert forall|x: int| idx <= x < nodes.len() implies tag_of(#[trigger] nodes[x]) is None
            || tag_of(nodes[x]) != schema.tag by {
            assert(nodes[x] == rest[x - enc.len()]);
        }
        lemma_homogeneous_passes(nodes, schema, idx);
        assert(nodes.subrange(idx, nodes.len() as int) =~= rest);
        assert(records.subrange(idx, records.len() as int) =~= Seq::<ValueV>::empty());
    } else {
        lemma_homogeneous_round_trip(records, schema, rest, idx + 1);
        assert(records[idx] is Record);
        let vs = records[idx]->Record_0;
        assert(nodes[idx] == enc[idx]);
        assert(enc[idx] == encode_record_spec(records[0 + idx]->Record_0, schema));
        lemma_encoded_tag(vs, schema);
        assert(written_read_back(vs, schema));
        lemma_record_round_trip(vs, schema);
        assert(records[idx] == ValueV::Record(vs));
        assert(seq![records[idx]] + records.subrange(idx + 1, records.len() as int)
            =~= records.subrange(idx, records.len() as int));
    }
}

/// **Round trip of a union.** A value of a union whose candidates can be
/// told apart, encoded by its own shape, resolves to that shape and decodes
/// to the same record.
pub proof fn lemma_union_round_trip(k: usize, values: Seq<ValueV>, variants: Seq<SchemaV>)
    requires
        k < variants.len(),
        union_well_formed(variants),
        schema_well_formed(variants[k as int]),
        record_conforms(values, variants[k as int]),
        written_read_back(values, variants[k as int]),
    ensures
        decode_union_spec(encode_union_spec(k, values, variants), variants) == Ok::<
            (usize, Seq<ValueV>),
            ErrorV,
        >((k, values)),
    decreases variants, 0int,
{
    let node = encode_union_spec(k, values, variants);
    lemma_record_round_trip(values, variants[k as int]);
    lemma_encoded_tag(values, variants[k as int]);
    assert forall|j: int| 0 <= j < k implies decode_record_spec(node, #[trigger] variants[j])
        is Err by {
        assert(variants[j].tag is Some);
        assert(variants[j].tag != variants[k as int].tag);
        assert(body_of(node, variants[j]) is None);
    }
    lemma_first_match_wins(node, variants, k as int, 0);
}

/// A run of values of a union that is encoded decodes to the same values.
proof fn lemma_heterogeneous_round_trip(choices: Seq<ValueV>, variants: Seq<SchemaV>, idx: int)
    requires
        0 <= idx <= choices.len(),
        union_well_formed(variants),
        forall|k: int| 0 <= k < variants.len() ==> schema_well_formed(#[trigger] variants[k]),
        all_choices(choices, variants),
        choices_written_read_back(choices, variants),
    ensures
        decode_heterogeneous_spec(encode_heterogeneous_spec(choices, variants, 0), variants, idx)
            == Ok::<Seq<ValueV>, ErrorV>(choices.subrange(idx, choices.len() as int)),
    decreases variants, choices.len() - idx + 1,
{
    let enc = encode_heterogeneous_spec(choices, variants, 0);
    lemma_heterogeneous_nodes(choices, variants, 0);
    if idx < choices.len() {
        lemma_heterogeneous_round_trip(choices, variants, idx + 1);
        assert(choice_conforms(choices[idx], variants));
        let k = choices[idx]->Choice_0;
        let vs = choices[idx]->Choice_1;
        assert(enc[idx] == encode_union_spec(
            choices[0 + idx]->Choice_0,
            choices[0 + idx]->Choice_1,
            variants,
        ));
        assert(written_read_back(vs, variants[k as int]));
        lemma_union_round_trip(k, vs, variants);
        assert(choices[idx] == ValueV::Choice(k, vs));
        assert(seq![choices[idx]] + choices.subrange(idx + 1, choices.len() as int)
            =~= choices.subrange(idx, choices.len() as int));
    } else {
        assert(choices.subrange(idx, choices.len() as int) =~= Seq::<ValueV>::empty());
    }
}

/// A positional field comes back, and leaves what follows it.
proof fn lemma_positional_round_trip(field: FieldV, value: ValueV, rest: Seq<NodeV>)
    requires
        field_well_formed(field),
        field_conforms(field, value),
        all_quiet(field, rest),
        field_written_reads_back(field, value),
        field is Positional,
    ensures
        decode_field_spec(field, encode_field_spec(field, value) + rest) == Ok::<
            (ValueV, Seq<NodeV>),
            ErrorV,
        >((value, rest)),
{
    let enc = encode_field_spec(field, value);
    let left = enc + rest;
    match field {
        FieldV::Positional { kind, default, suppress } => {
            if left_out(default, suppress, value) {
                assert(left =~= rest);
                if rest.len() > 0 {
                    assert(quiet(field, rest[0]));
                }
            } else {
                lemma_scalar_round_trip(kind, value);
                assert(left[0] == encode_scalar_spec(kind, value));
                assert(left.remove(0) =~= rest);
            }
        },
        _ => {},
    }
}

/// A flag comes back, and leaves what follows it.
proof fn lemma_flag_round_trip(field: FieldV, value: ValueV, rest: Seq<NodeV>)
    requires
        field_well_formed(field),
        field_conforms(field, value),
        all_quiet(field, rest),
        field_written_reads_back(field, value),
        field is Flag,
    ensures
        decode_field_spec(field, encode_field_spec(field, value) + rest) == Ok::<
            (ValueV, Seq<NodeV>),
            ErrorV,
        >((value, rest)),
{
    let enc = encode_field_spec(field, value);
    let left = enc + rest;
    match field {
        FieldV::Flag { keyword } => {
            if value == ValueV::Flag(true) {
                assert(left[0] == bare(keyword));
                assert(left.remove(0) =~= rest);
            } else {
                assert(left =~= rest);
                assert forall|x: int| 0 <= x < rest.len() implies #[trigger] rest[x] != bare(
                    keyword,
                ) by {
                    assert(quiet(field, rest[x]));
                }
                lemma_find_keyword_none(rest, keyword, 0);
                assert(value == ValueV::Flag(false));
            }
        },
        _ => {},
    }
}

/// A keyed field comes back, and leaves what follows it.
proof fn lemma_keyed_round_trip(field: FieldV, value: ValueV, rest: Seq<NodeV>)
    requires
        field_well_formed(field),
        field_conforms(field, value),
        all_quiet(field, rest),
        field_written_reads_back(field, value),
        field is Keyed,
    ensures
        decode_field_spec(field, encode_field_spec(field, value) + rest) == Ok::<
            (ValueV, Seq<NodeV>),
            ErrorV,
        >((value, rest)),
    decreases field, 0int,
{
    let enc = encode_field_spec(field, value);
    let left = enc + rest;
    match field {
        FieldV::Keyed { schema, default, suppress } => {
            let t = schema.tag->0;
            if left_out(default, suppress, value) {
                assert(left =~= rest);
                assert forall|x: int| 0 <= x < rest.len() implies tag_of(#[trigger] rest[x])
                    != Some(t) by {
                    assert(quiet(field, rest[x]));
                }
                lemma_find_tagged_none(rest, t, 0);
            } else {
                let vs = value->Record_0;
                lemma_encoded_tag(vs, schema);
                assert(left[0] == encode_record_spec(vs, schema));
                lemma_record_round_trip(vs, schema);
                assert(left.remove(0) =~= rest);
                assert(value == ValueV::Record(vs));
            }
        },
        _ => {},
    }
}

/// A repeated field comes back, and leaves what follows it.
proof fn lemma_repeated_round_trip(field: FieldV, value: ValueV, rest: Seq<NodeV>)
    requires
        field_well_formed(field),
        field_conforms(field, value),
        all_quiet(field, rest),
        field_written_reads_back(field, value),
        field is Repeated,
    ensures
        decode_field_spec(field, encode_field_spec(field, value) + rest) == Ok::<
            (ValueV, Seq<NodeV>),
            ErrorV,
        >((value, rest)),
    decreases field, 0int,
{
    let enc = encode_field_spec(field, value);
    let left = enc + rest;
    match field {
        FieldV::Repeated { schema } => {
            let records = value->Sequence_0;
            assert forall|x: int| 0 <= x < rest.len() implies tag_of(#[trigger] rest[x]) is None
                || tag_of(rest[x]) != schema.tag by {
                assert(quiet(field, rest[x]));
            }
            lemma_homogeneous_round_trip(records, schema, rest, 0);
            assert(records.subrange(0, records.len() as int) =~= records);
            assert(value == ValueV::Sequence(records));
        },
        _ => {},
    }
}

/// A sequence comes back; nothing can follow it.
proof fn lemma_sequence_round_trip(field: FieldV, value: ValueV, rest: Seq<NodeV>)
    requires
        field_well_formed(field),
        field_conforms(field, value),
        all_quiet(field, rest),
        field_written_reads_back(field, value),
        field is Sequence,
    ensures
        decode_field_spec(field, encode_field_spec(field, value) + rest) == Ok::<
            (ValueV, Seq<NodeV>),
            ErrorV,
        >((value, rest)),
    decreases field, 0int,
{
    let enc = encode_field_spec(field, value);
    let left = enc + rest;
    match field {
        FieldV::Sequence { variants } => {
            let choices = value->Sequence_0;
            if rest.len() > 0 {
                assert(quiet(field, rest[0]));
            }
            assert(rest =~= Seq::<NodeV>::empty());
            assert(left =~= enc);
            lemma_heterogeneous_round_trip(choices, variants, 0);
            assert(choices.subrange(0, choices.len() as int) =~= choices);
            assert(value == ValueV::Sequence(choices));
        },
        _ => {},
    }
}

/// A field that is encoded, followed by nodes that cannot be taken for it,
/// decodes to the same value and leaves those nodes.
proof fn lemma_field_round_trip(field: FieldV, value: ValueV, rest: Seq<NodeV>)
    requires
        field_well_formed(field),
        field_conforms(field, value),
        all_quiet(field, rest),
        field_written_reads_back(field, value),
    ensures
        decode_field_spec(field, encode_field_spec(field, value) + rest) == Ok::<
            (ValueV, Seq<NodeV>),
            ErrorV,
        >((value, rest)),
    decreases field, 1int,
{
    match field {
        FieldV::Positional { .. } => lemma_positional_round_trip(field, value, rest),
        FieldV::Flag { .. } => lemma_flag_round_trip(field, value, rest),
        FieldV::Keyed { .. } => lemma_keyed_round_trip(field, value, rest),
        FieldV::Repeated { .. } => lemma_repeated_round_trip(field, value, rest),
        FieldV::Sequence { .. } => lemma_sequence_round_trip(field, value, rest),
    }
}

/// The fields from the `i`-th on, encoded, decode to the same values and
/// leave nothing.
proof fn lemma_fields_round_trip(fields: Seq<FieldV>, values: Seq<ValueV>, i: int)
    requires
        0 <= i <= fields.len(),
        values.len() == fields.len(),
        forall|m: int| 0 <= m < fields.len() ==> field_well_formed(#[trigger] fields[m]),
        fields_in_order(fields),
        forall|m: int| 0 <= m < fields.len() ==> field_conforms(#[trigger] fields[m], values[m]),
        forall|m: int|
            0 <= m < fields.len() ==> field_written_reads_back(#[trigger] fields[m], values[m]),
    ensures
        decode_fields_spec(fields, i, encode_fields_spec(fields, values, i)) == Ok::<
            (Seq<ValueV>, Seq<NodeV>),
            ErrorV,
        >((values.subrange(i, values.len() as int), Seq::empty())),
    decreases fields, fields.len() - i,
{
    if i < fields.len() {
        let rest = encode_fields_spec(fields, values, i + 1);
        assert forall|m: int| i + 1 <= m < fields.len() implies in_order(
            fields[i],
            #[trigger] fields[m],
        ) by {}
        lemma_rest_quiet(fields[i], fields, values, i + 1);
        assert(field_written_reads_back(fields[i], values[i]));
        lemma_field_round_trip(fields[i], values[i], rest);
        lemma_fields_round_trip(fields, values, i + 1);
        assert(seq![values[i]] + values.subrange(i + 1, values.len() as int)
            =~= values.subrange(i, values.len() as int));
    } else {
        assert(values.subrange(i, values.len() as int) =~= Seq::<ValueV>::empty());
    }
}

/// **Round trip.** A record of a well-formed schema that is encoded and then
/// decoded against the same schema comes back unchanged.
pub proof fn lemma_record_round_trip(values: Seq<ValueV>, schema: SchemaV)
    requires
        schema_well_formed(schema),
        record_conforms(values, schema),
        written_read_back(values, schema),
    ensures
        decode_record_spec(encode_record_spec(values, schema), schema) == Ok::<
            Seq<ValueV>,
            ErrorV,
        >(values),
    decreases schema, 0int,
{
    lemma_encoded_tag(values, schema);
    lemma_fields_round_trip(schema.fields, values, 0);
    assert(values.subrange(0, values.len() as int) =~= values);
}

/// **Default suppression, encoding.** A field whose schema asks that its
/// default be suppressed, and whose value is that default, is left out of
/// the output entirely.
pub proof fn lemma_sentinel_left_out(field: FieldV, value: ValueV)
    requires
        field matches FieldV::Positional { kind, default, suppress } ==> suppress && default
            == Some(value),
        field matches FieldV::Keyed { schema, default, suppress } ==> suppress && default == Some(
            value,
        ),
        field is Positional || field is Keyed,
    ensures
        encode_field_spec(field, value) == Seq::<NodeV>::empty(),
{
}

/// **Default suppression, decoding.** A positional field that finds no atom
/// at the head of the children that are left, or a keyed field that finds no
/// list with its tag among them, has its default and takes no child.
pub proof fn lemma_absent_field_has_default(field: FieldV, left: Seq<NodeV>)
    requires
        field matches FieldV::Positional { kind, default, suppress } ==> default is Some && (
        left.len() == 0 || left[0] is List),
        field matches FieldV::Keyed { schema, default, suppress } ==> default is Some
            && schema.tag is Some && forall|x: int|
            0 <= x < left.len() ==> tag_of(#[trigger] left[x]) != schema.tag,
        field is Positional || field is Keyed,
    ensures
        field matches FieldV::Positional { kind, default, suppress } ==> decode_field_spec(
            field,
            left,
        ) == Ok::<(ValueV, Seq<NodeV>), ErrorV>((default->0, left)),
        field matches FieldV::Keyed { schema, default, suppress } ==> decode_field_spec(field, left)
            == Ok::<(ValueV, Seq<NodeV>), ErrorV>((default->0, left)),
{
    match field {
        FieldV::Keyed { schema, default, suppress } => {
            lemma_find_tagged_none(left, schema.tag->0, 0);
        },
        _ => {},
    }
}

} // verus!

verus! {

/// The tag of the lists that a keyed or repeated field writes.
pub open spec fn key_of(field: FieldV) -> Option<Seq<u8>> {
    match field {
        FieldV::Keyed { schema, default, suppress } => schema.tag,
        FieldV::Repeated { schema } => schema.tag,
        _ => None,
    }
}

/// Keyed and repeated fields with keys of their own are in order, whatever
/// their order.
pub proof fn lemma_keyed_in_order(fields: Seq<FieldV>, keys: Seq<Seq<u8>>)
    requires
        keys.len() == fields.len(),
        forall|i: int| 0 <= i < fields.len() ==> key_of(#[trigger] fields[i]) == Some(keys[i]),
        distinct_texts(keys),
    ensures
        fields_in_order(fields),
{
    assert forall|i: int, j: int| 0 <= i < j < fields.len() implies in_order(
        #[trigger] fields[i],
        #[trigger] fields[j],
    ) by {
        assert(key_of(fields[i]) == Some(keys[i]));
        assert(key_of(fields[j]) == Some(keys[j]));
        assert(keys[i] != keys[j]);
    }
}

/// Keyed and repeated fields with keys of their own, followed by a sequence
/// whose shapes have tags of their own, are in order, and the shapes can be
/// told apart.
pub proof fn lemma_keyed_then_sequence(
    fields: Seq<FieldV>,
    keys: Seq<Seq<u8>>,
    shapes: Seq<Seq<u8>>,
)
    requires
        fields.len() == keys.len() + 1,
        forall|i: int| 0 <= i < keys.len() ==> key_of(#[trigger] fields[i]) == Some(keys[i]),
        fields[keys.len() as int] is Sequence,
        fields[keys.len() as int]->variants.len() == shapes.len(),
        forall|k: int|
            0 <= k < shapes.len() ==> (#[trigger] fields[keys.len() as int]->variants[k]).tag
                == Some(shapes[k]),
        distinct_texts(keys + shapes),
    ensures
        fields_in_order(fields),
        union_well_formed(fields[keys.len() as int]->variants),
{
    let all = keys + shapes;
    let variants = fields[keys.len() as int]->variants;
    assert forall|i: int, j: int| 0 <= i < j < fields.len() implies in_order(
        #[trigger] fields[i],
        #[trigger] fields[j],
    ) by {
        assert(key_of(fields[i]) == Some(keys[i]));
        assert(all[i] == keys[i]);
        if j < keys.len() {
            assert(key_of(fields[j]) == Some(keys[j]));
            assert(all[j] == keys[j]);
        } else {
            assert forall|k: int| 0 <= k < variants.len() implies (#[trigger] variants[k]).tag
                is Some && variants[k].tag != Some(keys[i]) by {
                assert(all[keys.len() + k] == shapes[k]);
            }
        }
    }
    assert forall|j: int, k: int| 0 <= j < k < variants.len() implies (#[trigger] variants[j]).tag
        != (#[trigger] variants[k]).tag by {
        assert(all[keys.len() + j] == shapes[j]);
        assert(all[keys.len() + k] == shapes[k]);
    }
}

/// What a search among the candidates from `from` on finds is the first of
/// them that accepts the node, with the record that it decodes to.
pub proof fn lemma_found_is_first(node: NodeV, variants: Seq<SchemaV>, from: int)
    requires
        0 <= from,
        variants.len() <= usize::MAX,
        try_variants_spec(node, variants, from) is Ok,
    ensures
        ({
            let (k, values) = try_variants_spec(node, variants, from)->Ok_0;
            &&& from <= k < variants.len()
            &&& decode_record_spec(node, variants[k as int]) == Ok::<Seq<ValueV>, ErrorV>(values)
            &&& forall|j: int|
                from <= j < k ==> decode_record_spec(node, #[trigger] variants[j]) is Err
        }),
    decreases variants.len() - from,
{
    if from < variants.len() && decode_record_spec(node, variants[from]) is Err {
        lemma_found_is_first(node, variants, from + 1);
    }
}

/// **One interpretation.** Where a union resolves, it resolves to the first
/// candidate, in the order of declaration, that accepts the node, and to the
/// record that this candidate decodes: no candidate before it accepts. The
/// candidates are as many as a vector can hold.
pub proof fn lemma_union_choice_is_first(node: NodeV, variants: Seq<SchemaV>)
    requires
        variants.len() <= usize::MAX,
        decode_union_spec(node, variants) is Ok,
    ensures
        ({
            let (k, values) = decode_union_spec(node, variants)->Ok_0;
            &&& k < variants.len()
            &&& decode_record_spec(node, variants[k as int]) == Ok::<Seq<ValueV>, ErrorV>(values)
            &&& forall|j: int| 0 <= j < k ==> decode_record_spec(node, #[trigger] variants[j]) is Err
        }),
{
    lemma_found_is_first(node, variants, 0);
}

/// **Each child by its first match.** Where the children of a list decode
/// as values of a union, there is one value for each child, in the order of
/// the children, and each is what the union resolves that child to: the
/// first candidate, in the order of declaration, that accepts it.
pub proof fn lemma_each_child_first_match(nodes: Seq<NodeV>, variants: Seq<SchemaV>, i: int)
    requires
        0 <= i <= nodes.len(),
        decode_heterogeneous_spec(nodes, variants, i) is Ok,
    ensures
        decode_heterogeneous_spec(nodes, variants, i)->Ok_0.len() == nodes.len() - i,
        forall|x: int|
            0 <= x < nodes.len() - i ==> (decode_union_spec(nodes[i + x], variants) matches Ok(
                (k, values),
            ) && #[trigger] decode_heterogeneous_spec(nodes, variants, i)->Ok_0[x]
                == ValueV::Choice(k, values)),
    decreases nodes.len() - i,
{
    if i < nodes.len() {
        lemma_each_child_first_match(nodes, variants, i + 1);
        let all = decode_heterogeneous_spec(nodes, variants, i)->Ok_0;
        let later = decode_heterogeneous_spec(nodes, variants, i + 1)->Ok_0;
        assert forall|x: int| 0 <= x < nodes.len() - i implies (decode_union_spec(
            nodes[i + x],
            variants,
        ) matches Ok((k, values)) && #[trigger] all[x] == ValueV::Choice(k, values)) by {
            if x > 0 {
                assert(all[x] == later[x - 1]);
                assert(nodes[(i + 1) + (x - 1)] == nodes[i + x]);
            }
        }
    }
}

/// Fields that decode alike, one for one, decode alike together.
pub proof fn lemma_same_decoding(
    first: Seq<FieldV>,
    second: Seq<FieldV>,
    i: int,
    left: Seq<NodeV>,
)
    requires
        0 <= i,
        first.len() == second.len(),
        forall|k: int, l: Seq<NodeV>|
            0 <= k < first.len() ==> #[trigger] decode_field_spec(first[k], l) == decode_field_spec(
                second[k],
                l,
            ),
    ensures
        decode_fields_spec(first, i, left) == decode_fields_spec(second, i, left),
    decreases first.len() - i,
{
    if i < first.len() {
        assert(decode_field_spec(first[i], left) == decode_field_spec(second[i], left));
        match decode_field_spec(first[i], left) {
            Ok((value, rest)) => {
                lemma_same_decoding(first, second, i + 1, rest);
            },
            Err(e) => {},
        }
    }
}

} // verus!
