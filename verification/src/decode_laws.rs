//! What holds of what decoding gives: the values that a node decodes to are
//! a record of the schema, so that they can be encoded again, and then
//! decode to themselves.

use vstd::prelude::*;
use crate::encoder::{all_choices, all_records};
use crate::laws::{
    lemma_found_is_first, lemma_record_round_trip, schema_well_formed, written_read_back,
};
use crate::record::{
    choice_conforms, decode_field_spec, decode_fields_spec, decode_heterogeneous_spec,
    decode_homogeneous_spec, decode_record_spec, encode_record_spec, field_conforms,
    record_conforms, try_variants_spec,
};
use crate::scalar::{decode_scalar_spec, first_spelling, scalar_fits};
use crate::schema::{FieldV, ScalarKindV, SchemaV};
use crate::tree::NodeV;

verus! {

/// A schema whose decoded values can be encoded again: the fallback of each
/// enumeration is one of its variants, and each default is a value that its
/// field can hold.
pub open spec fn schema_sound(schema: SchemaV) -> bool
    decreases schema, 0int,
{
    forall|i: int| 0 <= i < schema.fields.len() ==> field_sound(#[trigger] schema.fields[i])
}

/// A field whose decoded values can be encoded again.
pub open spec fn field_sound(field: FieldV) -> bool
    decreases field, 0int,
{
    match field {
        FieldV::Positional { kind, default, suppress } => {
            &&& kind matches ScalarKindV::Symbol { spellings, fallback } ==> fallback
                < spellings.len() <= usize::MAX
            &&& default matches Some(d) ==> field_conforms(field, d)
        },
        FieldV::Keyed { schema, default, suppress } => {
            &&& schema_sound(schema)
            &&& default matches Some(d) ==> suppress || (d is Record && record_conforms(
                d->Record_0,
                schema,
            ))
        },
        FieldV::Flag { keyword } => true,
        FieldV::Repeated { schema } => schema_sound(schema),
        FieldV::Sequence { variants } => variants.len() <= usize::MAX && forall|k: int|
            0 <= k < variants.len() ==> schema_sound(#[trigger] variants[k]),
    }
}

/// A spelling that is found is found among the spellings.
pub proof fn lemma_first_spelling_bound(spellings: Seq<Seq<u8>>, text: Seq<u8>, i: int)
    requires
        0 <= i,
    ensures
        first_spelling(spellings, text, i) matches Some(k) ==> i <= k < spellings.len(),
    decreases spellings.len() - i,
{
    if i < spellings.len() && spellings[i] != text {
        lemma_first_spelling_bound(spellings, text, i + 1);
    }
}

/// What an atom decodes to is a scalar of the kind it was decoded as.
pub proof fn lemma_decoded_scalar_fits(kind: ScalarKindV, text: Seq<u8>, quoted: bool)
    requires
        kind matches ScalarKindV::Symbol { spellings, fallback } ==> fallback < spellings.len()
            <= usize::MAX,
        decode_scalar_spec(kind, text, quoted) is Ok,
    ensures
        scalar_fits(kind, decode_scalar_spec(kind, text, quoted)->Ok_0),
{
    match kind {
        ScalarKindV::Symbol { spellings, fallback } => {
            lemma_first_spelling_bound(spellings, text, 0);
        },
        _ => {},
    }
}

/// What the lists with the tag of a schema decode to are records of it.
proof fn lemma_homogeneous_conforms(nodes: Seq<NodeV>, schema: SchemaV, i: int)
    requires
        0 <= i,
        schema_sound(schema),
        decode_homogeneous_spec(nodes, schema, i) is Ok,
    ensures
        all_records(decode_homogeneous_spec(nodes, schema, i)->Ok_0.0, schema),
    decreases schema, nodes.len() - i + 1,
{
    if i < nodes.len() {
        lemma_homogeneous_conforms(nodes, schema, i + 1);
        let later = decode_homogeneous_spec(nodes, schema, i + 1)->Ok_0.0;
        let all = decode_homogeneous_spec(nodes, schema, i)->Ok_0.0;
        if schema.tag is Some && crate::record::tag_of(nodes[i]) == schema.tag {
            lemma_decoded_conforms(nodes[i], schema);
            assert forall|x: int| 0 <= x < all.len() implies (#[trigger] all[x]) is Record
                && record_conforms(all[x]->Record_0, schema) by {
                if x > 0 {
                    assert(all[x] == later[x - 1]);
                }
            }
        }
    }
}

/// What the children of a list decode to, each as a value of a union, are
/// values of that union.
proof fn lemma_heterogeneous_conforms(nodes: Seq<NodeV>, variants: Seq<SchemaV>, i: int)
    requires
        0 <= i,
        variants.len() <= usize::MAX,
        forall|k: int| 0 <= k < variants.len() ==> schema_sound(#[trigger] variants[k]),
        decode_heterogeneous_spec(nodes, variants, i) is Ok,
    ensures
        all_choices(decode_heterogeneous_spec(nodes, variants, i)->Ok_0, variants),
    decreases variants, nodes.len() - i + 1,
{
    if i < nodes.len() {
        lemma_heterogeneous_conforms(nodes, variants, i + 1);
        let later = decode_heterogeneous_spec(nodes, variants, i + 1)->Ok_0;
        let all = decode_heterogeneous_spec(nodes, variants, i)->Ok_0;
        lemma_found_is_first(nodes[i], variants, 0);
        let (k, values) = try_variants_spec(nodes[i], variants, 0)->Ok_0;
        lemma_decoded_conforms(nodes[i], variants[k as int]);
        assert forall|x: int| 0 <= x < all.len() implies choice_conforms(
            #[trigger] all[x],
            variants,
        ) by {
            if x > 0 {
                assert(all[x] == later[x - 1]);
            }
        }
    }
}

/// What a field decodes to is a value that the field can hold.
proof fn lemma_decoded_field_conforms(field: FieldV, left: Seq<NodeV>)
    requires
        field_sound(field),
        decode_field_spec(field, left) is Ok,
    ensures
        field_conforms(field, decode_field_spec(field, left)->Ok_0.0),
    decreases field, 1int,
{
    match field {
        FieldV::Positional { kind, default, suppress } => {
            if left.len() > 0 && left[0] is Atom {
                lemma_decoded_scalar_fits(kind, left[0]->text, left[0]->quoted);
            }
        },
        FieldV::Keyed { schema, default, suppress } => {
            let found = match schema.tag {
                Some(t) => crate::record::find_tagged(left, t, 0),
                None => None,
            };
            if found is Some {
                lemma_decoded_conforms(left[found->0], schema);
            }
        },
        FieldV::Flag { keyword } => {},
        FieldV::Repeated { schema } => {
            lemma_homogeneous_conforms(left, schema, 0);
        },
        FieldV::Sequence { variants } => {
            lemma_heterogeneous_conforms(left, variants, 0);
        },
    }
}

/// What the fields from the `i`-th on decode to are values that they can
/// hold, one for each.
proof fn lemma_decoded_fields_conform(fields: Seq<FieldV>, i: int, left: Seq<NodeV>)
    requires
        0 <= i <= fields.len(),
        forall|k: int| 0 <= k < fields.len() ==> field_sound(#[trigger] fields[k]),
        decode_fields_spec(fields, i, left) is Ok,
    ensures
        decode_fields_spec(fields, i, left)->Ok_0.0.len() == fields.len() - i,
        forall|k: int|
            0 <= k < fields.len() - i ==> field_conforms(
                fields[i + k],
                #[trigger] decode_fields_spec(fields, i, left)->Ok_0.0[k],
            ),
    decreases fields, fields.len() - i,
{
    if i < fields.len() {
        lemma_decoded_field_conforms(fields[i], left);
        let (value, rest) = decode_field_spec(fields[i], left)->Ok_0;
        lemma_decoded_fields_conform(fields, i + 1, rest);
        let later = decode_fields_spec(fields, i + 1, rest)->Ok_0.0;
        let all = decode_fields_spec(fields, i, left)->Ok_0.0;
        assert forall|k: int| 0 <= k < fields.len() - i implies field_conforms(
            fields[i + k],
            #[trigger] all[k],
        ) by {
            if k > 0 {
                assert(all[k] == later[k - 1]);
                assert(field_conforms(fields[(i + 1) + (k - 1)], later[k - 1]));
            }
        }
    }
}

/// **Decoding gives records.** The values that a node decodes to against a
/// sound schema are a record of that schema.
pub proof fn lemma_decoded_conforms(node: NodeV, schema: SchemaV)
    requires
        schema_sound(schema),
        decode_record_spec(node, schema) is Ok,
    ensures
        record_conforms(decode_record_spec(node, schema)->Ok_0, schema),
    decreases schema, 0int,
{
    let children = crate::record::body_of(node, schema)->0;
    lemma_decoded_fields_conform(schema.fields, 0, children);
    let values = decode_record_spec(node, schema)->Ok_0;
    assert forall|i: int| 0 <= i < schema.fields.len() implies field_conforms(
        #[trigger] schema.fields[i],
        values[i],
    ) by {
        assert(field_conforms(schema.fields[0 + i], values[i]));
    }
}

/// **Idempotence.** What a node decodes to, encoded again, decodes to the
/// same values: reading a document, writing it and reading it again changes
/// nothing, where the identifiers that were read are read back after they
/// are written.
pub proof fn lemma_decode_encode_decode(node: NodeV, schema: SchemaV)
    requires
        schema_well_formed(schema),
        schema_sound(schema),
        written_read_back(decode_record_spec(node, schema)->Ok_0, schema),
        decode_record_spec(node, schema) is Ok,
    ensures
        decode_record_spec(
            encode_record_spec(decode_record_spec(node, schema)->Ok_0, schema),
            schema,
        ) == decode_record_spec(node, schema),
{
    lemma_decoded_conforms(node, schema);
    lemma_record_round_trip(decode_record_spec(node, schema)->Ok_0, schema);
}

} // verus!
