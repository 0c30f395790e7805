//! Checking a schema: whether what it encodes can be decoded again.

use vstd::prelude::*;
use crate::laws::{
    apart, distinct_texts, field_well_formed, fields_in_order, in_order, kind_well_formed,
    omittable, schema_well_formed, union_well_formed,
};
use crate::schema::{
    fields_view, lemma_field_items_view, lemma_schema_items_view, option_text_view, schemas_view,
    texts_view, Field, FieldV, ScalarKind, Schema,
};
use crate::text::same_bytes;

verus! {

/// Whether no text stands twice among the texts.
pub fn are_distinct(texts: &Vec<Vec<u8>>) -> (r: bool)
    ensures
        r == distinct_texts(texts_view(texts@)),
{
    let ghost ts = texts_view(texts@);
    let mut i: usize = 0;
    while i < texts.len()
        invariant
            i <= texts@.len(),
            ts == texts_view(texts@),
            forall|a: int, b: int| 0 <= a < i && a < b < ts.len() ==> #[trigger] ts[a] != #[trigger] ts[b],
        decreases texts@.len() - i,
    {
        let mut j: usize = i + 1;
        while j < texts.len()
            invariant
                i < j <= texts@.len(),
                ts == texts_view(texts@),
                forall|b: int| i < b < j ==> ts[i as int] != #[trigger] ts[b],
            decreases texts@.len() - j,
        {
            assert(ts[i as int] == texts@[i as int]@ && ts[j as int] == texts@[j as int]@);
            if same_bytes(texts[i].as_slice(), texts[j].as_slice()) {
                return false;
            }
            j += 1;
        }
        i += 1;
    }
    true
}

/// Whether an enumeration is well formed.
pub fn kind_is_well_formed(kind: &ScalarKind) -> (r: bool)
    ensures
        r == kind_well_formed(kind@),
{
    match kind {
        ScalarKind::Symbol { spellings, fallback } => *fallback < spellings.len() && are_distinct(
            spellings,
        ),
        _ => true,
    }
}

/// Whether two optional tags are the same.
fn same_tag(a: &Option<Vec<u8>>, b: &Option<Vec<u8>>) -> (r: bool)
    ensures
        r == (option_text_view(*a) == option_text_view(*b)),
{
    match (a, b) {
        (Some(x), Some(y)) => same_bytes(x.as_slice(), y.as_slice()),
        (None, None) => true,
        _ => false,
    }
}

/// Whether the tag differs from the tag of every list that `later` writes.
fn is_apart(tag: &Option<Vec<u8>>, later: &Field) -> (r: bool)
    ensures
        r == apart(option_text_view(*tag), later@),
{
    match later {
        Field::Keyed { schema, default, suppress } => !same_tag(&schema.tag, tag),
        Field::Repeated { schema } => !same_tag(&schema.tag, tag),
        Field::Sequence { variants } => {
            proof {
                lemma_schema_items_view(*variants);
            }
            let ghost vs = schemas_view(variants@);
            let mut k: usize = 0;
            while k < variants.len()
                invariant
                    k <= variants@.len(),
                    vs == schemas_view(variants@),
                    later@ == (FieldV::Sequence { variants: vs }),
                    forall|x: int|
                        0 <= x < k ==> (#[trigger] vs[x]).tag is Some && vs[x].tag
                            != option_text_view(*tag),
                decreases variants@.len() - k,
            {
                assert(vs[k as int] == variants@[k as int]@);
                if variants[k].tag.is_none() || same_tag(&variants[k].tag, tag) {
                    return false;
                }
                k += 1;
            }
            true
        },
        _ => true,
    }
}

/// Whether `first` can stand before `later` in a schema.
pub fn is_in_order(first: &Field, later: &Field) -> (r: bool)
    ensures
        r == in_order(first@, later@),
{
    match first {
        Field::Positional { kind, default, suppress } => {
            let may_lack: bool = *suppress && default.is_some();
            assert(may_lack == omittable(first@));
            !may_lack || !(matches!(later, Field::Positional { .. }) || matches!(
                later,
                Field::Flag { .. }
            ))
        },
        Field::Flag { keyword } => match later {
            Field::Positional { .. } => false,
            Field::Flag { keyword: other } => !same_bytes(keyword.as_slice(), other.as_slice()),
            _ => true,
        },
        Field::Keyed { schema, default, suppress } => is_apart(&schema.tag, later),
        Field::Repeated { schema } => is_apart(&schema.tag, later),
        Field::Sequence { variants } => false,
    }
}

/// Whether every field can stand before those that follow it.
pub fn are_in_order(fields: &Vec<Field>) -> (r: bool)
    ensures
        r == fields_in_order(fields_view(fields@)),
{
    let ghost fs = fields_view(fields@);
    let mut i: usize = 0;
    while i < fields.len()
        invariant
            i <= fields@.len(),
            fs == fields_view(fields@),
            forall|a: int, b: int|
                0 <= a < i && a < b < fs.len() ==> in_order(#[trigger] fs[a], #[trigger] fs[b]),
        decreases fields@.len() - i,
    {
        let mut j: usize = i + 1;
        while j < fields.len()
            invariant
                i < j <= fields@.len(),
                fs == fields_view(fields@),
                forall|b: int| i < b < j ==> in_order(fs[i as int], #[trigger] fs[b]),
            decreases fields@.len() - j,
        {
            assert(fs[i as int] == fields@[i as int]@ && fs[j as int] == fields@[j as int]@);
            if !is_in_order(&fields[i], &fields[j]) {
                return false;
            }
            j += 1;
        }
        i += 1;
    }
    true
}

/// Whether the candidates of a union can be told apart.
pub fn union_is_well_formed(variants: &Vec<Schema>) -> (r: bool)
    ensures
        r == union_well_formed(schemas_view(variants@)),
{
    if variants.len() <= 1 {
        return true;
    }
    let ghost vs = schemas_view(variants@);
    let mut i: usize = 0;
    while i < variants.len()
        invariant
            i <= variants@.len(),
            variants@.len() > 1,
            vs == schemas_view(variants@),
            forall|a: int| 0 <= a < i ==> (#[trigger] vs[a]).tag is Some,
            forall|a: int, b: int|
                0 <= a < i && a < b < vs.len() ==> (#[trigger] vs[a]).tag != (#[trigger] vs[b]).tag,
        decreases variants@.len() - i,
    {
        assert(vs[i as int] == variants@[i as int]@);
        if variants[i].tag.is_none() {
            return false;
        }
        let mut j: usize = i + 1;
        while j < variants.len()
            invariant
                i < j <= variants@.len(),
                variants@.len() > 1,
                vs == schemas_view(variants@),
                forall|b: int| i < b < j ==> vs[i as int].tag != (#[trigger] vs[b]).tag,
            decreases variants@.len() - j,
        {
            assert(vs[i as int] == variants@[i as int]@ && vs[j as int] == variants@[j as int]@);
            if same_tag(&variants[i].tag, &variants[j].tag) {
                return false;
            }
            j += 1;
        }
        i += 1;
    }
    true
}

/// Whether a field is well formed.
pub fn field_is_well_formed(field: &Field) -> (r: bool)
    ensures
        r == field_well_formed(field@),
    decreases field, 0int,
{
    match field {
        Field::Positional { kind, default, suppress } => kind_is_well_formed(kind),
        Field::Keyed { schema, default, suppress } => schema.tag.is_some() && is_well_formed(
            schema,
        ),
        Field::Flag { keyword } => true,
        Field::Repeated { schema } => schema.tag.is_some() && is_well_formed(schema),
        Field::Sequence { variants } => {
            proof {
                lemma_schema_items_view(*variants);
            }
            if !union_is_well_formed(variants) {
                return false;
            }
            let ghost vs = schemas_view(variants@);
            let mut k: usize = 0;
            while k < variants.len()
                invariant
                    k <= variants@.len(),
                    *field == (Field::Sequence { variants: *variants }),
                    field@ == (FieldV::Sequence { variants: vs }),
                    union_well_formed(vs),
                    vs == schemas_view(variants@),
                    forall|x: int| 0 <= x < k ==> schema_well_formed(#[trigger] vs[x]),
                decreases variants@.len() - k,
            {
                proof {
                    assert(decreases_to!(*field => field->variants));
                    vstd::std_specs::vec::axiom_vec_index_decreases(*variants, k as int);
                }
                assert(vs[k as int] == variants@[k as int]@);
                if !is_well_formed(&variants[k]) {
                    return false;
                }
                k += 1;
            }
            true
        },
    }
}

/// Whether a schema is well formed: whether every record of it that is
/// encoded decodes to itself again.
pub fn is_well_formed(schema: &Schema) -> (r: bool)
    ensures
        r == schema_well_formed(schema@),
    decreases schema, 0int,
{
    proof {
        lemma_field_items_view(schema.fields);
    }
    let ghost fs = schema@.fields;
    let mut i: usize = 0;
    while i < schema.fields.len()
        invariant
            i <= schema.fields@.len(),
            fs == fields_view(schema.fields@),
            fs == schema@.fields,
            forall|x: int| 0 <= x < i ==> field_well_formed(#[trigger] fs[x]),
        decreases schema.fields@.len() - i,
    {
        proof {
            assert(decreases_to!(*schema => schema.fields));
            vstd::std_specs::vec::axiom_vec_index_decreases(schema.fields, i as int);
        }
        assert(fs[i as int] == schema.fields@[i as int]@);
        if !field_is_well_formed(&schema.fields[i]) {
            return false;
        }
        i += 1;
    }
    are_in_order(&schema.fields)
}

} // verus!
