//! Schemas: how a record type binds to a list node.
//!
//! A schema is a table: the tag that names the record, and its fields in the
//! order in which they are written. Each field says how it is encoded, and,
//! where it may be left out, which value stands for it then.

use vstd::prelude::*;
use crate::value::{Value, ValueV, option_value_view};

verus! {

/// The grammar of a scalar: which atoms it accepts and what they mean.
#[derive(Debug, PartialEq, Eq)]
pub enum ScalarKind {
    /// An unsigned numeral.
    Integer,
    /// A physical quantity: a signed decimal literal.
    Quantity,
    /// A unique identifier: hyphenated hexadecimal.
    Identifier,
    /// A string: any atom. It is written between quotes.
    Text,
    /// A string: any atom. It is written bare where it can be: between
    /// quotes only where it is empty or holds white space, a parenthesis or
    /// a quote.
    Word,
    /// An enumeration: one bare symbol per variant. An atom that matches no
    /// spelling stands for the variant at `fallback`.
    Symbol { spellings: Vec<Vec<u8>>, fallback: usize },
}

/// How one field of a record is encoded.
#[derive(Debug, PartialEq, Eq)]
pub enum Field {
    /// A bare value at the next position. Where `default` is set the field
    /// may be absent and then has that value; with `suppress` it is left out
    /// of the output when it has that value.
    Positional { kind: ScalarKind, default: Option<Value>, suppress: bool },
    /// A sub-list of its own, named by the tag of `schema`, which also says
    /// how its contents are encoded. `default` and `suppress` as above.
    Keyed { schema: Schema, default: Option<Value>, suppress: bool },
    /// A boolean: true where the bare keyword is among the children.
    Flag { keyword: Vec<u8> },
    /// Zero or more sub-lists with the tag of `schema`; other children may
    /// stand between them.
    Repeated { schema: Schema },
    /// All the children that are left, each a value of the union of the
    /// `variants`.
    Sequence { variants: Vec<Schema> },
}

/// The binding of a record type: its tag, its fields in order, and whether
/// children that no field accounts for are ignored.
#[derive(Debug, PartialEq, Eq)]
pub struct Schema {
    /// The symbol that the list starts with; `None` for a list without a tag.
    pub tag: Option<Vec<u8>>,
    pub fields: Vec<Field>,
    pub lenient: bool,
}

/// The mathematical value of a [`ScalarKind`].
pub enum ScalarKindV {
    Integer,
    Quantity,
    Identifier,
    Text,
    Word,
    Symbol { spellings: Seq<Seq<u8>>, fallback: usize },
}

/// The mathematical value of a [`Field`].
pub enum FieldV {
    Positional { kind: ScalarKindV, default: Option<ValueV>, suppress: bool },
    Keyed { schema: SchemaV, default: Option<ValueV>, suppress: bool },
    Flag { keyword: Seq<u8> },
    Repeated { schema: SchemaV },
    Sequence { variants: Seq<SchemaV> },
}

/// The mathematical value of a [`Schema`].
pub struct SchemaV {
    pub tag: Option<Seq<u8>>,
    pub fields: Seq<FieldV>,
    pub lenient: bool,
}

/// The contents of a run of texts, in order.
pub open spec fn texts_view(texts: Seq<Vec<u8>>) -> Seq<Seq<u8>> {
    texts.map_values(|t: Vec<u8>| t@)
}

/// The contents of an optional text.
pub open spec fn option_text_view(o: Option<Vec<u8>>) -> Option<Seq<u8>> {
    match o {
        Some(t) => Some(t@),
        None => None,
    }
}

impl View for ScalarKind {
    type V = ScalarKindV;

    open spec fn view(&self) -> ScalarKindV {
        match self {
            ScalarKind::Integer => ScalarKindV::Integer,
            ScalarKind::Quantity => ScalarKindV::Quantity,
            ScalarKind::Identifier => ScalarKindV::Identifier,
            ScalarKind::Text => ScalarKindV::Text,
            ScalarKind::Word => ScalarKindV::Word,
            ScalarKind::Symbol { spellings, fallback } => ScalarKindV::Symbol {
                spellings: texts_view(spellings@),
                fallback: *fallback,
            },
        }
    }
}

/// The mathematical values of the fields of a vector of fields.
pub open spec fn field_items_view(fields: Vec<Field>) -> Seq<FieldV>
    decreases fields, 1int,
{
    Seq::new(
        fields.len() as nat,
        |i: int|
            if 0 <= i < fields.len() {
                field_view(fields[i])
            } else {
                arbitrary()
            },
    )
}

/// The mathematical values of the schemas of a vector of schemas.
pub open spec fn schema_items_view(schemas: Vec<Schema>) -> Seq<SchemaV>
    decreases schemas, 1int,
{
    Seq::new(
        schemas.len() as nat,
        |i: int|
            if 0 <= i < schemas.len() {
                schema_view(schemas[i])
            } else {
                arbitrary()
            },
    )
}

/// The mathematical value of a [`Schema`].
pub open spec fn schema_view(s: Schema) -> SchemaV
    decreases s, 0int,
{
    SchemaV { tag: option_text_view(s.tag), fields: field_items_view(s.fields), lenient: s.lenient }
}

/// The mathematical value of a [`Field`].
pub open spec fn field_view(f: Field) -> FieldV
    decreases f, 0int,
{
    match f {
        Field::Positional { kind, default, suppress } => FieldV::Positional {
            kind: kind@,
            default: option_value_view(default),
            suppress,
        },
        Field::Keyed { schema, default, suppress } => FieldV::Keyed {
            schema: schema_view(schema),
            default: option_value_view(default),
            suppress,
        },
        Field::Flag { keyword } => FieldV::Flag { keyword: keyword@ },
        Field::Repeated { schema } => FieldV::Repeated { schema: schema_view(schema) },
        Field::Sequence { variants } => FieldV::Sequence { variants: schema_items_view(variants) },
    }
}

impl View for Schema {
    type V = SchemaV;

    open spec fn view(&self) -> SchemaV {
        schema_view(*self)
    }
}

impl View for Field {
    type V = FieldV;

    open spec fn view(&self) -> FieldV {
        field_view(*self)
    }
}

/// The values of a run of fields, in order.
pub open spec fn fields_view(fields: Seq<Field>) -> Seq<FieldV> {
    fields.map_values(|f: Field| f@)
}

/// The values of a run of schemas, in order.
pub open spec fn schemas_view(schemas: Seq<Schema>) -> Seq<SchemaV> {
    schemas.map_values(|s: Schema| s@)
}

/// The fields of a vector have the values of its view, one for one.
pub proof fn lemma_field_items_view(fields: Vec<Field>)
    ensures
        field_items_view(fields) == fields_view(fields@),
{
    assert(field_items_view(fields) =~= fields_view(fields@));
}

/// The schemas of a vector have the values of its view, one for one.
pub proof fn lemma_schema_items_view(schemas: Vec<Schema>)
    ensures
        schema_items_view(schemas) == schemas_view(schemas@),
{
    assert(schema_items_view(schemas) =~= schemas_view(schemas@));
}

} // verus!
