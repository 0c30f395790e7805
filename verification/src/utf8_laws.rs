//! What holds of the encoding of text: a record whose strings are valid
//! UTF-8, encoded under a schema whose names are, is rendered as valid
//! UTF-8.

use vstd::prelude::*;
use vstd::utf8::{
    is_leading_byte_width_1, length_of_first_scalar, partial_valid_utf8,
    partial_valid_utf8_extend_ascii_block, pop_first_scalar, valid_first_scalar, valid_utf8,
    valid_utf8_concat,
};
use crate::decimal::{decimal_text, is_digit, lemma_decimal_text};
use crate::identifier::hyphenated;
use crate::laws::{lemma_heterogeneous_nodes, lemma_homogeneous_nodes};
use crate::quantity::{
    lemma_six_digits, lemma_strip_zeros, quantity_text, six_digits, strip_zeros, MINUS, POINT,
};
use crate::record::{
    choice_conforms, encode_field_spec, encode_fields_spec, encode_record_spec, field_conforms,
    record_conforms, tag_nodes,
};
use crate::scalar::{encode_scalar_spec, scalar_fits};
use crate::schema::{FieldV, ScalarKindV, SchemaV};
use crate::text::{CLOSE, OPEN, QUOTE, SPACE};
use crate::tree::NodeV;
use crate::value::ValueV;
use crate::writer::{escape_byte, escape_from, render, render_items};

verus! {

/// Every byte is an ASCII character.
pub open spec fn is_ascii_bytes(bytes: Seq<u8>) -> bool {
    forall|i: int| 0 <= i < bytes.len() ==> #[trigger] bytes[i] <= 0x7f
}

/// The spellings of an enumeration are valid UTF-8.
pub open spec fn kind_utf8(kind: ScalarKindV) -> bool {
    match kind {
        ScalarKindV::Symbol { spellings, fallback } => forall|i: int|
            0 <= i < spellings.len() ==> valid_utf8(#[trigger] spellings[i]),
        _ => true,
    }
}

/// Every tag, keyword and spelling of the schema is valid UTF-8.
pub open spec fn schema_utf8(schema: SchemaV) -> bool
    decreases schema, 0int,
{
    &&& schema.tag matches Some(t) ==> valid_utf8(t)
    &&& forall|i: int| 0 <= i < schema.fields.len() ==> field_utf8(#[trigger] schema.fields[i])
}

/// Every tag, keyword and spelling of the field is valid UTF-8.
pub open spec fn field_utf8(field: FieldV) -> bool
    decreases field, 0int,
{
    match field {
        FieldV::Positional { kind, default, suppress } => kind_utf8(kind),
        FieldV::Keyed { schema, default, suppress } => schema_utf8(schema),
        FieldV::Flag { keyword } => valid_utf8(keyword),
        FieldV::Repeated { schema } => schema_utf8(schema),
        FieldV::Sequence { variants } => forall|k: int|
            0 <= k < variants.len() ==> schema_utf8(#[trigger] variants[k]),
    }
}

/// Every string that occurs in the value is valid UTF-8.
pub open spec fn value_utf8(v: ValueV) -> bool
    decreases v, 0int,
{
    match v {
        ValueV::Text(t) => valid_utf8(t),
        ValueV::Record(items) => values_utf8(items),
        ValueV::Choice(k, items) => values_utf8(items),
        ValueV::Sequence(items) => values_utf8(items),
        _ => true,
    }
}

/// Every string that occurs in the values is valid UTF-8.
pub open spec fn values_utf8(values: Seq<ValueV>) -> bool
    decreases values, 1int,
{
    forall|i: int| 0 <= i < values.len() ==> value_utf8(#[trigger] values[i])
}

/// The text of every atom of the tree is valid UTF-8.
pub open spec fn node_utf8(n: NodeV) -> bool
    decreases n,
{
    match n {
        NodeV::Atom { text, quoted } => valid_utf8(text),
        NodeV::List { items } => forall|i: int|
            0 <= i < items.len() ==> node_utf8(#[trigger] items[i]),
    }
}

/// The text of every atom of the trees is valid UTF-8.
pub open spec fn nodes_utf8(nodes: Seq<NodeV>) -> bool {
    forall|i: int| 0 <= i < nodes.len() ==> node_utf8(#[trigger] nodes[i])
}

/// ASCII is valid UTF-8.
pub proof fn lemma_ascii_valid(bytes: Seq<u8>)
    requires
        is_ascii_bytes(bytes),
    ensures
        valid_utf8(bytes),
{
    assert(bytes.subrange(0, 0) =~= Seq::<u8>::empty());
    assert(partial_valid_utf8(bytes, 0));
    assert forall|i: int|
        0 <= 0 <= i < bytes.len() <= bytes.len() implies #[trigger] is_leading_byte_width_1(
        bytes[i],
    ) by {
        assert(bytes[i] <= 0x7f);
    }
    partial_valid_utf8_extend_ascii_block(bytes, 0, bytes.len() as int);
    assert(bytes.subrange(0, bytes.len() as int) =~= bytes);
}

/// Escaping from a place on is escaping what stands from there on.
proof fn lemma_escape_shift(text: Seq<u8>, k: int, i: int)
    requires
        0 <= k <= text.len(),
        0 <= i,
    ensures
        escape_from(text, k + i) == escape_from(text.subrange(k, text.len() as int), i),
    decreases text.len() - k - i,
{
    let rest = text.subrange(k, text.len() as int);
    if k + i < text.len() {
        assert(rest[i] == text[k + i]);
        lemma_escape_shift(text, k, i + 1);
    }
}

/// What is valid UTF-8 is still so after its quotes are escaped.
pub proof fn lemma_escape_valid(text: Seq<u8>)
    requires
        valid_utf8(text),
    ensures
        valid_utf8(escape_from(text, 0)),
    decreases text.len(),
{
    let escaped = escape_from(text, 0);
    if text.len() > 0 {
        let k = length_of_first_scalar(text);
        let rest = pop_first_scalar(text);
        assert(valid_first_scalar(text));
        assert(1 <= k <= 4 && k <= text.len());
        lemma_escape_valid(rest);
        lemma_escape_shift(text, k, 0);
        let tail = escape_from(rest, 0);
        if text[0] <= 0x7f {
            assert(escaped == escape_byte(text[0]) + tail);
            assert(is_ascii_bytes(escape_byte(text[0])));
            lemma_ascii_valid(escape_byte(text[0]));
            valid_utf8_concat(escape_byte(text[0]), tail);
        } else {
            reveal_with_fuel(escape_from, 5);
            let first = text.subrange(0, k);
            assert forall|j: int| 0 <= j < k implies #[trigger] text[j] != QUOTE by {}
            assert(escaped =~= first + tail);
            assert(escaped[0] == text[0]);
            assert(k >= 2 ==> escaped[1] == text[1]);
            assert(k >= 3 ==> escaped[2] == text[2]);
            assert(k >= 4 ==> escaped[3] == text[3]);
            assert(valid_first_scalar(escaped));
            assert(pop_first_scalar(escaped) =~= tail);
        }
    }
}

/// A tree whose atoms are valid UTF-8 is rendered as valid UTF-8.
pub proof fn lemma_render_valid(n: NodeV)
    requires
        node_utf8(n),
    ensures
        valid_utf8(render(n)),
    decreases n, 0int,
{
    assert(is_ascii_bytes(seq![QUOTE]));
    assert(is_ascii_bytes(seq![OPEN]));
    assert(is_ascii_bytes(seq![CLOSE]));
    lemma_ascii_valid(seq![QUOTE]);
    lemma_ascii_valid(seq![OPEN]);
    lemma_ascii_valid(seq![CLOSE]);
    match n {
        NodeV::Atom { text, quoted } => {
            lemma_escape_valid(text);
            valid_utf8_concat(seq![QUOTE], escape_from(text, 0));
            valid_utf8_concat(seq![QUOTE] + escape_from(text, 0), seq![QUOTE]);
        },
        NodeV::List { items } => {
            lemma_render_items_valid(items, 0);
            valid_utf8_concat(seq![OPEN], render_items(items, 0));
            valid_utf8_concat(seq![OPEN] + render_items(items, 0), seq![CLOSE]);
        },
    }
}

/// The children of a list whose atoms are valid UTF-8 are rendered as valid
/// UTF-8.
proof fn lemma_render_items_valid(items: Seq<NodeV>, i: int)
    requires
        nodes_utf8(items),
        0 <= i,
    ensures
        valid_utf8(render_items(items, i)),
    decreases items, items.len() - i,
{
    if i < items.len() {
        assert(node_utf8(items[i]));
        lemma_render_valid(items[i]);
        lemma_render_items_valid(items, i + 1);
        assert(is_ascii_bytes(seq![SPACE]));
        lemma_ascii_valid(seq![SPACE]);
        valid_utf8_concat(render(items[i]), render_items(items, i + 1));
        valid_utf8_concat(seq![SPACE], render(items[i]));
        valid_utf8_concat(seq![SPACE] + render(items[i]), render_items(items, i + 1));
    }
}

/// A numeral is ASCII.
proof fn lemma_decimal_ascii(n: nat)
    ensures
        is_ascii_bytes(decimal_text(n)),
{
    lemma_decimal_text(n);
    let t = decimal_text(n);
    assert forall|i: int| 0 <= i < t.len() implies #[trigger] t[i] <= 0x7f by {
        assert(is_digit(t[i]));
    }
}

/// The literal of a quantity is valid UTF-8.
proof fn lemma_quantity_text_valid(v: int)
    ensures
        valid_utf8(quantity_text(v)),
{
    let mag = (if v < 0 {
        -v
    } else {
        v
    }) as nat;
    let sign = if v < 0 {
        seq![MINUS]
    } else {
        Seq::<u8>::empty()
    };
    let whole = decimal_text(mag / 1000000);
    let f = mag % 1000000;
    let fraction = if f == 0 {
        Seq::<u8>::empty()
    } else {
        seq![POINT] + strip_zeros(six_digits(f))
    };
    lemma_decimal_ascii(mag / 1000000);
    lemma_six_digits(f);
    lemma_strip_zeros(six_digits(f));
    let stripped = strip_zeros(six_digits(f));
    assert forall|i: int| 0 <= i < fraction.len() implies #[trigger] fraction[i] <= 0x7f by {
        if i > 0 {
            assert(fraction[i] == stripped[i - 1]);
            assert(is_digit(stripped[i - 1]));
        }
    }
    assert(is_ascii_bytes(sign));
    let text = quantity_text(v);
    assert(text == sign + whole + fraction);
    assert forall|i: int| 0 <= i < text.len() implies #[trigger] text[i] <= 0x7f by {
        if i < sign.len() {
            assert(text[i] == sign[i]);
        } else if i < sign.len() + whole.len() {
            assert(text[i] == whole[i - sign.len()]);
        } else {
            assert(text[i] == fraction[i - sign.len() - whole.len()]);
        }
    }
    lemma_ascii_valid(text);
}

/// The hyphenated form of an identifier is valid UTF-8.
proof fn lemma_hyphenated_valid(bits: u128)
    ensures
        valid_utf8(hyphenated(bits)),
{
    let t = hyphenated(bits);
    assert forall|i: int| 0 <= i < t.len() implies #[trigger] t[i] <= 0x7f by {}
    lemma_ascii_valid(t);
}

/// The atom that writes a scalar holds valid UTF-8.
proof fn lemma_scalar_utf8(kind: ScalarKindV, value: ValueV)
    requires
        kind_utf8(kind),
        value_utf8(value),
        scalar_fits(kind, value),
    ensures
        node_utf8(encode_scalar_spec(kind, value)),
{
    match (kind, value) {
        (ScalarKindV::Integer, ValueV::Integer(n)) => {
            lemma_decimal_ascii(n as nat);
            lemma_ascii_valid(decimal_text(n as nat));
        },
        (ScalarKindV::Quantity, ValueV::Quantity(q)) => {
            lemma_quantity_text_valid(q.nanos as int);
        },
        (ScalarKindV::Identifier, ValueV::Identifier(id)) => {
            lemma_hyphenated_valid(id.bits);
        },
        _ => {},
    }
}

/// The nodes that encode one field hold valid UTF-8.
proof fn lemma_field_utf8(field: FieldV, value: ValueV)
    requires
        field_utf8(field),
        value_utf8(value),
        field_conforms(field, value),
    ensures
        nodes_utf8(encode_field_spec(field, value)),
    decreases field, 1int,
{
    let nodes = encode_field_spec(field, value);
    assert forall|x: int| 0 <= x < nodes.len() implies node_utf8(#[trigger] nodes[x]) by {
        match field {
            FieldV::Positional { kind, default, suppress } => {
                lemma_scalar_utf8(kind, value);
            },
            FieldV::Keyed { schema, default, suppress } => {
                lemma_encoded_utf8(value->Record_0, schema);
            },
            FieldV::Flag { keyword } => {},
            FieldV::Repeated { schema } => {
                let records = value->Sequence_0;
                lemma_homogeneous_nodes(records, schema, 0);
                assert(value_utf8(records[x]));
                lemma_encoded_utf8(records[x]->Record_0, schema);
            },
            FieldV::Sequence { variants } => {
                let choices = value->Sequence_0;
                lemma_heterogeneous_nodes(choices, variants, 0);
                assert(choice_conforms(choices[x], variants));
                assert(value_utf8(choices[x]));
                let k = choices[x]->Choice_0 as int;
                lemma_encoded_utf8(choices[x]->Choice_1, variants[k]);
            },
        }
    }
}

/// The nodes that encode the fields from the `j`-th on hold valid UTF-8.
proof fn lemma_fields_utf8(fields: Seq<FieldV>, values: Seq<ValueV>, j: int)
    requires
        0 <= j,
        values.len() == fields.len(),
        forall|m: int| 0 <= m < fields.len() ==> field_utf8(#[trigger] fields[m]),
        forall|m: int| 0 <= m < fields.len() ==> field_conforms(#[trigger] fields[m], values[m]),
        values_utf8(values),
    ensures
        nodes_utf8(encode_fields_spec(fields, values, j)),
    decreases fields, fields.len() - j,
{
    if j < fields.len() {
        assert(value_utf8(values[j]));
        lemma_field_utf8(fields[j], values[j]);
        lemma_fields_utf8(fields, values, j + 1);
        let head = encode_field_spec(fields[j], values[j]);
        let rest = encode_fields_spec(fields, values, j + 1);
        let all = encode_fields_spec(fields, values, j);
        assert forall|x: int| 0 <= x < all.len() implies node_utf8(#[trigger] all[x]) by {
            if x < head.len() {
                assert(all[x] == head[x]);
            } else {
                assert(all[x] == rest[x - head.len()]);
            }
        }
    }
}

/// **Encoding keeps to UTF-8.** The node that encodes a record whose strings
/// are valid UTF-8, under a schema whose names are, holds valid UTF-8 in
/// every atom.
pub proof fn lemma_encoded_utf8(values: Seq<ValueV>, schema: SchemaV)
    requires
        schema_utf8(schema),
        values_utf8(values),
        record_conforms(values, schema),
    ensures
        node_utf8(encode_record_spec(values, schema)),
    decreases schema, 0int,
{
    lemma_fields_utf8(schema.fields, values, 0);
    let head = tag_nodes(schema.tag);
    let rest = encode_fields_spec(schema.fields, values, 0);
    let items = head + rest;
    assert forall|x: int| 0 <= x < items.len() implies node_utf8(#[trigger] items[x]) by {
        if x < head.len() {
            assert(items[x] == head[x]);
        } else {
            assert(items[x] == rest[x - head.len()]);
        }
    }
}

/// **Text is UTF-8.** A record whose strings are valid UTF-8, under a
/// schema whose names are, is rendered as valid UTF-8.
pub proof fn lemma_rendered_utf8(values: Seq<ValueV>, schema: SchemaV)
    requires
        schema_utf8(schema),
        values_utf8(values),
        record_conforms(values, schema),
    ensures
        valid_utf8(render(encode_record_spec(values, schema))),
{
    lemma_encoded_utf8(values, schema);
    lemma_render_valid(encode_record_spec(values, schema));
}

} // verus!
