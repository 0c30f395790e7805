//! How a record type of the domain binds to the codec: its schema, and the
//! generic values that stand for it.

use vstd::prelude::*;
use vstd::utf8::{encode_utf8, encode_utf8_valid_utf8, valid_utf8};
use crate::utf8_laws::{
    field_utf8, kind_utf8, lemma_rendered_utf8, schema_utf8, value_utf8, values_utf8,
};
use crate::document::{read, read_spec};
use crate::encoder::encode_record;
use crate::error::{CodecError, ErrorV};
use crate::laws::{
    field_well_formed, kind_well_formed, lemma_record_round_trip, written_read_back,
    schema_well_formed,
};
use crate::text_laws::lemma_text_round_trip;
use crate::mapper::decode_record;
use crate::record::{decode_record_spec, encode_record_spec, record_conforms};
use crate::schema::{
    fields_view, lemma_field_items_view, Field, FieldV, ScalarKind, ScalarKindV, Schema, SchemaV,
};
use crate::text::{bytes_of, copy_bytes, lemma_string_of_bytes, string_from_utf8, string_of};
use crate::tree::{Node, NodeV};
use crate::value::{values_view, Value, ValueV};
use crate::writer::{render, render_node, writable};

verus! {

/// A record type of the domain.
pub trait Record: Sized {
    /// The binding of the type: its tag and its fields, in order.
    spec fn schema_spec() -> SchemaV;

    /// The generic values of this record, one for each field of the schema.
    spec fn record_spec(&self) -> Seq<ValueV>;

    /// Whether the values are those of a record of this type.
    spec fn admits(values: Seq<ValueV>) -> bool;

    /// The schema of the type is well formed: what it encodes, it decodes.
    proof fn lemma_schema()
        ensures
            schema_well_formed(Self::schema_spec()),
    ;

    /// The values of a record of the type are a record of its schema, and
    /// are admitted.
    proof fn lemma_record(&self)
        ensures
            record_conforms(self.record_spec(), Self::schema_spec()),
            Self::admits(self.record_spec()),
    ;

    /// Every tag, keyword and spelling of the schema is valid UTF-8.
    proof fn lemma_names()
        ensures
            schema_utf8(Self::schema_spec()),
    ;

    /// Every string of a record of the type is valid UTF-8.
    proof fn lemma_strings(&self)
        ensures
            values_utf8(self.record_spec()),
    ;

    /// The binding of the type.
    fn schema() -> (s: Schema)
        ensures
            s@ == Self::schema_spec(),
    ;

    /// The generic values of this record.
    fn to_record(&self) -> (values: Vec<Value>)
        ensures
            values_view(values@) == self.record_spec(),
            record_conforms(self.record_spec(), Self::schema_spec()),
            Self::admits(self.record_spec()),
    ;

    /// The record that the values stand for, where they stand for one.
    fn from_record(values: &Vec<Value>) -> (r: Option<Self>)
        ensures
            r is Some <==> Self::admits(values_view(values@)),
            r matches Some(x) ==> x.record_spec() == values_view(values@),
    ;
}

/// What decoding a node as a record of the type `T` gives: the values of the
/// record. Values that fit the schema but no record of the type, such as a
/// number too large for its field, are a scalar that does not decode.
pub open spec fn decode_spec<T: Record>(node: NodeV) -> Result<Seq<ValueV>, ErrorV> {
    match decode_record_spec(node, T::schema_spec()) {
        Ok(values) => if T::admits(values) {
            Ok(values)
        } else {
            Err(ErrorV::ScalarDecodeError)
        },
        Err(e) => Err(e),
    }
}

/// What parsing a text as a record of the type `T` gives.
pub open spec fn from_text_spec<T: Record>(text: Seq<u8>) -> Result<Seq<ValueV>, ErrorV> {
    match read_spec(text) {
        Ok(node) => decode_spec::<T>(node),
        Err(e) => Err(e),
    }
}

/// The text of a record of the type `T`.
pub open spec fn to_text_spec<T: Record>(x: T) -> Seq<u8> {
    render(encode_record_spec(x.record_spec(), T::schema_spec()))
}

/// Decodes a node as a record of the type `T`.
pub fn decode<T: Record>(node: &Node) -> (r: Result<T, CodecError>)
    ensures
        match r {
            Ok(x) => decode_spec::<T>(node@) == Ok::<Seq<ValueV>, ErrorV>(x.record_spec()),
            Err(e) => decode_spec::<T>(node@) == Err::<Seq<ValueV>, ErrorV>(e@),
        },
{
    let schema = T::schema();
    match decode_record(node, &schema) {
        Err(e) => Err(e),
        Ok(values) => match T::from_record(&values) {
            Some(x) => Ok(x),
            None => Err(CodecError::ScalarDecodeError),
        },
    }
}

/// Encodes a record of the type `T` as a node.
pub fn encode<T: Record>(x: &T) -> (node: Node)
    ensures
        node@ == encode_record_spec(x.record_spec(), T::schema_spec()),
{
    let schema = T::schema();
    let values = x.to_record();
    encode_record(&values, &schema)
}

/// Parses a text as a record of the type `T`.
pub fn from_text<T: Record>(text: &[u8]) -> (r: Result<T, CodecError>)
    ensures
        match r {
            Ok(x) => from_text_spec::<T>(text@) == Ok::<Seq<ValueV>, ErrorV>(x.record_spec()),
            Err(e) => from_text_spec::<T>(text@) == Err::<Seq<ValueV>, ErrorV>(e@),
        },
{
    match read(text) {
        Err(e) => Err(e),
        Ok(node) => decode::<T>(&node),
    }
}

/// Renders a record of the type `T` as text. The text is valid UTF-8.
pub fn to_text<T: Record>(x: &T) -> (text: Vec<u8>)
    ensures
        text@ == to_text_spec::<T>(*x),
        valid_utf8(text@),
{
    proof {
        lemma_text_is_utf8::<T>(*x);
    }
    let node = encode::<T>(x);
    render_node(&node)
}

/// **Text is UTF-8.** The text of a record of the type `T` is valid UTF-8.
pub proof fn lemma_text_is_utf8<T: Record>(x: T)
    ensures
        valid_utf8(to_text_spec::<T>(x)),
{
    T::lemma_names();
    x.lemma_strings();
    x.lemma_record();
    lemma_rendered_utf8(x.record_spec(), T::schema_spec());
}

/// Renders a record of the type `T` as a string: the string whose bytes are
/// the text of the record.
pub fn to_string_of<T: Record>(x: &T) -> (s: String)
    ensures
        encode_utf8(s@) == to_text_spec::<T>(*x),
{
    let text = to_text::<T>(x);
    proof {
        lemma_string_of_bytes(text@);
    }
    string_of(text)
}

/// A required positional field.
pub open spec fn required(kind: ScalarKindV) -> FieldV {
    FieldV::Positional { kind, default: None, suppress: false }
}

/// A required positional field.
pub fn positional(kind: ScalarKind) -> (f: Field)
    ensures
        f@ == required(kind@),
{
    Field::Positional { kind, default: None, suppress: false }
}

/// A positional field that may be absent, and is left out where it has no
/// value.
pub open spec fn optional(kind: ScalarKindV) -> FieldV {
    FieldV::Positional { kind, default: Some(ValueV::Absent), suppress: true }
}

/// A positional field that may be absent, and is left out where it has no
/// value.
pub fn positional_optional(kind: ScalarKind) -> (f: Field)
    ensures
        f@ == optional(kind@),
{
    Field::Positional { kind, default: Some(Value::Absent), suppress: true }
}

/// A strict schema with a tag.
pub open spec fn tagged_spec(tag: Seq<u8>, fields: Seq<FieldV>) -> SchemaV {
    SchemaV { tag: Some(tag), fields, lenient: false }
}

/// A strict schema with the tag `tag`.
pub fn tagged(tag: &str, fields: Vec<Field>) -> (s: Schema)
    ensures
        s@ == tagged_spec(encode_utf8(tag@), fields_view(fields@)),
{
    proof {
        lemma_field_items_view(fields);
    }
    Schema { tag: Some(bytes_of(tag)), fields, lenient: false }
}

/// A strict schema without a tag.
pub open spec fn tagless_spec(fields: Seq<FieldV>) -> SchemaV {
    SchemaV { tag: None, fields, lenient: false }
}

/// A strict schema without a tag.
pub fn tagless(fields: Vec<Field>) -> (s: Schema)
    ensures
        s@ == tagless_spec(fields_view(fields@)),
{
    proof {
        lemma_field_items_view(fields);
    }
    Schema { tag: None, fields, lenient: false }
}

/// A required keyed field.
pub open spec fn keyed_spec(schema: SchemaV) -> FieldV {
    FieldV::Keyed { schema, default: None, suppress: false }
}

/// A required keyed field.
pub fn keyed(schema: Schema) -> (f: Field)
    ensures
        f@ == keyed_spec(schema@),
{
    Field::Keyed { schema, default: None, suppress: false }
}

/// A keyed field that may be absent and then has the value `default`; with
/// `suppress`, it is left out where it has that value.
pub open spec fn keyed_or_spec(schema: SchemaV, default: ValueV, suppress: bool) -> FieldV {
    FieldV::Keyed { schema, default: Some(default), suppress }
}

/// A keyed field that may be absent and then has the value `default`.
pub fn keyed_or(schema: Schema, default: Value, suppress: bool) -> (f: Field)
    ensures
        f@ == keyed_or_spec(schema@, default@, suppress),
{
    Field::Keyed { schema, default: Some(default), suppress }
}

/// The schema of a list that holds one scalar after its tag: `(key value)`.
pub open spec fn single_spec(key: Seq<u8>, kind: ScalarKindV) -> SchemaV {
    tagged_spec(key, seq![required(kind)])
}

/// The schema of a list that holds one scalar after its tag: `(key value)`.
pub fn single(key: &str, kind: ScalarKind) -> (s: Schema)
    ensures
        s@ == single_spec(encode_utf8(key@), kind@),
{
    let fields = vec![positional(kind)];
    assert(fields_view(fields@) =~= seq![required(kind@)]);
    tagged(key, fields)
}

/// The generic value of a string.
pub open spec fn text_spec(chars: Seq<char>) -> ValueV {
    ValueV::Text(encode_utf8(chars))
}

/// The generic value of a string.
pub fn text_value(s: &str) -> (v: Value)
    ensures
        v@ == text_spec(s@),
{
    Value::Text(bytes_of(s))
}

/// Whether a generic value is a string in valid UTF-8.
pub open spec fn is_text(v: ValueV) -> bool {
    v is Text && valid_utf8(v->Text_0)
}

/// The string of a generic value, where it is one.
pub fn text_of(v: &Value) -> (r: Option<String>)
    ensures
        r is Some <==> is_text(v@),
        r matches Some(s) ==> text_spec(s@) == v@,
{
    match v {
        Value::Text(bytes) => {
            proof {
                if valid_utf8(bytes@) {
                    lemma_string_of_bytes(bytes@);
                }
            }
            string_from_utf8(copy_bytes(bytes.as_slice()))
        },
        _ => None,
    }
}

/// The generic value of an optional string.
pub open spec fn optional_text_spec(o: Option<String>) -> ValueV {
    match o {
        Some(s) => text_spec(s@),
        None => ValueV::Absent,
    }
}

/// The generic value of an optional string.
pub fn optional_text_value(o: &Option<String>) -> (v: Value)
    ensures
        v@ == optional_text_spec(*o),
{
    match o {
        Some(s) => text_value(s.as_str()),
        None => Value::Absent,
    }
}

/// The optional string of a generic value: `None` inside where it is
/// absent, `None` outside where it is neither absent nor a string.
pub fn optional_text_of(v: &Value) -> (r: Option<Option<String>>)
    ensures
        r is Some <==> v@ is Absent || is_text(v@),
        r matches Some(o) ==> optional_text_spec(o) == v@,
{
    match v {
        Value::Absent => Some(None),
        _ => match text_of(v) {
            Some(s) => Some(Some(s)),
            None => None,
        },
    }
}

} // verus!

verus! {

/// The generic value of a keyed field that holds one scalar: `(key value)`.
pub open spec fn single_value_spec(v: ValueV) -> ValueV {
    ValueV::Record(seq![v])
}

/// The generic value of a keyed field that holds one scalar.
pub fn single_value(v: Value) -> (r: Value)
    ensures
        r@ == single_value_spec(v@),
{
    let items = vec![v];
    proof {
        crate::value::lemma_items_view(items);
        assert(values_view(items@) =~= seq![v@]);
    }
    Value::Record(items)
}

/// The values of a record, where the generic value is one.
pub fn record_of(v: &Value) -> (r: Option<&Vec<Value>>)
    ensures
        r is Some <==> v@ is Record,
        r matches Some(items) ==> v@ == ValueV::Record(values_view(items@)),
{
    match v {
        Value::Record(items) => {
            proof {
                crate::value::lemma_items_view(*items);
            }
            Some(items)
        },
        _ => None,
    }
}

/// The scalar of a keyed field that holds one, where the generic value is
/// such a field's.
pub fn single_of(v: &Value) -> (r: Option<&Value>)
    ensures
        r is Some <==> v@ is Record && v@->Record_0.len() == 1,
        r matches Some(x) ==> v@ == single_value_spec(x@),
{
    match record_of(v) {
        Some(items) => {
            if items.len() == 1 {
                assert(values_view(items@) =~= seq![items@[0]@]);
                Some(&items[0])
            } else {
                None
            }
        },
        None => None,
    }
}

/// Makes a record value of the values of its fields.
pub fn record_value(items: Vec<Value>) -> (r: Value)
    ensures
        r@ == ValueV::Record(values_view(items@)),
{
    proof {
        crate::value::lemma_items_view(items);
    }
    Value::Record(items)
}

/// Makes a sequence value of its elements.
pub fn sequence_value(items: Vec<Value>) -> (r: Value)
    ensures
        r@ == ValueV::Sequence(values_view(items@)),
{
    proof {
        crate::value::lemma_items_view(items);
    }
    Value::Sequence(items)
}

/// The elements of a sequence, where the generic value is one.
pub fn sequence_of(v: &Value) -> (r: Option<&Vec<Value>>)
    ensures
        r is Some <==> v@ is Sequence,
        r matches Some(items) ==> v@ == ValueV::Sequence(values_view(items@)),
{
    match v {
        Value::Sequence(items) => {
            proof {
                crate::value::lemma_items_view(*items);
            }
            Some(items)
        },
        _ => None,
    }
}

/// Makes a value of a union of the place of its shape and its record.
pub fn choice_value(k: usize, items: Vec<Value>) -> (r: Value)
    ensures
        r@ == ValueV::Choice(k, values_view(items@)),
{
    proof {
        crate::value::lemma_items_view(items);
    }
    Value::Choice(k, items)
}

/// The place and the record of a value of a union, where the generic value
/// is one.
pub fn choice_of(v: &Value) -> (r: Option<(usize, &Vec<Value>)>)
    ensures
        r is Some <==> v@ is Choice,
        r matches Some((k, items)) ==> v@ == ValueV::Choice(k, values_view(items@)),
{
    match v {
        Value::Choice(k, items) => {
            proof {
                crate::value::lemma_items_view(*items);
            }
            Some((*k, items))
        },
        _ => None,
    }
}

} // verus!

verus! {

/// The scalar of a keyed field that holds one, where the value is such a
/// field's.
pub open spec fn single_in(v: ValueV) -> Option<ValueV> {
    if v is Record && v->Record_0.len() == 1 {
        Some(v->Record_0[0])
    } else {
        None
    }
}

/// A scalar under a key is a record of the one-scalar schema, and a value of
/// a keyed field of that schema, whatever the field's default.
pub proof fn lemma_single_conforms(
    key: Seq<u8>,
    kind: ScalarKindV,
    x: ValueV,
    default: Option<ValueV>,
    suppress: bool,
)
    requires
        crate::scalar::scalar_fits(kind, x),
    ensures
        record_conforms(seq![x], single_spec(key, kind)),
        crate::record::field_conforms(
            FieldV::Keyed { schema: single_spec(key, kind), default, suppress },
            single_value_spec(x),
        ),
{
    let schema = single_spec(key, kind);
    assert(record_conforms(seq![x], schema)) by {
        assert forall|i: int| 0 <= i < schema.fields.len() implies crate::record::field_conforms(
            #[trigger] schema.fields[i],
            seq![x][i],
        ) by {}
    }
}

} // verus!

verus! {

/// A keyed field that holds one scalar, may be absent, and is left out
/// where it has no value.
pub open spec fn optional_single_spec(key: Seq<u8>, kind: ScalarKindV) -> FieldV {
    keyed_or_spec(single_spec(key, kind), ValueV::Absent, true)
}

/// A keyed field that holds one scalar, may be absent, and is left out
/// where it has no value.
pub fn optional_single(key: &str, kind: ScalarKind) -> (f: Field)
    ensures
        f@ == optional_single_spec(encode_utf8(key@), kind@),
{
    keyed_or(single(key, kind), Value::Absent, true)
}

/// The generic value of an optional string under a key.
pub open spec fn optional_keyed_text_spec(o: Option<String>) -> ValueV {
    match o {
        Some(s) => single_value_spec(text_spec(s@)),
        None => ValueV::Absent,
    }
}

/// The generic value of an optional string under a key.
pub fn optional_keyed_text(o: &Option<String>) -> (v: Value)
    ensures
        v@ == optional_keyed_text_spec(*o),
{
    match o {
        Some(s) => single_value(text_value(s.as_str())),
        None => Value::Absent,
    }
}

/// Whether a generic value is an optional string under a key.
pub open spec fn is_optional_keyed_text(v: ValueV) -> bool {
    v is Absent || (single_in(v) matches Some(t) && is_text(t))
}

/// The optional string under a key that a generic value stands for.
pub fn optional_keyed_text_of(v: &Value) -> (r: Option<Option<String>>)
    ensures
        r is Some <==> is_optional_keyed_text(v@),
        r matches Some(o) ==> optional_keyed_text_spec(o) == v@,
{
    match v {
        Value::Absent => Some(None),
        _ => match single_of(v) {
            Some(t) => match text_of(t) {
                Some(s) => Some(Some(s)),
                None => None,
            },
            None => None,
        },
    }
}

/// The generic value of an optional count under a key.
pub open spec fn optional_count_spec(o: Option<u32>) -> ValueV {
    match o {
        Some(n) => single_value_spec(ValueV::Integer(n as u64)),
        None => ValueV::Absent,
    }
}

/// The generic value of an optional count under a key.
pub fn optional_count(o: &Option<u32>) -> (v: Value)
    ensures
        v@ == optional_count_spec(*o),
{
    match o {
        Some(n) => single_value(Value::Integer(*n as u64)),
        None => Value::Absent,
    }
}

/// Whether a generic value is an optional count under a key.
pub open spec fn is_optional_count(v: ValueV) -> bool {
    v is Absent || (single_in(v) matches Some(n) && n is Integer && n->Integer_0 <= u32::MAX)
}

/// The optional count under a key that a generic value stands for.
pub fn optional_count_of(v: &Value) -> (r: Option<Option<u32>>)
    ensures
        r is Some <==> is_optional_count(v@),
        r matches Some(o) ==> optional_count_spec(o) == v@,
{
    match v {
        Value::Absent => Some(None),
        _ => match single_of(v) {
            Some(Value::Integer(n)) => {
                if *n > u32::MAX as u64 {
                    None
                } else {
                    Some(Some(*n as u32))
                }
            },
            _ => None,
        },
    }
}

/// An optional scalar under a key is a value of its field.
pub proof fn lemma_optional_single_conforms(key: Seq<u8>, kind: ScalarKindV, v: ValueV)
    requires
        v is Absent || (single_in(v) matches Some(x) && crate::scalar::scalar_fits(kind, x)),
    ensures
        crate::record::field_conforms(optional_single_spec(key, kind), v),
{
    if !(v is Absent) {
        let x = single_in(v)->0;
        lemma_single_conforms(key, kind, x, Some(ValueV::Absent), true);
        assert(v->Record_0 =~= seq![x]);
    }
}

} // verus!

verus! {

/// An optional string under a key is absent or a string in valid UTF-8.
pub proof fn lemma_optional_text(o: Option<String>)
    ensures
        is_optional_keyed_text(optional_keyed_text_spec(o)),
        optional_keyed_text_spec(o) is Absent || (single_in(optional_keyed_text_spec(o)) matches Some(
            x,
        ) && crate::scalar::scalar_fits(ScalarKindV::Text, x)),
{
    if o is Some {
        crate::text::lemma_bytes_of_string(o->0@);
    }
}

} // verus!

verus! {

/// The generic values of a run of records of the type `T`, each as the
/// `k`-th shape of a union.
pub open spec fn choices_spec<T: Record>(items: Seq<T>, k: usize) -> Seq<ValueV> {
    Seq::new(items.len(), |i: int| ValueV::Choice(k, items[i].record_spec()))
}

/// Whether every value is a record of the type `T`, as the `k`-th shape of
/// a union.
pub open spec fn choices_admit<T: Record>(values: Seq<ValueV>, k: usize) -> bool {
    forall|i: int|
        0 <= i < values.len() ==> {
            &&& (#[trigger] values[i]) is Choice
            &&& values[i]->Choice_0 == k
            &&& T::admits(values[i]->Choice_1)
        }
}

/// The generic values of a run of records, each as the `k`-th shape of a
/// union.
pub fn to_choices<T: Record>(items: &Vec<T>, k: usize) -> (values: Vec<Value>)
    ensures
        values_view(values@) == choices_spec(items@, k),
        choices_admit::<T>(choices_spec(items@, k), k),
        forall|i: int|
            0 <= i < items@.len() ==> record_conforms(
                (#[trigger] items@[i]).record_spec(),
                T::schema_spec(),
            ),
{
    let mut values: Vec<Value> = Vec::new();
    let mut i: usize = 0;
    while i < items.len()
        invariant
            i <= items@.len(),
            values@.len() == i,
            forall|j: int|
                0 <= j < i ==> (#[trigger] values@[j])@ == ValueV::Choice(
                    k,
                    items@[j].record_spec(),
                ),
            forall|j: int|
                0 <= j < i ==> record_conforms(
                    (#[trigger] items@[j]).record_spec(),
                    T::schema_spec(),
                ) && T::admits(items@[j].record_spec()),
        decreases items@.len() - i,
    {
        values.push(choice_value(k, items[i].to_record()));
        i += 1;
    }
    assert(values_view(values@) =~= choices_spec(items@, k));
    values
}

/// The records that a run of values of a union stands for, where each is
/// the `k`-th shape and a record of the type `T`.
pub fn from_choices<T: Record>(values: &Vec<Value>, k: usize) -> (r: Option<Vec<T>>)
    ensures
        r is Some <==> choices_admit::<T>(values_view(values@), k),
        r matches Some(items) ==> choices_spec(items@, k) == values_view(values@),
{
    let ghost vs = values_view(values@);
    let mut items: Vec<T> = Vec::new();
    let mut i: usize = 0;
    while i < values.len()
        invariant
            i <= values@.len(),
            items@.len() == i,
            vs == values_view(values@),
            forall|j: int|
                0 <= j < i ==> {
                    &&& (#[trigger] vs[j]) is Choice
                    &&& vs[j]->Choice_0 == k
                    &&& T::admits(vs[j]->Choice_1)
                },
            forall|j: int|
                0 <= j < i ==> ValueV::Choice(k, (#[trigger] items@[j]).record_spec()) == vs[j],
        decreases values@.len() - i,
    {
        assert(vs[i as int] == values@[i as int]@);
        let item = match choice_of(&values[i]) {
            Some((found, fields)) => {
                if found != k {
                    return None;
                }
                match T::from_record(fields) {
                    Some(x) => x,
                    None => {
                        return None;
                    },
                }
            },
            None => {
                return None;
            },
        };
        items.push(item);
        i += 1;
    }
    assert(choices_spec(items@, k) =~= vs);
    Some(items)
}

} // verus!

verus! {

/// The record of the type `T` that a generic value stands for, where it is
/// a record and stands for one.
pub fn nested<T: Record>(v: &Value) -> (r: Option<T>)
    ensures
        r is Some <==> v@ is Record && T::admits(v@->Record_0),
        r matches Some(x) ==> v@ == ValueV::Record(x.record_spec()),
{
    match record_of(v) {
        Some(fields) => T::from_record(fields),
        None => None,
    }
}

} // verus!

verus! {

/// **Round trip of a typed record.** A record of the type `T` that is
/// encoded and decoded again comes back with the same values, where the
/// identifiers that are written are read back. A record without
/// identifiers, or whose identifiers are all left out, asks for nothing.
pub proof fn lemma_typed_round_trip<T: Record>(x: T)
    requires
        written_read_back(x.record_spec(), T::schema_spec()),
    ensures
        decode_spec::<T>(encode_record_spec(x.record_spec(), T::schema_spec())) == Ok::<
            Seq<ValueV>,
            ErrorV,
        >(x.record_spec()),
{
    T::lemma_schema();
    x.lemma_record();
    lemma_record_round_trip(x.record_spec(), T::schema_spec());
}

/// **Round trip of a typed document.** A record of the type `T` that is
/// rendered as text and parsed again comes back with the same values,
/// provided the node that encodes it is writable: no string in it ends with
/// a backslash.
pub proof fn lemma_typed_text_round_trip<T: Record>(x: T)
    requires
        written_read_back(x.record_spec(), T::schema_spec()),
        writable(encode_record_spec(x.record_spec(), T::schema_spec())),
    ensures
        from_text_spec::<T>(to_text_spec::<T>(x)) == Ok::<Seq<ValueV>, ErrorV>(x.record_spec()),
{
    lemma_typed_round_trip::<T>(x);
    lemma_text_round_trip(encode_record_spec(x.record_spec(), T::schema_spec()));
}

/// The bytes of a name written in ASCII are its characters, one for one.
pub proof fn lemma_name(s: &str)
    requires
        vstd::utf8::is_ascii_chars(s@),
    ensures
        encode_utf8(s@).len() == s@.len(),
        s@.len() > 0 ==> encode_utf8(s@)[0] == s@[0] as u8,
        s@.len() > 1 ==> encode_utf8(s@)[1] == s@[1] as u8,
{
    vstd::utf8::is_ascii_chars_encode_utf8(s@);
    if s@.len() > 0 {
        assert(encode_utf8(s@)[0] == s@[0] as u8);
    }
    if s@.len() > 1 {
        assert(encode_utf8(s@)[1] == s@[1] as u8);
    }
}

/// The schema of a list that holds one scalar is well formed, and so is a
/// keyed field of it.
pub proof fn lemma_single_well_formed(
    key: Seq<u8>,
    kind: ScalarKindV,
    default: Option<ValueV>,
    suppress: bool,
)
    requires
        kind_well_formed(kind),
    ensures
        schema_well_formed(single_spec(key, kind)),
        field_well_formed(FieldV::Keyed { schema: single_spec(key, kind), default, suppress }),
{
    let schema = single_spec(key, kind);
    assert(schema_well_formed(schema)) by {
        assert forall|i: int| 0 <= i < schema.fields.len() implies field_well_formed(
            #[trigger] schema.fields[i],
        ) by {}
    }
}

/// The schema of a list that holds one scalar under a key written as a
/// string has valid UTF-8 for its names, and so has a keyed field of it.
pub proof fn lemma_single_utf8(
    key: Seq<char>,
    kind: ScalarKindV,
    default: Option<ValueV>,
    suppress: bool,
)
    requires
        kind_utf8(kind),
    ensures
        schema_utf8(single_spec(encode_utf8(key), kind)),
        field_utf8(
            FieldV::Keyed { schema: single_spec(encode_utf8(key), kind), default, suppress },
        ),
{
    let schema = single_spec(encode_utf8(key), kind);
    encode_utf8_valid_utf8(key);
    assert(schema_utf8(schema)) by {
        assert forall|i: int| 0 <= i < schema.fields.len() implies field_utf8(
            #[trigger] schema.fields[i],
        ) by {}
    }
}

/// A scalar under a key holds valid UTF-8 where the scalar does.
pub proof fn lemma_single_value_utf8(x: ValueV)
    requires
        value_utf8(x),
    ensures
        value_utf8(single_value_spec(x)),
{
    let items = seq![x];
    assert forall|i: int| 0 <= i < items.len() implies value_utf8(#[trigger] items[i]) by {}
}

/// The generic value of a string holds valid UTF-8, bare or under a key.
pub proof fn lemma_text_utf8(chars: Seq<char>)
    ensures
        value_utf8(text_spec(chars)),
        value_utf8(single_value_spec(text_spec(chars))),
{
    encode_utf8_valid_utf8(chars);
    lemma_single_value_utf8(text_spec(chars));
}

/// The generic value of an optional string holds valid UTF-8.
pub proof fn lemma_optional_text_utf8(o: Option<String>)
    ensures
        value_utf8(optional_text_spec(o)),
{
    if o is Some {
        lemma_text_utf8(o->0@);
    }
}

/// The generic value of an optional string under a key holds valid UTF-8.
pub proof fn lemma_optional_keyed_text_utf8(o: Option<String>)
    ensures
        value_utf8(optional_keyed_text_spec(o)),
{
    if o is Some {
        lemma_text_utf8(o->0@);
    }
}

/// The generic value of an optional count under a key holds no string.
pub proof fn lemma_optional_count_utf8(o: Option<u32>)
    ensures
        value_utf8(optional_count_spec(o)),
{
    if o is Some {
        lemma_single_value_utf8(ValueV::Integer(o->0 as u64));
    }
}

/// **Unmatched parentheses.** A text that holds more `(` than `)` outside
/// its strings, or fewer, is no document of any type: parsing it is a
/// syntax error, whatever the rest of it says.
pub proof fn lemma_unequal_parens_are_no_document<T: Record>(text: Seq<u8>)
    requires
        crate::lexer::tokens_from(text, 0) matches Ok(ts) && crate::lexer::net_depth(ts, 0) != 0,
    ensures
        from_text_spec::<T>(text) matches Err(e) && e is SyntaxError,
{
    crate::lexer::lemma_unequal_parens_fail(text);
}

/// **Open strings.** A text in which a quoted string is not closed is no
/// document of any type: parsing it is a syntax error.
pub proof fn lemma_open_string_is_no_document<T: Record>(text: Seq<u8>)
    requires
        !crate::lexer::well_quoted(text),
    ensures
        from_text_spec::<T>(text) matches Err(e) && e is SyntaxError,
{
}

/// A scalar that is no identifier, under a key, holds no identifier.
pub proof fn lemma_single_reads_back(x: ValueV)
    requires
        !(x is Identifier),
        !(x is Record),
        !(x is Choice),
        !(x is Sequence),
    ensures
        crate::laws::value_reads_back(single_value_spec(x)),
{
    let items = seq![x];
    assert forall|i: int| 0 <= i < items.len() implies crate::laws::value_reads_back(
        #[trigger] items[i],
    ) by {}
}

} // verus!
