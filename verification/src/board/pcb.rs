//! The circuit board document and its sections.

use vstd::prelude::*;
use vstd::utf8::{encode_utf8, valid_utf8};
use crate::binding::{
    choices_admit, choices_spec, from_choices, from_text, from_text_spec, is_optional_count,
    is_text, keyed, keyed_spec, lemma_optional_single_conforms, lemma_single_conforms, optional,
    optional_count, optional_count_of, optional_count_spec, optional_single, optional_single_spec,
    optional_text_of, optional_text_spec, optional_text_value, positional, positional_optional,
    required, sequence_of, sequence_value, single, single_in, single_of, single_spec, single_value,
    single_value_spec, tagged, tagged_spec, tagless, tagless_spec, text_of, text_spec, text_value,
    to_choices, to_text_spec, Record,
};
use crate::binding::{choice_of, choice_value, nested, record_value};
use crate::board::graphic::curve::Curve;
use crate::board::graphic::segment::Segment;
use crate::board::graphic::GraphicItem;
use crate::common::{Paper, TitleBlock};
use crate::quantity::Quantity;
use crate::binding::{lemma_name, lemma_single_well_formed};
use crate::binding::{decode_spec, lemma_typed_round_trip, lemma_typed_text_round_trip};
use crate::decimal::decimal_text;
use crate::record::{
    decode_field_spec, decode_fields_spec, decode_record_spec, encode_field_spec,
    encode_fields_spec,
};
use crate::text::is_delimiter;
use crate::tree::NodeV;
use crate::decimal::{decimal_value, is_decimal};
use crate::document::read_spec;
use crate::record::bare;
use crate::scalar::{decode_scalar_spec, variant_of};
use crate::utf8_laws::node_utf8;
use crate::writer::{ends_well, needs_quotes, render, writable};
use crate::binding::{
    lemma_optional_count_utf8, lemma_optional_text_utf8, lemma_single_utf8,
    lemma_single_value_utf8, lemma_text_utf8,
};
use crate::utf8_laws::{field_utf8, kind_utf8, schema_utf8, value_utf8};
use vstd::utf8::encode_utf8_valid_utf8;
use crate::binding::to_string_of;
use crate::error::{CodecError, ErrorV};
use crate::laws::{lemma_all_read_back, value_reads_back};
use crate::record::encode_record_spec;
use crate::laws::{
    distinct_texts, field_well_formed, in_order, key_of, kind_well_formed, lemma_keyed_in_order,
    lemma_keyed_then_sequence, schema_well_formed,
};
use crate::text::lemma_bytes_of_string;
use crate::record::{choice_conforms, field_conforms};
use crate::schema::{
    fields_view, lemma_schema_items_view, schemas_view, texts_view, Field, FieldV, ScalarKind,
    ScalarKindV, Schema, SchemaV,
};
use crate::text::bytes_of;
use crate::value::{values_view, Value, ValueV};

verus! {

/// The revision that a new board declares.
pub const CURRENT_REVISION: u32 = 20211123;

/// The format revision of a board, a date written as one number:
/// `(version 20211123)`.
#[derive(Clone, Copy, Debug, PartialEq, Eq, Structural)]
pub struct Version(pub u32);

impl Default for Version {
    fn default() -> (v: Self)
        ensures
            v.0 == CURRENT_REVISION,
    {
        Version(CURRENT_REVISION)
    }
}

impl Version {
    /// The revision of a board that is written today.
    pub fn new() -> (v: Self)
        ensures
            v.0 == CURRENT_REVISION,
    {
        Version(CURRENT_REVISION)
    }
}

impl Record for Version {
    open spec fn schema_spec() -> SchemaV {
        single_spec(encode_utf8("version"@), ScalarKindV::Integer)
    }

    open spec fn record_spec(&self) -> Seq<ValueV> {
        seq![ValueV::Integer(self.0 as u64)]
    }

    open spec fn admits(values: Seq<ValueV>) -> bool {
        values.len() == 1 && values[0] is Integer && values[0]->Integer_0 <= u32::MAX
    }

    proof fn lemma_schema() {
        let schema = Self::schema_spec();
        lemma_single_well_formed(encode_utf8("version"@), ScalarKindV::Integer, None, false);
        assert forall|i: int| 0 <= i < schema.fields.len() implies field_well_formed(
            #[trigger] schema.fields[i],
        ) by {}
        assert forall|i: int, j: int| 0 <= i < j < schema.fields.len() implies in_order(
            #[trigger] schema.fields[i],
            #[trigger] schema.fields[j],
        ) by {}
    }

    proof fn lemma_record(&self) {
        let schema = Self::schema_spec();
        let vs = self.record_spec();
        assert forall|k: int| 0 <= k < schema.fields.len() implies field_conforms(
            #[trigger] schema.fields[k],
            vs[k],
        ) by {}
    }

    proof fn lemma_names() {
        let schema = Self::schema_spec();
        lemma_single_utf8("version"@, ScalarKindV::Integer, None, false);
        assert forall|i: int| 0 <= i < schema.fields.len() implies field_utf8(
            #[trigger] schema.fields[i],
        ) by {}
    }

    proof fn lemma_strings(&self) {
        let vs = self.record_spec();
        assert forall|i: int| 0 <= i < vs.len() implies value_utf8(#[trigger] vs[i]) by {}
    }

    fn schema() -> (s: Schema) {
        single("version", ScalarKind::Integer)
    }

    fn to_record(&self) -> (values: Vec<Value>) {
        let values = vec![Value::Integer(self.0 as u64)];
        assert(values_view(values@) =~= self.record_spec());
        proof {
            self.lemma_record();
        }
        values
    }

    fn from_record(values: &Vec<Value>) -> (r: Option<Self>) {
        if values.len() != 1 {
            return None;
        }
        assert(values_view(values@)[0] == values@[0]@);
        match &values[0] {
            Value::Integer(n) => {
                if *n > u32::MAX as u64 {
                    return None;
                }
                let v = Version(*n as u32);
                assert(v.record_spec() =~= values_view(values@));
                Some(v)
            },
            _ => None,
        }
    }
}

/// What a copper or technical layer is used for.
#[derive(Clone, Copy, Debug, PartialEq, Eq, Structural)]
pub enum LayerType {
    User,
    Signal,
    Jumper,
    Mixed,
    Power,
}

impl Default for LayerType {
    fn default() -> (t: Self)
        ensures
            t == LayerType::User,
    {
        LayerType::User
    }
}

impl LayerType {
    /// The place of a variant among the spellings.
    pub open spec fn index_spec(self) -> usize {
        match self {
            LayerType::User => 0,
            LayerType::Signal => 1,
            LayerType::Jumper => 2,
            LayerType::Mixed => 3,
            LayerType::Power => 4,
        }
    }

    /// The symbol that writes a variant.
    pub open spec fn name_spec(self) -> Seq<char> {
        match self {
            LayerType::User => "user"@,
            LayerType::Signal => "signal"@,
            LayerType::Jumper => "jumper"@,
            LayerType::Mixed => "mixed"@,
            LayerType::Power => "power"@,
        }
    }

    /// The enumeration as a scalar: one spelling for each variant, and
    /// `User` for a symbol that is none of them.
    pub open spec fn kind_spec() -> ScalarKindV {
        ScalarKindV::Symbol {
            spellings: seq![
                encode_utf8("user"@),
                encode_utf8("signal"@),
                encode_utf8("jumper"@),
                encode_utf8("mixed"@),
                encode_utf8("power"@),
            ],
            fallback: 0,
        }
    }

    /// No two variants share a spelling.
    pub proof fn lemma_kind()
        ensures
            kind_well_formed(Self::kind_spec()),
    {
        reveal_strlit("user");
        reveal_strlit("signal");
        reveal_strlit("jumper");
        reveal_strlit("mixed");
        reveal_strlit("power");
        lemma_name("user");
        lemma_name("signal");
        lemma_name("jumper");
        lemma_name("mixed");
        lemma_name("power");
        let spellings = Self::kind_spec()->spellings;
        assert forall|i: int, j: int| 0 <= i < j < spellings.len() implies #[trigger] spellings[i]
            != #[trigger] spellings[j] by {
            assert(spellings[i][0] != spellings[j][0]);
        }
    }

    /// Every spelling is valid UTF-8.
    pub proof fn lemma_kind_utf8()
        ensures
            kind_utf8(Self::kind_spec()),
    {
        encode_utf8_valid_utf8("user"@);
        encode_utf8_valid_utf8("signal"@);
        encode_utf8_valid_utf8("jumper"@);
        encode_utf8_valid_utf8("mixed"@);
        encode_utf8_valid_utf8("power"@);
        let spellings = Self::kind_spec()->spellings;
        assert forall|i: int| 0 <= i < spellings.len() implies vstd::utf8::valid_utf8(
            #[trigger] spellings[i],
        ) by {}
    }

    /// The place of this variant among the spellings.
    pub fn index(self) -> (i: usize)
        ensures
            i == self.index_spec(),
    {
        match self {
            LayerType::User => 0,
            LayerType::Signal => 1,
            LayerType::Jumper => 2,
            LayerType::Mixed => 3,
            LayerType::Power => 4,
        }
    }

    /// The variant at a place among the spellings.
    pub fn from_index(i: usize) -> (r: Option<LayerType>)
        ensures
            r is Some <==> i < 5,
            r matches Some(t) ==> t.index_spec() == i,
    {
        if i == 0 {
            Some(LayerType::User)
        } else if i == 1 {
            Some(LayerType::Signal)
        } else if i == 2 {
            Some(LayerType::Jumper)
        } else if i == 3 {
            Some(LayerType::Mixed)
        } else if i == 4 {
            Some(LayerType::Power)
        } else {
            None
        }
    }

    /// The symbol that writes this variant.
    pub fn name(&self) -> (s: &'static str)
        ensures
            s@ == self.name_spec(),
    {
        match self {
            LayerType::User => "user",
            LayerType::Signal => "signal",
            LayerType::Jumper => "jumper",
            LayerType::Mixed => "mixed",
            LayerType::Power => "power",
        }
    }

    /// The symbol that writes this variant, as a string of its own.
    pub fn to_string(&self) -> (s: String)
        ensures
            s@ == self.name_spec(),
    {
        self.name().to_owned()
    }

    /// The enumeration as a scalar.
    pub fn kind() -> (k: ScalarKind)
        ensures
            k@ == Self::kind_spec(),
    {
        let spellings = vec![
            bytes_of("user"),
            bytes_of("signal"),
            bytes_of("jumper"),
            bytes_of("mixed"),
            bytes_of("power"),
        ];
        assert(texts_view(spellings@) =~= Self::kind_spec()->spellings);
        ScalarKind::Symbol { spellings, fallback: 0 }
    }
}

/// One line of the layer table: `(0 "F.Cu" signal)`, or with a name of the
/// user's own, `(40 "Dwgs.User" user "User.Drawings")`. The name is written
/// between quotes; the user's name is written as it stands, between quotes
/// only where it needs them.
#[derive(Clone, Debug, Default, PartialEq, Eq)]
pub struct Layer {
    pub number: u32,
    pub name: String,
    pub layer_type: LayerType,
    pub user: Option<String>,
}

impl Record for Layer {
    open spec fn schema_spec() -> SchemaV {
        tagless_spec(
            seq![
                required(ScalarKindV::Integer),
                required(ScalarKindV::Text),
                required(LayerType::kind_spec()),
                optional(ScalarKindV::Word),
            ],
        )
    }

    open spec fn record_spec(&self) -> Seq<ValueV> {
        seq![
            ValueV::Integer(self.number as u64),
            text_spec(self.name@),
            ValueV::Variant(self.layer_type.index_spec()),
            optional_text_spec(self.user),
        ]
    }

    open spec fn admits(values: Seq<ValueV>) -> bool {
        &&& values.len() == 4
        &&& values[0] is Integer && values[0]->Integer_0 <= u32::MAX
        &&& is_text(values[1])
        &&& values[2] is Variant && values[2]->Variant_0 < 5
        &&& (values[3] is Absent || is_text(values[3]))
    }

    proof fn lemma_schema() {
        let schema = Self::schema_spec();
        LayerType::lemma_kind();
        assert forall|i: int| 0 <= i < schema.fields.len() implies field_well_formed(
            #[trigger] schema.fields[i],
        ) by {}
        assert forall|i: int, j: int| 0 <= i < j < schema.fields.len() implies in_order(
            #[trigger] schema.fields[i],
            #[trigger] schema.fields[j],
        ) by {}
    }

    proof fn lemma_record(&self) {
        let schema = Self::schema_spec();
        let vs = self.record_spec();
        lemma_bytes_of_string(self.name@);
        if self.user is Some {
            lemma_bytes_of_string(self.user->0@);
        }
        assert forall|k: int| 0 <= k < schema.fields.len() implies field_conforms(
            #[trigger] schema.fields[k],
            vs[k],
        ) by {}
    }

    proof fn lemma_names() {
        let schema = Self::schema_spec();
        LayerType::lemma_kind_utf8();
        assert forall|i: int| 0 <= i < schema.fields.len() implies field_utf8(
            #[trigger] schema.fields[i],
        ) by {}
    }

    proof fn lemma_strings(&self) {
        let vs = self.record_spec();
        lemma_text_utf8(self.name@);
        lemma_optional_text_utf8(self.user);
        assert forall|i: int| 0 <= i < vs.len() implies value_utf8(#[trigger] vs[i]) by {}
    }

    fn schema() -> (s: Schema) {
        let fields = vec![
            positional(ScalarKind::Integer),
            positional(ScalarKind::Text),
            positional(LayerType::kind()),
            positional_optional(ScalarKind::Word),
        ];
        assert(fields_view(fields@) =~= Self::schema_spec().fields);
        tagless(fields)
    }

    fn to_record(&self) -> (values: Vec<Value>) {
        let values = vec![
            Value::Integer(self.number as u64),
            text_value(self.name.as_str()),
            Value::Variant(self.layer_type.index()),
            optional_text_value(&self.user),
        ];
        assert(values_view(values@) =~= self.record_spec());
        proof {
            self.lemma_record();
        }
        values
    }

    fn from_record(values: &Vec<Value>) -> (r: Option<Self>) {
        if values.len() != 4 {
            return None;
        }
        let ghost vs = values_view(values@);
        assert(vs[0] == values@[0]@ && vs[1] == values@[1]@ && vs[2] == values@[2]@ && vs[3]
            == values@[3]@);
        let number: u32 = match &values[0] {
            Value::Integer(n) => {
                if *n > u32::MAX as u64 {
                    return None;
                }
                *n as u32
            },
            _ => {
                return None;
            },
        };
        let name = match text_of(&values[1]) {
            Some(s) => s,
            None => {
                return None;
            },
        };
        let layer_type = match &values[2] {
            Value::Variant(i) => match LayerType::from_index(*i) {
                Some(t) => t,
                None => {
                    return None;
                },
            },
            _ => {
                return None;
            },
        };
        let user = match optional_text_of(&values[3]) {
            Some(o) => o,
            None => {
                return None;
            },
        };
        let layer = Layer { number, name, layer_type, user };
        assert(layer.record_spec() =~= vs);
        Some(layer)
    }
}

impl std::str::FromStr for Layer {
    type Err = CodecError;

    /// Reads one line of the layer table, as [`Layer::from_str`] does.
    fn from_str(s: &str) -> (r: Result<Self, CodecError>)
        ensures
            match r {
                Ok(x) => from_text_spec::<Layer>(encode_utf8(s@)) == Ok::<Seq<ValueV>, ErrorV>(
                    x.record_spec(),
                ),
                Err(e) => from_text_spec::<Layer>(encode_utf8(s@)) == Err::<Seq<ValueV>, ErrorV>(
                    e@,
                ),
            },
    {
        Layer::from_str(s)
    }
}

impl Layer {
    /// A layer that is encoded and decoded again comes back with the same
    /// values.
    pub proof fn lemma_round_trip(&self)
        ensures
            decode_spec::<Layer>(encode_record_spec(self.record_spec(), Self::schema_spec()))
                == Ok::<Seq<ValueV>, ErrorV>(self.record_spec()),
    {
        let vs = self.record_spec();
        assert forall|i: int| 0 <= i < vs.len() implies value_reads_back(#[trigger] vs[i]) by {}
        lemma_all_read_back(vs, Self::schema_spec());
        lemma_typed_round_trip::<Layer>(*self);
    }

    /// The atoms that write a layer, in order: the number, the name between
    /// quotes, the symbol of the type, and the user's name where there is
    /// one, between quotes only where it needs them. An absent user's name
    /// leaves nothing.
    pub open spec fn atoms_spec(&self) -> Seq<NodeV> {
        let head = seq![
            NodeV::Atom { text: decimal_text(self.number as nat), quoted: false },
            NodeV::Atom { text: encode_utf8(self.name@), quoted: true },
            NodeV::Atom {
                text: LayerType::kind_spec()->spellings[self.layer_type.index_spec() as int],
                quoted: false,
            },
        ];
        match self.user {
            Some(u) => head.push(
                NodeV::Atom { text: encode_utf8(u@), quoted: needs_quotes(encode_utf8(u@)) },
            ),
            None => head,
        }
    }

    /// The node that encodes a layer is the list of its atoms.
    pub proof fn lemma_atoms(&self)
        ensures
            encode_record_spec(self.record_spec(), Self::schema_spec()) == (NodeV::List {
                items: self.atoms_spec(),
            }),
    {
        let fields = Self::schema_spec().fields;
        let vs = self.record_spec();
        let rest4 = encode_fields_spec(fields, vs, 4);
        let rest3 = encode_fields_spec(fields, vs, 3);
        let rest2 = encode_fields_spec(fields, vs, 2);
        let rest1 = encode_fields_spec(fields, vs, 1);
        let rest0 = encode_fields_spec(fields, vs, 0);
        assert(rest4 =~= Seq::<NodeV>::empty());
        assert(rest3 == encode_field_spec(fields[3], vs[3]) + rest4);
        assert(rest2 == encode_field_spec(fields[2], vs[2]) + rest3);
        assert(rest1 == encode_field_spec(fields[1], vs[1]) + rest2);
        assert(rest0 == encode_field_spec(fields[0], vs[0]) + rest1);
        assert(encode_field_spec(fields[0], vs[0]).len() == 1);
        assert(encode_field_spec(fields[1], vs[1]).len() == 1);
        assert(encode_field_spec(fields[2], vs[2]).len() == 1);
        assert(rest0 =~= self.atoms_spec());
        assert(crate::record::tag_nodes(Self::schema_spec().tag) + rest0 =~= rest0);
    }

    /// The node that encodes a layer reads back as itself after it is
    /// written, where neither name ends with a backslash.
    pub proof fn lemma_writable(&self)
        requires
            ends_well(encode_utf8(self.name@)),
            self.user matches Some(u) ==> ends_well(encode_utf8(u@)),
        ensures
            writable(encode_record_spec(self.record_spec(), Self::schema_spec())),
    {
        self.lemma_atoms();
        let items = self.atoms_spec();
        let number = decimal_text(self.number as nat);
        crate::decimal::lemma_decimal_text_digits(self.number as nat);
        assert(!needs_quotes(number)) by {
            assert forall|i: int| 0 <= i < number.len() implies !is_delimiter(
                #[trigger] number[i],
            ) by {
                assert(crate::decimal::is_digit(number[i]));
            }
        }
        crate::board::tags::lemma_user_signal_bare();
        crate::board::tags::lemma_jumper_mixed_bare();
        crate::board::tags::lemma_power_bare();
        assert(writable(items[0]));
        assert(writable(items[1]));
        assert(writable(items[2]));
        if self.user is Some {
            assert(writable(items[3]));
        }
        assert forall|i: int| 0 <= i < items.len() implies writable(#[trigger] items[i]) by {}
    }

    /// **An omitted user's name.** A list of exactly three atoms that decodes
    /// as a layer decodes to a layer without a user's name: the omitted field
    /// has its default, and its absence is no error.
    pub proof fn lemma_three_atoms(a: NodeV, b: NodeV, c: NodeV)
        requires
            a is Atom,
            b is Atom,
            c is Atom,
        ensures
            ({
                let node = NodeV::List { items: seq![a, b, c] };
                let decoded = decode_record_spec(node, Self::schema_spec());
                &&& !(decoded matches Err(e) && e is MissingField)
                &&& decoded matches Ok(values) ==> values.len() == 4 && values[3]
                    == ValueV::Absent
            }),
    {
        let node = NodeV::List { items: seq![a, b, c] };
        let fields = Self::schema_spec().fields;
        let left0 = seq![a, b, c];
        let left1 = seq![b, c];
        let left2 = seq![c];
        let left3 = Seq::<NodeV>::empty();
        assert(crate::record::body_of(node, Self::schema_spec()) == Some(left0));
        assert(left0.remove(0) =~= left1);
        assert(left1.remove(0) =~= left2);
        assert(left2.remove(0) =~= left3);
        let d3 = decode_fields_spec(fields, 3, left3);
        let d4 = decode_fields_spec(fields, 4, left3);
        assert(d4 == Ok::<(Seq<ValueV>, Seq<NodeV>), ErrorV>((Seq::empty(), left3)));
        assert(decode_field_spec(fields[3], left3) == Ok::<(ValueV, Seq<NodeV>), ErrorV>(
            (ValueV::Absent, left3),
        ));
        assert(d3 == Ok::<(Seq<ValueV>, Seq<NodeV>), ErrorV>(
            (seq![ValueV::Absent] + Seq::<ValueV>::empty(), left3),
        ));
        let d2 = decode_fields_spec(fields, 2, left2);
        let f2 = decode_field_spec(fields[2], left2);
        assert(f2 matches Ok((v, rest)) ==> rest == left3);
        assert(!(f2 matches Err(e) && e is MissingField));
        assert(d2 matches Ok((values, rest)) ==> values.len() == 2 && values[1]
            == ValueV::Absent);
        assert(!(d2 matches Err(e) && e is MissingField));
        let d1 = decode_fields_spec(fields, 1, left1);
        let f1 = decode_field_spec(fields[1], left1);
        assert(f1 matches Ok((v, rest)) ==> rest == left2);
        assert(!(f1 matches Err(e) && e is MissingField));
        assert(d1 matches Ok((values, rest)) ==> values.len() == 3 && values[2]
            == ValueV::Absent);
        assert(!(d1 matches Err(e) && e is MissingField));
        let d0 = decode_fields_spec(fields, 0, left0);
        let f0 = decode_field_spec(fields[0], left0);
        assert(f0 matches Ok((v, rest)) ==> rest == left1);
        assert(!(f0 matches Err(e) && e is MissingField));
        assert(d0 matches Ok((values, rest)) ==> values.len() == 4 && values[3]
            == ValueV::Absent);
        assert(!(d0 matches Err(e) && e is MissingField));
    }

    /// What a list of three or four atoms decodes to as a layer: the number
    /// that the first atom writes, the text of the second, the type that the
    /// third spells, and the text of the fourth where there is one. Only the
    /// number can fail.
    pub open spec fn decoded_atoms(items: Seq<NodeV>) -> Result<Seq<ValueV>, ErrorV> {
        match decode_scalar_spec(ScalarKindV::Integer, items[0]->text, items[0]->quoted) {
            Err(e) => Err(e),
            Ok(number) => Ok(
                seq![
                    number,
                    ValueV::Text(items[1]->text),
                    ValueV::Variant(
                        variant_of(LayerType::kind_spec()->spellings, 0, items[2]->text),
                    ),
                    if items.len() == 4 {
                        ValueV::Text(items[3]->text)
                    } else {
                        ValueV::Absent
                    },
                ],
            ),
        }
    }

    /// A list of three or four atoms decodes as [`Layer::decoded_atoms`]
    /// says.
    pub proof fn lemma_decode_atoms(items: Seq<NodeV>)
        requires
            items.len() == 3 || items.len() == 4,
            forall|i: int| 0 <= i < items.len() ==> (#[trigger] items[i]) is Atom,
        ensures
            decode_record_spec(NodeV::List { items }, Self::schema_spec()) == Self::decoded_atoms(
                items,
            ),
    {
        let node = NodeV::List { items };
        let fields = Self::schema_spec().fields;
        let n = items.len() as int;
        let left0 = items;
        let left1 = items.subrange(1, n);
        let left2 = items.subrange(2, n);
        let left3 = items.subrange(3, n);
        let none = Seq::<NodeV>::empty();
        assert(items[0] is Atom && items[1] is Atom && items[2] is Atom);
        assert(crate::record::body_of(node, Self::schema_spec()) == Some(left0));
        assert(left0.remove(0) =~= left1);
        assert(left1.remove(0) =~= left2);
        assert(left2.remove(0) =~= left3);
        assert(left1[0] == items[1]);
        assert(left2[0] == items[2]);
        let last = if n == 4 {
            ValueV::Text(items[3]->text)
        } else {
            ValueV::Absent
        };
        if n == 4 {
            assert(items[3] is Atom);
            assert(left3[0] == items[3]);
            assert(left3.remove(0) =~= none);
        } else {
            assert(left3 =~= none);
        }
        assert(decode_fields_spec(fields, 4, none) == Ok::<(Seq<ValueV>, Seq<NodeV>), ErrorV>(
            (Seq::empty(), none),
        ));
        assert(decode_field_spec(fields[3], left3) == Ok::<(ValueV, Seq<NodeV>), ErrorV>(
            (last, none),
        ));
        let v3 = seq![last] + Seq::<ValueV>::empty();
        assert(decode_fields_spec(fields, 3, left3) == Ok::<(Seq<ValueV>, Seq<NodeV>), ErrorV>(
            (v3, none),
        ));
        let kind = ValueV::Variant(
            variant_of(LayerType::kind_spec()->spellings, 0, items[2]->text),
        );
        assert(decode_field_spec(fields[2], left2) == Ok::<(ValueV, Seq<NodeV>), ErrorV>(
            (kind, left3),
        ));
        let v2 = seq![kind] + v3;
        assert(decode_fields_spec(fields, 2, left2) == Ok::<(Seq<ValueV>, Seq<NodeV>), ErrorV>(
            (v2, none),
        ));
        let name = ValueV::Text(items[1]->text);
        assert(decode_field_spec(fields[1], left1) == Ok::<(ValueV, Seq<NodeV>), ErrorV>(
            (name, left2),
        ));
        let v1 = seq![name] + v2;
        assert(decode_fields_spec(fields, 1, left1) == Ok::<(Seq<ValueV>, Seq<NodeV>), ErrorV>(
            (v1, none),
        ));
        let number = decode_scalar_spec(ScalarKindV::Integer, items[0]->text, items[0]->quoted);
        if number is Ok {
            assert(decode_field_spec(fields[0], left0) == Ok::<(ValueV, Seq<NodeV>), ErrorV>(
                (number->Ok_0, left1),
            ));
            let v0 = seq![number->Ok_0] + v1;
            assert(decode_fields_spec(fields, 0, left0) == Ok::<
                (Seq<ValueV>, Seq<NodeV>),
                ErrorV,
            >((v0, none)));
            assert(v0 =~= Self::decoded_atoms(items)->Ok_0);
        } else {
            assert(decode_field_spec(fields[0], left0) is Err);
        }
    }

    /// **Every layer line decodes.** A text in valid UTF-8 that reads as one
    /// list of three or four atoms, the first a bare numeral that fits 32
    /// bits, is a layer: parsing it succeeds, and gives the values that
    /// [`Layer::decoded_atoms`] says, without a user's name exactly where the
    /// list holds three atoms.
    pub proof fn lemma_line_decodes(text: Seq<u8>)
        requires
            valid_utf8(text),
            read_spec(text) matches Ok(node) && node is List && (node->items.len() == 3
                || node->items.len() == 4) && (forall|i: int|
                0 <= i < node->items.len() ==> (#[trigger] node->items[i]) is Atom)
                && !node->items[0]->quoted && is_decimal(node->items[0]->text) && decimal_value(
                node->items[0]->text,
            ) <= u32::MAX,
        ensures
            from_text_spec::<Layer>(text) == Self::decoded_atoms(read_spec(text)->Ok_0->items),
            from_text_spec::<Layer>(text) is Ok,
    {
        let node = read_spec(text)->Ok_0;
        let items = node->items;
        crate::read_laws::lemma_read_utf8(text);
        Self::lemma_decode_atoms(items);
        assert(node == NodeV::List { items });
        assert(node_utf8(items[1]));
        assert(node_utf8(items[2]));
        if items.len() == 4 {
            assert(node_utf8(items[3]));
        }
        let spellings = LayerType::kind_spec()->spellings;
        crate::decode_laws::lemma_first_spelling_bound(spellings, items[2]->text, 0);
        let values = Self::decoded_atoms(items)->Ok_0;
        assert(Self::admits(values));
    }

    /// **Round trip of a layer.** The text of a layer, parsed again, gives
    /// the same layer, where neither name ends with a backslash: a
    /// backslash before the closing quote would escape it.
    pub proof fn lemma_text_round_trip(&self)
        requires
            ends_well(encode_utf8(self.name@)),
            self.user matches Some(u) ==> ends_well(encode_utf8(u@)),
        ensures
            from_text_spec::<Layer>(to_text_spec::<Layer>(*self)) == Ok::<Seq<ValueV>, ErrorV>(
                self.record_spec(),
            ),
    {
        self.lemma_writable();
        let vs = self.record_spec();
        assert forall|i: int| 0 <= i < vs.len() implies value_reads_back(#[trigger] vs[i]) by {}
        lemma_all_read_back(vs, Self::schema_spec());
        lemma_typed_text_round_trip::<Layer>(*self);
    }

    /// Reads one line of the layer table.
    pub fn from_str(s: &str) -> (r: Result<Layer, CodecError>)
        ensures
            match r {
                Ok(x) => from_text_spec::<Layer>(encode_utf8(s@)) == Ok::<Seq<ValueV>, ErrorV>(
                    x.record_spec(),
                ),
                Err(e) => from_text_spec::<Layer>(encode_utf8(s@)) == Err::<Seq<ValueV>, ErrorV>(
                    e@,
                ),
            },
    {
        from_text::<Layer>(s.as_bytes())
    }

    /// Writes this line of the layer table: its atoms between parentheses,
    /// with one blank between neighbours.
    pub fn to_string(&self) -> (s: String)
        ensures
            encode_utf8(s@) == to_text_spec::<Layer>(*self),
            encode_utf8(s@) == render(NodeV::List { items: self.atoms_spec() }),
    {
        proof {
            self.lemma_atoms();
        }
        to_string_of::<Layer>(self)
    }
}

/// A net: `(net 1 "+3V3")`.
#[derive(Clone, Debug, Default, PartialEq, Eq)]
pub struct Net {
    pub number: u8,
    pub name: String,
}

impl Record for Net {
    open spec fn schema_spec() -> SchemaV {
        tagged_spec(
            encode_utf8("net"@),
            seq![required(ScalarKindV::Integer), required(ScalarKindV::Text)],
        )
    }

    open spec fn record_spec(&self) -> Seq<ValueV> {
        seq![ValueV::Integer(self.number as u64), text_spec(self.name@)]
    }

    open spec fn admits(values: Seq<ValueV>) -> bool {
        &&& values.len() == 2
        &&& values[0] is Integer && values[0]->Integer_0 <= u8::MAX
        &&& is_text(values[1])
    }

    proof fn lemma_schema() {
        let schema = Self::schema_spec();
        assert forall|i: int| 0 <= i < schema.fields.len() implies field_well_formed(
            #[trigger] schema.fields[i],
        ) by {}
        assert forall|i: int, j: int| 0 <= i < j < schema.fields.len() implies in_order(
            #[trigger] schema.fields[i],
            #[trigger] schema.fields[j],
        ) by {}
    }

    proof fn lemma_record(&self) {
        let schema = Self::schema_spec();
        let vs = self.record_spec();
        lemma_bytes_of_string(self.name@);
        assert forall|k: int| 0 <= k < schema.fields.len() implies field_conforms(
            #[trigger] schema.fields[k],
            vs[k],
        ) by {}
    }

    proof fn lemma_names() {
        let schema = Self::schema_spec();
        encode_utf8_valid_utf8("net"@);
        assert forall|i: int| 0 <= i < schema.fields.len() implies field_utf8(
            #[trigger] schema.fields[i],
        ) by {}
    }

    proof fn lemma_strings(&self) {
        let vs = self.record_spec();
        lemma_text_utf8(self.name@);
        assert forall|i: int| 0 <= i < vs.len() implies value_utf8(#[trigger] vs[i]) by {}
    }

    fn schema() -> (s: Schema) {
        let fields = vec![positional(ScalarKind::Integer), positional(ScalarKind::Text)];
        assert(fields_view(fields@) =~= Self::schema_spec().fields);
        tagged("net", fields)
    }

    fn to_record(&self) -> (values: Vec<Value>) {
        let values = vec![Value::Integer(self.number as u64), text_value(self.name.as_str())];
        assert(values_view(values@) =~= self.record_spec());
        proof {
            self.lemma_record();
        }
        values
    }

    fn from_record(values: &Vec<Value>) -> (r: Option<Self>) {
        if values.len() != 2 {
            return None;
        }
        let ghost vs = values_view(values@);
        assert(vs[0] == values@[0]@ && vs[1] == values@[1]@);
        let number: u8 = match &values[0] {
            Value::Integer(n) => {
                if *n > u8::MAX as u64 {
                    return None;
                }
                *n as u8
            },
            _ => {
                return None;
            },
        };
        let name = match text_of(&values[1]) {
            Some(s) => s,
            None => {
                return None;
            },
        };
        let net = Net { number, name };
        assert(net.record_spec() =~= vs);
        Some(net)
    }
}

} // verus!

verus! {

/// General facts of the board: `(general (thickness 1.6))`, and optionally
/// how many drawings, tracks, zones, modules and nets it holds.
#[derive(Clone, Debug, Default, PartialEq, Eq)]
pub struct General {
    pub thickness: Quantity,
    pub drawings: Option<u32>,
    pub tracks: Option<u32>,
    pub zones: Option<u32>,
    pub modules: Option<u32>,
    pub nets: Option<u32>,
}

impl Record for General {
    open spec fn schema_spec() -> SchemaV {
        tagged_spec(
            encode_utf8("general"@),
            seq![
                keyed_spec(single_spec(encode_utf8("thickness"@), ScalarKindV::Quantity)),
                optional_single_spec(encode_utf8("drawings"@), ScalarKindV::Integer),
                optional_single_spec(encode_utf8("tracks"@), ScalarKindV::Integer),
                optional_single_spec(encode_utf8("zones"@), ScalarKindV::Integer),
                optional_single_spec(encode_utf8("modules"@), ScalarKindV::Integer),
                optional_single_spec(encode_utf8("nets"@), ScalarKindV::Integer),
            ],
        )
    }

    open spec fn record_spec(&self) -> Seq<ValueV> {
        seq![
            single_value_spec(ValueV::Quantity(self.thickness)),
            optional_count_spec(self.drawings),
            optional_count_spec(self.tracks),
            optional_count_spec(self.zones),
            optional_count_spec(self.modules),
            optional_count_spec(self.nets),
        ]
    }

    open spec fn admits(values: Seq<ValueV>) -> bool {
        &&& values.len() == 6
        &&& single_in(values[0]) matches Some(t) && t is Quantity
        &&& is_optional_count(values[1])
        &&& is_optional_count(values[2])
        &&& is_optional_count(values[3])
        &&& is_optional_count(values[4])
        &&& is_optional_count(values[5])
    }

    proof fn lemma_schema() {
        let schema = Self::schema_spec();
        let keys = Self::keys_spec();
        Self::lemma_keys();
        lemma_single_well_formed(encode_utf8("thickness"@), ScalarKindV::Quantity, None, false);
        lemma_single_well_formed(
            encode_utf8("drawings"@),
            ScalarKindV::Integer,
            Some(ValueV::Absent),
            true,
        );
        lemma_single_well_formed(
            encode_utf8("tracks"@),
            ScalarKindV::Integer,
            Some(ValueV::Absent),
            true,
        );
        lemma_single_well_formed(
            encode_utf8("zones"@),
            ScalarKindV::Integer,
            Some(ValueV::Absent),
            true,
        );
        lemma_single_well_formed(
            encode_utf8("modules"@),
            ScalarKindV::Integer,
            Some(ValueV::Absent),
            true,
        );
        lemma_single_well_formed(
            encode_utf8("nets"@),
            ScalarKindV::Integer,
            Some(ValueV::Absent),
            true,
        );
        assert forall|i: int| 0 <= i < schema.fields.len() implies key_of(
            #[trigger] schema.fields[i],
        ) == Some(keys[i]) && field_well_formed(schema.fields[i]) by {}
        lemma_keyed_in_order(schema.fields, keys);
    }

    proof fn lemma_record(&self) {
        let schema = Self::schema_spec();
        let vs = self.record_spec();
        lemma_single_conforms(
            encode_utf8("thickness"@),
            ScalarKindV::Quantity,
            ValueV::Quantity(self.thickness),
            None,
            false,
        );
        lemma_optional_single_conforms(encode_utf8("drawings"@), ScalarKindV::Integer, vs[1]);
        lemma_optional_single_conforms(encode_utf8("tracks"@), ScalarKindV::Integer, vs[2]);
        lemma_optional_single_conforms(encode_utf8("zones"@), ScalarKindV::Integer, vs[3]);
        lemma_optional_single_conforms(encode_utf8("modules"@), ScalarKindV::Integer, vs[4]);
        lemma_optional_single_conforms(encode_utf8("nets"@), ScalarKindV::Integer, vs[5]);
        assert forall|k: int| 0 <= k < schema.fields.len() implies field_conforms(
            #[trigger] schema.fields[k],
            vs[k],
        ) by {}
    }

    proof fn lemma_names() {
        let schema = Self::schema_spec();
        encode_utf8_valid_utf8("general"@);
        lemma_single_utf8("thickness"@, ScalarKindV::Quantity, None, false);
        lemma_single_utf8("drawings"@, ScalarKindV::Integer, Some(ValueV::Absent), true);
        lemma_single_utf8("tracks"@, ScalarKindV::Integer, Some(ValueV::Absent), true);
        lemma_single_utf8("zones"@, ScalarKindV::Integer, Some(ValueV::Absent), true);
        lemma_single_utf8("modules"@, ScalarKindV::Integer, Some(ValueV::Absent), true);
        lemma_single_utf8("nets"@, ScalarKindV::Integer, Some(ValueV::Absent), true);
        assert forall|i: int| 0 <= i < schema.fields.len() implies field_utf8(
            #[trigger] schema.fields[i],
        ) by {}
    }

    proof fn lemma_strings(&self) {
        let vs = self.record_spec();
        lemma_single_value_utf8(ValueV::Quantity(self.thickness));
        lemma_optional_count_utf8(self.drawings);
        lemma_optional_count_utf8(self.tracks);
        lemma_optional_count_utf8(self.zones);
        lemma_optional_count_utf8(self.modules);
        lemma_optional_count_utf8(self.nets);
        assert forall|i: int| 0 <= i < vs.len() implies value_utf8(#[trigger] vs[i]) by {}
    }

    fn schema() -> (s: Schema) {
        let fields = vec![
            keyed(single("thickness", ScalarKind::Quantity)),
            optional_single("drawings", ScalarKind::Integer),
            optional_single("tracks", ScalarKind::Integer),
            optional_single("zones", ScalarKind::Integer),
            optional_single("modules", ScalarKind::Integer),
            optional_single("nets", ScalarKind::Integer),
        ];
        assert(fields_view(fields@) =~= Self::schema_spec().fields);
        tagged("general", fields)
    }

    fn to_record(&self) -> (values: Vec<Value>) {
        let values = vec![
            single_value(Value::Quantity(self.thickness)),
            optional_count(&self.drawings),
            optional_count(&self.tracks),
            optional_count(&self.zones),
            optional_count(&self.modules),
            optional_count(&self.nets),
        ];
        assert(values_view(values@) =~= self.record_spec());
        proof {
            self.lemma_record();
        }
        values
    }

    fn from_record(values: &Vec<Value>) -> (r: Option<Self>) {
        if values.len() != 6 {
            return None;
        }
        let ghost vs = values_view(values@);
        assert(vs[0] == values@[0]@ && vs[1] == values@[1]@ && vs[2] == values@[2]@ && vs[3]
            == values@[3]@ && vs[4] == values@[4]@ && vs[5] == values@[5]@);
        let thickness = match single_of(&values[0]) {
            Some(Value::Quantity(q)) => *q,
            _ => {
                return None;
            },
        };
        let drawings = match optional_count_of(&values[1]) {
            Some(o) => o,
            None => {
                return None;
            },
        };
        let tracks = match optional_count_of(&values[2]) {
            Some(o) => o,
            None => {
                return None;
            },
        };
        let zones = match optional_count_of(&values[3]) {
            Some(o) => o,
            None => {
                return None;
            },
        };
        let modules = match optional_count_of(&values[4]) {
            Some(o) => o,
            None => {
                return None;
            },
        };
        let nets = match optional_count_of(&values[5]) {
            Some(o) => o,
            None => {
                return None;
            },
        };
        let general = General { thickness, drawings, tracks, zones, modules, nets };
        assert(general.record_spec() =~= vs);
        Some(general)
    }
}

impl General {
    /// **Omitted counters.** A general section that holds the thickness and
    /// nothing else decodes to the thickness with every counter absent: the
    /// omitted counters have their default, and their absence is no error.
    /// Only the thickness can fail.
    pub proof fn lemma_thickness_alone(thickness: NodeV)
        requires
            thickness is Atom,
        ensures
            ({
                let inner = NodeV::List {
                    items: seq![bare(encode_utf8("thickness"@)), thickness],
                };
                let node = NodeV::List { items: seq![bare(encode_utf8("general"@)), inner] };
                decode_record_spec(node, Self::schema_spec()) == (match decode_scalar_spec(
                    ScalarKindV::Quantity,
                    thickness->text,
                    thickness->quoted,
                ) {
                    Ok(q) => Ok(
                        seq![
                            single_value_spec(q),
                            ValueV::Absent,
                            ValueV::Absent,
                            ValueV::Absent,
                            ValueV::Absent,
                            ValueV::Absent,
                        ],
                    ),
                    Err(e) => Err(e),
                })
            }),
    {
        let key = encode_utf8("thickness"@);
        let inner_items = seq![bare(key), thickness];
        let inner = NodeV::List { items: inner_items };
        let items = seq![bare(encode_utf8("general"@)), inner];
        let node = NodeV::List { items };
        let schema = Self::schema_spec();
        let fields = schema.fields;
        let none = Seq::<NodeV>::empty();
        let left0 = seq![inner];
        assert(items.subrange(1, 2) =~= left0);
        assert(crate::record::tag_of(node) == Some(encode_utf8("general"@)));
        assert(crate::record::body_of(node, schema) == Some(left0));
        assert(crate::record::tag_of(inner) == Some(key));
        assert(crate::record::find_tagged(left0, key, 0) == Some(0int));
        assert(left0.remove(0) =~= none);
        // the thickness itself
        let single = single_spec(key, ScalarKindV::Quantity);
        let body = seq![thickness];
        assert(inner_items.subrange(1, 2) =~= body);
        assert(crate::record::body_of(inner, single) == Some(body));
        assert(body.remove(0) =~= none);
        let q = decode_scalar_spec(ScalarKindV::Quantity, thickness->text, thickness->quoted);
        assert(decode_fields_spec(single.fields, 1, none) == Ok::<
            (Seq<ValueV>, Seq<NodeV>),
            ErrorV,
        >((Seq::empty(), none)));
        if q is Ok {
            assert(decode_field_spec(single.fields[0], body) == Ok::<
                (ValueV, Seq<NodeV>),
                ErrorV,
            >((q->Ok_0, none)));
            assert(decode_fields_spec(single.fields, 0, body) == Ok::<
                (Seq<ValueV>, Seq<NodeV>),
                ErrorV,
            >((seq![q->Ok_0] + Seq::<ValueV>::empty(), none)));
            assert(seq![q->Ok_0] + Seq::<ValueV>::empty() =~= seq![q->Ok_0]);
            assert(decode_record_spec(inner, single) == Ok::<Seq<ValueV>, ErrorV>(seq![q->Ok_0]));
        } else {
            assert(decode_field_spec(single.fields[0], body) is Err);
            assert(decode_record_spec(inner, single) == Err::<Seq<ValueV>, ErrorV>(q->Err_0));
        }
        // the counters
        assert(decode_fields_spec(fields, 6, none) == Ok::<(Seq<ValueV>, Seq<NodeV>), ErrorV>(
            (Seq::empty(), none),
        ));
        let absent = Ok::<(ValueV, Seq<NodeV>), ErrorV>((ValueV::Absent, none));
        assert(decode_field_spec(fields[5], none) == absent);
        assert(decode_field_spec(fields[4], none) == absent);
        assert(decode_field_spec(fields[3], none) == absent);
        assert(decode_field_spec(fields[2], none) == absent);
        assert(decode_field_spec(fields[1], none) == absent);
        let v5 = seq![ValueV::Absent] + Seq::<ValueV>::empty();
        let v4 = seq![ValueV::Absent] + v5;
        let v3 = seq![ValueV::Absent] + v4;
        let v2 = seq![ValueV::Absent] + v3;
        let v1 = seq![ValueV::Absent] + v2;
        assert(decode_fields_spec(fields, 5, none) == Ok::<(Seq<ValueV>, Seq<NodeV>), ErrorV>(
            (v5, none),
        ));
        assert(decode_fields_spec(fields, 4, none) == Ok::<(Seq<ValueV>, Seq<NodeV>), ErrorV>(
            (v4, none),
        ));
        assert(decode_fields_spec(fields, 3, none) == Ok::<(Seq<ValueV>, Seq<NodeV>), ErrorV>(
            (v3, none),
        ));
        assert(decode_fields_spec(fields, 2, none) == Ok::<(Seq<ValueV>, Seq<NodeV>), ErrorV>(
            (v2, none),
        ));
        assert(decode_fields_spec(fields, 1, none) == Ok::<(Seq<ValueV>, Seq<NodeV>), ErrorV>(
            (v1, none),
        ));
        if q is Ok {
            let first = ValueV::Record(seq![q->Ok_0]);
            assert(decode_field_spec(fields[0], left0) == Ok::<(ValueV, Seq<NodeV>), ErrorV>(
                (first, none),
            ));
            let v0 = seq![first] + v1;
            assert(decode_fields_spec(fields, 0, left0) == Ok::<
                (Seq<ValueV>, Seq<NodeV>),
                ErrorV,
            >((v0, none)));
            assert(v0 =~= seq![
                single_value_spec(q->Ok_0),
                ValueV::Absent,
                ValueV::Absent,
                ValueV::Absent,
                ValueV::Absent,
                ValueV::Absent,
            ]);
        } else {
            assert(decode_field_spec(fields[0], left0) == Err::<(ValueV, Seq<NodeV>), ErrorV>(
                q->Err_0,
            ));
        }
    }

    /// The keys of the fields of the general section.
    pub open spec fn keys_spec() -> Seq<Seq<u8>> {
        seq![
            encode_utf8("thickness"@),
            encode_utf8("drawings"@),
            encode_utf8("tracks"@),
            encode_utf8("zones"@),
            encode_utf8("modules"@),
            encode_utf8("nets"@),
        ]
    }

    /// No two fields of the general section share a key.
    pub proof fn lemma_keys()
        ensures
            distinct_texts(Self::keys_spec()),
    {
        crate::board::tags::lemma_general_keys();
        crate::board::tags::lemma_more_general_keys();
        let all = Self::keys_spec();
        assert forall|i: int, j: int| 0 <= i < j < all.len() implies #[trigger] all[i]
            != #[trigger] all[j] by {
            assert(all[i].len() != all[j].len() || all[i][0] != all[j][0]);
        }
    }
}

/// The layer table: `(layers (0 "F.Cu" signal) (31 "B.Cu" signal))`.
#[derive(Clone, Debug, Default, PartialEq, Eq)]
pub struct LayersList {
    pub layers: Vec<Layer>,
}

impl Record for LayersList {
    open spec fn schema_spec() -> SchemaV {
        tagged_spec(
            encode_utf8("layers"@),
            seq![FieldV::Sequence { variants: seq![Layer::schema_spec()] }],
        )
    }

    open spec fn record_spec(&self) -> Seq<ValueV> {
        seq![ValueV::Sequence(choices_spec(self.layers@, 0))]
    }

    open spec fn admits(values: Seq<ValueV>) -> bool {
        &&& values.len() == 1
        &&& values[0] is Sequence
        &&& choices_admit::<Layer>(values[0]->Sequence_0, 0)
    }

    proof fn lemma_schema() {
        let schema = Self::schema_spec();
        Layer::lemma_schema();
        assert forall|i: int| 0 <= i < schema.fields.len() implies field_well_formed(
            #[trigger] schema.fields[i],
        ) by {}
        assert forall|i: int, j: int| 0 <= i < j < schema.fields.len() implies in_order(
            #[trigger] schema.fields[i],
            #[trigger] schema.fields[j],
        ) by {}
    }

    proof fn lemma_record(&self) {
        let schema = Self::schema_spec();
        let vs = self.record_spec();
        let items = choices_spec(self.layers@, 0);
        let variants = seq![Layer::schema_spec()];
        assert forall|i: int| 0 <= i < items.len() implies choice_conforms(
            #[trigger] items[i],
            variants,
        ) && Layer::admits(items[i]->Choice_1) by {
            self.layers@[i].lemma_record();
        }
        assert forall|k: int| 0 <= k < schema.fields.len() implies field_conforms(
            #[trigger] schema.fields[k],
            vs[k],
        ) by {}
    }

    proof fn lemma_names() {
        let schema = Self::schema_spec();
        encode_utf8_valid_utf8("layers"@);
        Layer::lemma_names();
        assert forall|i: int| 0 <= i < schema.fields.len() implies field_utf8(
            #[trigger] schema.fields[i],
        ) by {}
    }

    proof fn lemma_strings(&self) {
        let vs = self.record_spec();
        let items = choices_spec(self.layers@, 0);
        assert forall|i: int| 0 <= i < items.len() implies value_utf8(#[trigger] items[i]) by {
            self.layers@[i].lemma_strings();
        }
        assert forall|i: int| 0 <= i < vs.len() implies value_utf8(#[trigger] vs[i]) by {}
    }

    fn schema() -> (s: Schema) {
        let variants = vec![Layer::schema()];
        proof {
            lemma_schema_items_view(variants);
            assert(schemas_view(variants@) =~= seq![Layer::schema_spec()]);
        }
        let fields = vec![Field::Sequence { variants }];
        assert(fields_view(fields@) =~= Self::schema_spec().fields);
        tagged("layers", fields)
    }

    fn to_record(&self) -> (values: Vec<Value>) {
        let values = vec![sequence_value(to_choices(&self.layers, 0))];
        assert(values_view(values@) =~= self.record_spec());
        proof {
            self.lemma_record();
        }
        values
    }

    fn from_record(values: &Vec<Value>) -> (r: Option<Self>) {
        if values.len() != 1 {
            return None;
        }
        let ghost vs = values_view(values@);
        assert(vs[0] == values@[0]@);
        let layers = match sequence_of(&values[0]) {
            Some(items) => match from_choices::<Layer>(items, 0) {
                Some(layers) => layers,
                None => {
                    return None;
                },
            },
            None => {
                return None;
            },
        };
        let list = LayersList { layers };
        assert(list.record_spec() =~= vs);
        Some(list)
    }
}

} // verus!

verus! {

/// A section of the board that may occur any number of times, in any order.
#[derive(Clone, Debug, PartialEq, Eq)]
pub enum PCBContent {
    LayersList(LayersList),
    Net(Net),
    GraphicItem(GraphicItem),
}

impl PCBContent {
    /// The shapes that a section can have, in the order in which they are
    /// tried.
    pub open spec fn variants_spec() -> Seq<SchemaV> {
        seq![
            LayersList::schema_spec(),
            Net::schema_spec(),
            Segment::schema_spec(),
            Curve::schema_spec(),
        ]
    }

    /// The generic value of this section: the place of its shape, and its
    /// record.
    pub open spec fn choice_spec(&self) -> ValueV {
        match self {
            PCBContent::LayersList(l) => ValueV::Choice(0, l.record_spec()),
            PCBContent::Net(n) => ValueV::Choice(1, n.record_spec()),
            PCBContent::GraphicItem(GraphicItem::Segment(s)) => ValueV::Choice(2, s.record_spec()),
            PCBContent::GraphicItem(GraphicItem::Curve(c)) => ValueV::Choice(3, c.record_spec()),
        }
    }

    /// Whether a generic value is that of a section.
    pub open spec fn admits(v: ValueV) -> bool {
        v is Choice && if v->Choice_0 == 0 {
            LayersList::admits(v->Choice_1)
        } else if v->Choice_0 == 1 {
            Net::admits(v->Choice_1)
        } else if v->Choice_0 == 2 {
            Segment::admits(v->Choice_1)
        } else if v->Choice_0 == 3 {
            Curve::admits(v->Choice_1)
        } else {
            false
        }
    }

    /// The value of a section is a value of the union of the shapes, and
    /// is admitted.
    pub proof fn lemma_choice(&self)
        ensures
            choice_conforms(self.choice_spec(), Self::variants_spec()),
            Self::admits(self.choice_spec()),
    {
        match self {
            PCBContent::LayersList(l) => l.lemma_record(),
            PCBContent::Net(n) => n.lemma_record(),
            PCBContent::GraphicItem(GraphicItem::Segment(s)) => s.lemma_record(),
            PCBContent::GraphicItem(GraphicItem::Curve(c)) => c.lemma_record(),
        }
    }

    /// Every name of every shape is valid UTF-8.
    pub proof fn lemma_names()
        ensures
            forall|k: int|
                0 <= k < Self::variants_spec().len() ==> schema_utf8(
                    #[trigger] Self::variants_spec()[k],
                ),
    {
        LayersList::lemma_names();
        Net::lemma_names();
        Segment::lemma_names();
        Curve::lemma_names();
    }

    /// Every string of a section is valid UTF-8.
    pub proof fn lemma_choice_utf8(&self)
        ensures
            value_utf8(self.choice_spec()),
    {
        match self {
            PCBContent::LayersList(l) => l.lemma_strings(),
            PCBContent::Net(n) => n.lemma_strings(),
            PCBContent::GraphicItem(GraphicItem::Segment(s)) => s.lemma_strings(),
            PCBContent::GraphicItem(GraphicItem::Curve(c)) => c.lemma_strings(),
        }
    }

    /// The shapes that a section can have.
    pub fn variants() -> (v: Vec<Schema>)
        ensures
            schemas_view(v@) == Self::variants_spec(),
    {
        let v = vec![LayersList::schema(), Net::schema(), Segment::schema(), Curve::schema()];
        assert(schemas_view(v@) =~= Self::variants_spec());
        v
    }

    /// The generic value of this section.
    pub fn to_choice(&self) -> (v: Value)
        ensures
            v@ == self.choice_spec(),
            choice_conforms(self.choice_spec(), Self::variants_spec()),
            Self::admits(self.choice_spec()),
    {
        match self {
            PCBContent::LayersList(l) => choice_value(0, l.to_record()),
            PCBContent::Net(n) => choice_value(1, n.to_record()),
            PCBContent::GraphicItem(GraphicItem::Segment(s)) => choice_value(2, s.to_record()),
            PCBContent::GraphicItem(GraphicItem::Curve(c)) => choice_value(3, c.to_record()),
        }
    }

    /// The section that a generic value stands for, where it stands for one.
    pub fn from_choice(v: &Value) -> (r: Option<PCBContent>)
        ensures
            r is Some <==> Self::admits(v@),
            r matches Some(c) ==> c.choice_spec() == v@,
    {
        match choice_of(v) {
            None => None,
            Some((k, fields)) => {
                if k == 0 {
                    match LayersList::from_record(fields) {
                        Some(l) => Some(PCBContent::LayersList(l)),
                        None => None,
                    }
                } else if k == 1 {
                    match Net::from_record(fields) {
                        Some(n) => Some(PCBContent::Net(n)),
                        None => None,
                    }
                } else if k == 2 {
                    match Segment::from_record(fields) {
                        Some(s) => Some(PCBContent::GraphicItem(GraphicItem::Segment(s))),
                        None => None,
                    }
                } else if k == 3 {
                    match Curve::from_record(fields) {
                        Some(c) => Some(PCBContent::GraphicItem(GraphicItem::Curve(c))),
                        None => None,
                    }
                } else {
                    None
                }
            },
        }
    }
}

/// The generic values of a run of sections, in order.
pub open spec fn contents_spec(items: Seq<PCBContent>) -> Seq<ValueV> {
    Seq::new(items.len(), |i: int| items[i].choice_spec())
}

/// Whether every value is that of a section.
pub open spec fn contents_admit(values: Seq<ValueV>) -> bool {
    forall|i: int| 0 <= i < values.len() ==> PCBContent::admits(#[trigger] values[i])
}

/// A circuit board document:
/// `(kicad_pcb (version ..) (generator ..) (general ..) (paper ..) (title_block ..) ..)`,
/// followed by its sections.
#[derive(Clone, Debug, PartialEq, Eq)]
pub struct PCB {
    pub version: Version,
    pub generator: String,
    pub general: General,
    pub page: Paper,
    pub title_block: TitleBlock,
    pub pcb_content: Vec<PCBContent>,
}

impl Record for PCB {
    open spec fn schema_spec() -> SchemaV {
        tagged_spec(
            encode_utf8("kicad_pcb"@),
            seq![
                keyed_spec(Version::schema_spec()),
                keyed_spec(single_spec(encode_utf8("generator"@), ScalarKindV::Text)),
                keyed_spec(General::schema_spec()),
                keyed_spec(Paper::schema_spec()),
                keyed_spec(TitleBlock::schema_spec()),
                FieldV::Sequence { variants: PCBContent::variants_spec() },
            ],
        )
    }

    open spec fn record_spec(&self) -> Seq<ValueV> {
        seq![
            ValueV::Record(self.version.record_spec()),
            single_value_spec(text_spec(self.generator@)),
            ValueV::Record(self.general.record_spec()),
            ValueV::Record(self.page.record_spec()),
            ValueV::Record(self.title_block.record_spec()),
            ValueV::Sequence(contents_spec(self.pcb_content@)),
        ]
    }

    open spec fn admits(values: Seq<ValueV>) -> bool {
        &&& values.len() == 6
        &&& values[0] is Record && Version::admits(values[0]->Record_0)
        &&& single_in(values[1]) matches Some(g) && is_text(g)
        &&& values[2] is Record && General::admits(values[2]->Record_0)
        &&& values[3] is Record && Paper::admits(values[3]->Record_0)
        &&& values[4] is Record && TitleBlock::admits(values[4]->Record_0)
        &&& values[5] is Sequence && contents_admit(values[5]->Sequence_0)
    }

    proof fn lemma_schema() {
        let schema = Self::schema_spec();
        let keys = Self::keys_spec();
        let shapes = Self::shapes_spec();
        Self::lemma_keys();
        Version::lemma_schema();
        General::lemma_schema();
        Paper::lemma_schema();
        TitleBlock::lemma_schema();
        LayersList::lemma_schema();
        Net::lemma_schema();
        Segment::lemma_schema();
        Curve::lemma_schema();
        lemma_single_well_formed(encode_utf8("generator"@), ScalarKindV::Text, None, false);
        let variants = PCBContent::variants_spec();
        assert forall|k: int| 0 <= k < variants.len() implies (#[trigger] variants[k]).tag == Some(
            shapes[k],
        ) && schema_well_formed(variants[k]) by {}
        assert forall|i: int| 0 <= i < keys.len() implies key_of(#[trigger] schema.fields[i])
            == Some(keys[i]) && field_well_formed(schema.fields[i]) by {}
        lemma_keyed_then_sequence(schema.fields, keys, shapes);
        assert forall|i: int| 0 <= i < schema.fields.len() implies field_well_formed(
            #[trigger] schema.fields[i],
        ) by {}
    }

    proof fn lemma_record(&self) {
        let schema = Self::schema_spec();
        let vs = self.record_spec();
        self.version.lemma_record();
        self.general.lemma_record();
        self.page.lemma_record();
        self.title_block.lemma_record();
        lemma_bytes_of_string(self.generator@);
        lemma_single_conforms(
            encode_utf8("generator"@),
            ScalarKindV::Text,
            text_spec(self.generator@),
            None,
            false,
        );
        let items = contents_spec(self.pcb_content@);
        assert forall|j: int| 0 <= j < items.len() implies choice_conforms(
            #[trigger] items[j],
            PCBContent::variants_spec(),
        ) && PCBContent::admits(items[j]) by {
            self.pcb_content@[j].lemma_choice();
        }
        assert forall|k: int| 0 <= k < schema.fields.len() implies field_conforms(
            #[trigger] schema.fields[k],
            vs[k],
        ) by {}
    }

    proof fn lemma_names() {
        let schema = Self::schema_spec();
        encode_utf8_valid_utf8("kicad_pcb"@);
        Version::lemma_names();
        General::lemma_names();
        Paper::lemma_names();
        TitleBlock::lemma_names();
        PCBContent::lemma_names();
        lemma_single_utf8("generator"@, ScalarKindV::Text, None, false);
        assert forall|i: int| 0 <= i < schema.fields.len() implies field_utf8(
            #[trigger] schema.fields[i],
        ) by {}
    }

    proof fn lemma_strings(&self) {
        let vs = self.record_spec();
        self.version.lemma_strings();
        self.general.lemma_strings();
        self.page.lemma_strings();
        self.title_block.lemma_strings();
        lemma_text_utf8(self.generator@);
        let items = contents_spec(self.pcb_content@);
        assert forall|i: int| 0 <= i < items.len() implies value_utf8(#[trigger] items[i]) by {
            self.pcb_content@[i].lemma_choice_utf8();
        }
        assert forall|i: int| 0 <= i < vs.len() implies value_utf8(#[trigger] vs[i]) by {}
    }

    fn schema() -> (s: Schema) {
        let variants = PCBContent::variants();
        proof {
            lemma_schema_items_view(variants);
        }
        let fields = vec![
            keyed(Version::schema()),
            keyed(single("generator", ScalarKind::Text)),
            keyed(General::schema()),
            keyed(Paper::schema()),
            keyed(TitleBlock::schema()),
            Field::Sequence { variants },
        ];
        assert(fields_view(fields@) =~= Self::schema_spec().fields);
        tagged("kicad_pcb", fields)
    }

    fn to_record(&self) -> (values: Vec<Value>) {
        let mut contents: Vec<Value> = Vec::new();
        let mut i: usize = 0;
        while i < self.pcb_content.len()
            invariant
                i <= self.pcb_content@.len(),
                contents@.len() == i,
                forall|j: int|
                    0 <= j < i ==> (#[trigger] contents@[j])@ == self.pcb_content@[j].choice_spec(),
                forall|j: int|
                    0 <= j < i ==> choice_conforms(
                        (#[trigger] self.pcb_content@[j]).choice_spec(),
                        PCBContent::variants_spec(),
                    ) && PCBContent::admits(self.pcb_content@[j].choice_spec()),
            decreases self.pcb_content@.len() - i,
        {
            contents.push(self.pcb_content[i].to_choice());
            i += 1;
        }
        assert(values_view(contents@) =~= contents_spec(self.pcb_content@));
        let values = vec![
            record_value(self.version.to_record()),
            single_value(text_value(self.generator.as_str())),
            record_value(self.general.to_record()),
            record_value(self.page.to_record()),
            record_value(self.title_block.to_record()),
            sequence_value(contents),
        ];
        assert(values_view(values@) =~= self.record_spec());
        proof {
            self.lemma_record();
        }
        values
    }

    fn from_record(values: &Vec<Value>) -> (r: Option<Self>) {
        if values.len() != 6 {
            return None;
        }
        let ghost vs = values_view(values@);
        assert(vs[0] == values@[0]@ && vs[1] == values@[1]@ && vs[2] == values@[2]@ && vs[3]
            == values@[3]@ && vs[4] == values@[4]@ && vs[5] == values@[5]@);
        let version = match nested::<Version>(&values[0]) {
            Some(x) => x,
            None => {
                return None;
            },
        };
        let generator = match single_of(&values[1]) {
            Some(v) => match text_of(v) {
                Some(s) => s,
                None => {
                    return None;
                },
            },
            None => {
                return None;
            },
        };
        let general = match nested::<General>(&values[2]) {
            Some(x) => x,
            None => {
                return None;
            },
        };
        let page = match nested::<Paper>(&values[3]) {
            Some(x) => x,
            None => {
                return None;
            },
        };
        let title_block = match nested::<TitleBlock>(&values[4]) {
            Some(x) => x,
            None => {
                return None;
            },
        };
        let pcb_content = match sequence_of(&values[5]) {
            Some(items) => match contents_from(items) {
                Some(c) => c,
                None => {
                    return None;
                },
            },
            None => {
                return None;
            },
        };
        let pcb = PCB { version, generator, general, page, title_block, pcb_content };
        assert(pcb.record_spec() =~= vs);
        Some(pcb)
    }
}

/// The sections that a run of generic values stands for, where each stands
/// for one.
pub fn contents_from(items: &Vec<Value>) -> (r: Option<Vec<PCBContent>>)
    ensures
        r is Some <==> contents_admit(values_view(items@)),
        r matches Some(c) ==> contents_spec(c@) == values_view(items@),
{
    let ghost elements = values_view(items@);
    let mut contents: Vec<PCBContent> = Vec::new();
    let mut i: usize = 0;
    while i < items.len()
        invariant
            i <= items@.len(),
            contents@.len() == i,
            elements == values_view(items@),
            forall|j: int| 0 <= j < i ==> PCBContent::admits(#[trigger] elements[j]),
            forall|j: int| 0 <= j < i ==> (#[trigger] contents@[j]).choice_spec() == elements[j],
        decreases items@.len() - i,
    {
        assert(elements[i as int] == items@[i as int]@);
        match PCBContent::from_choice(&items[i]) {
            Some(c) => {
                contents.push(c);
            },
            None => {
                return None;
            },
        }
        i += 1;
    }
    assert(contents_spec(contents@) =~= elements);
    Some(contents)
}

impl std::str::FromStr for PCB {
    type Err = CodecError;

    /// Reads a circuit board document, as [`PCB::from_str`] does.
    fn from_str(s: &str) -> (r: Result<Self, CodecError>)
        ensures
            match r {
                Ok(x) => from_text_spec::<PCB>(encode_utf8(s@)) == Ok::<Seq<ValueV>, ErrorV>(
                    x.record_spec(),
                ),
                Err(e) => from_text_spec::<PCB>(encode_utf8(s@)) == Err::<Seq<ValueV>, ErrorV>(
                    e@,
                ),
            },
    {
        PCB::from_str(s)
    }
}

impl PCB {
    /// The keys of the fields of a board.
    pub open spec fn keys_spec() -> Seq<Seq<u8>> {
        seq![
            encode_utf8("version"@),
            encode_utf8("generator"@),
            encode_utf8("general"@),
            encode_utf8("paper"@),
            encode_utf8("title_block"@),
        ]
    }

    /// The tags of the sections of a board.
    pub open spec fn shapes_spec() -> Seq<Seq<u8>> {
        seq![
            encode_utf8("layers"@),
            encode_utf8("net"@),
            encode_utf8("segment"@),
            encode_utf8("fp_curve"@),
        ]
    }

    /// No two fields or sections of a board share a tag.
    pub proof fn lemma_keys()
        ensures
            distinct_texts(Self::keys_spec() + Self::shapes_spec()),
    {
        crate::board::tags::lemma_field_keys();
        crate::board::tags::lemma_more_field_keys();
        crate::board::tags::lemma_section_tags();
        let all = Self::keys_spec() + Self::shapes_spec();
        assert forall|i: int, j: int| 0 <= i < j < all.len() implies #[trigger] all[i]
            != #[trigger] all[j] by {
            assert(all[i].len() != all[j].len() || all[i][0] != all[j][0]);
        }
    }

    /// Reads a circuit board document.
    pub fn from_str(s: &str) -> (r: Result<PCB, CodecError>)
        ensures
            match r {
                Ok(x) => from_text_spec::<PCB>(encode_utf8(s@)) == Ok::<Seq<ValueV>, ErrorV>(
                    x.record_spec(),
                ),
                Err(e) => from_text_spec::<PCB>(encode_utf8(s@)) == Err::<Seq<ValueV>, ErrorV>(e@),
            },
    {
        from_text::<PCB>(s.as_bytes())
    }

    /// Writes this circuit board document.
    pub fn to_string(&self) -> (s: String)
        ensures
            encode_utf8(s@) == to_text_spec::<PCB>(*self),
    {
        to_string_of::<PCB>(self)
    }
}

} // verus!
