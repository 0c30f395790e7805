//! A straight track or line:
//! `(segment (start 1 0) (end 2 0) (width 0.12) (layer "F.Cu") (net 1) (tstamp "..."))`.

use vstd::prelude::*;
use vstd::utf8::encode_utf8;
use crate::binding::{
    is_text, keyed, keyed_or, keyed_or_spec, keyed_spec, lemma_single_conforms, record_of,
    record_value, single, single_in, single_of, single_spec, single_value, single_value_spec,
    tagged, tagged_spec, text_of, text_spec, text_value, Record,
};
use crate::binding::{lemma_name, lemma_single_well_formed};
use crate::binding::{lemma_single_utf8, lemma_single_value_utf8, lemma_text_utf8};
use crate::utf8_laws::{field_utf8, value_utf8};
use vstd::utf8::encode_utf8_valid_utf8;
use crate::binding::decode_spec;
use crate::error::ErrorV;
use crate::laws::{
    field_written_reads_back, lemma_all_read_back_field, lemma_record_round_trip,
    lemma_same_decoding, value_reads_back,
};
use crate::record::{decode_field_spec, decode_record_spec, encode_field_spec};
use crate::tree::NodeV;
use crate::binding::lemma_single_reads_back;
use crate::board::layer::Layer;
use crate::laws::{field_well_formed, in_order, schema_well_formed};
use crate::common::Point;
use crate::encoder::encode_record;
use crate::identifier::Identifier;
use crate::quantity::Quantity;
use crate::record::{encode_record_spec, field_conforms, record_conforms};
use crate::schema::{fields_view, ScalarKind, ScalarKindV, Schema, SchemaV};
use crate::text::lemma_bytes_of_string;
use crate::tree::Node;
use crate::value::{values_view, Value, ValueV};

verus! {

/// A straight track between two points.
#[derive(Clone, Debug, PartialEq, Eq)]
pub struct Segment {
    pub start: Point,
    pub end: Point,
    pub width: Quantity,
    pub layer: Layer,
    pub net: u8,
    /// The identifier of the segment; nil where the document gives none.
    pub tstamp: Identifier,
}

impl Segment {
    /// The binding of a segment. With `suppress_nil`, a nil identifier is
    /// left out of the output; without, every segment is written with its
    /// identifier.
    pub open spec fn schema_with_spec(suppress_nil: bool) -> SchemaV {
        tagged_spec(
            encode_utf8("segment"@),
            seq![
                keyed_spec(Point::schema_spec(encode_utf8("start"@))),
                keyed_spec(Point::schema_spec(encode_utf8("end"@))),
                keyed_spec(single_spec(encode_utf8("width"@), ScalarKindV::Quantity)),
                keyed_spec(single_spec(encode_utf8("layer"@), ScalarKindV::Text)),
                keyed_spec(single_spec(encode_utf8("net"@), ScalarKindV::Integer)),
                keyed_or_spec(
                    single_spec(encode_utf8("tstamp"@), ScalarKindV::Identifier),
                    single_value_spec(ValueV::Identifier(Identifier { bits: 0 })),
                    suppress_nil,
                ),
            ],
        )
    }

    /// The binding of a segment, with or without suppression of a nil
    /// identifier.
    pub fn schema_with(suppress_nil: bool) -> (s: Schema)
        ensures
            s@ == Self::schema_with_spec(suppress_nil),
    {
        let fields = vec![
            keyed(Point::schema("start")),
            keyed(Point::schema("end")),
            keyed(single("width", ScalarKind::Quantity)),
            keyed(single("layer", ScalarKind::Text)),
            keyed(single("net", ScalarKind::Integer)),
            keyed_or(
                single("tstamp", ScalarKind::Identifier),
                single_value(Value::Identifier(Identifier::nil())),
                suppress_nil,
            ),
        ];
        assert(fields_view(fields@) =~= Self::schema_with_spec(suppress_nil).fields);
        tagged("segment", fields)
    }

    /// The schema of a segment is well formed, under either policy.
    pub proof fn lemma_schema_with(suppress_nil: bool)
        ensures
            schema_well_formed(Self::schema_with_spec(suppress_nil)),
    {
        let schema = Self::schema_with_spec(suppress_nil);
        Point::lemma_schema(encode_utf8("start"@));
        Point::lemma_schema(encode_utf8("end"@));
        lemma_single_well_formed(encode_utf8("width"@), ScalarKindV::Quantity, None, false);
        lemma_single_well_formed(encode_utf8("layer"@), ScalarKindV::Text, None, false);
        lemma_single_well_formed(encode_utf8("net"@), ScalarKindV::Integer, None, false);
        lemma_single_well_formed(
            encode_utf8("tstamp"@),
            ScalarKindV::Identifier,
            Some(single_value_spec(ValueV::Identifier(Identifier { bits: 0 }))),
            suppress_nil,
        );
        reveal_strlit("start");
        lemma_name("start");
        reveal_strlit("end");
        lemma_name("end");
        reveal_strlit("width");
        lemma_name("width");
        reveal_strlit("layer");
        lemma_name("layer");
        reveal_strlit("net");
        lemma_name("net");
        reveal_strlit("tstamp");
        lemma_name("tstamp");
        assert forall|i: int| 0 <= i < schema.fields.len() implies field_well_formed(
            #[trigger] schema.fields[i],
        ) by {}
        assert forall|i: int, j: int| 0 <= i < j < schema.fields.len() implies in_order(
            #[trigger] schema.fields[i],
            #[trigger] schema.fields[j],
        ) by {}
    }

    /// The values of a segment are a record of its schema, under either
    /// policy.
    pub proof fn lemma_conforms(&self, suppress_nil: bool)
        ensures
            record_conforms(self.record_spec(), Self::schema_with_spec(suppress_nil)),
    {
        let schema = Self::schema_with_spec(suppress_nil);
        let values = self.record_spec();
        lemma_single_conforms(
            encode_utf8("width"@),
            ScalarKindV::Quantity,
            ValueV::Quantity(self.width),
            None,
            false,
        );
        lemma_single_conforms(
            encode_utf8("layer"@),
            ScalarKindV::Text,
            text_spec(self.layer.0@),
            None,
            false,
        );
        lemma_single_conforms(
            encode_utf8("net"@),
            ScalarKindV::Integer,
            ValueV::Integer(self.net as u64),
            None,
            false,
        );
        lemma_single_conforms(
            encode_utf8("tstamp"@),
            ScalarKindV::Identifier,
            ValueV::Identifier(self.tstamp),
            Some(single_value_spec(ValueV::Identifier(Identifier { bits: 0 }))),
            suppress_nil,
        );
        self.start.lemma_conforms(encode_utf8("start"@));
        self.end.lemma_conforms(encode_utf8("end"@));
        assert forall|i: int| 0 <= i < schema.fields.len() implies field_conforms(
            #[trigger] schema.fields[i],
            values[i],
        ) by {}
    }

    /// Decoding does not ask whether a nil identifier is suppressed: a node
    /// decodes alike under either policy.
    pub proof fn lemma_policy_apart(node: NodeV)
        ensures
            decode_record_spec(node, Self::schema_with_spec(true)) == decode_record_spec(
                node,
                Self::schema_with_spec(false),
            ),
    {
        let first = Self::schema_with_spec(true).fields;
        let second = Self::schema_with_spec(false).fields;
        assert forall|k: int, l: Seq<NodeV>|
            0 <= k < first.len() implies #[trigger] decode_field_spec(first[k], l)
            == decode_field_spec(second[k], l) by {
            if k < 5 {
                assert(first[k] == second[k]);
            }
        }
        match crate::record::body_of(node, Self::schema_with_spec(true)) {
            Some(children) => {
                lemma_same_decoding(first, second, 0, children);
            },
            None => {},
        }
    }

    /// **A suppressed nil identifier.** A segment whose identifier is nil,
    /// encoded with suppression switched on, is written without its
    /// identifier, and decodes to the same values again: the identifier
    /// comes back as nil.
    pub proof fn lemma_nil_suppressed(&self)
        requires
            self.tstamp.bits == 0,
        ensures
            encode_field_spec(
                Self::schema_with_spec(true).fields[5],
                self.record_spec()[5],
            ) == Seq::<NodeV>::empty(),
            decode_spec::<Segment>(
                encode_record_spec(self.record_spec(), Self::schema_with_spec(true)),
            ) == Ok::<Seq<ValueV>, ErrorV>(self.record_spec()),
    {
        let schema = Self::schema_with_spec(true);
        let vs = self.record_spec();
        Self::lemma_schema_with(true);
        self.lemma_conforms(true);
        self.lemma_record();
        let start = self.start.record_spec();
        let end = self.end.record_spec();
        assert forall|i: int| 0 <= i < start.len() implies value_reads_back(#[trigger] start[i]) by {}
        assert forall|i: int| 0 <= i < end.len() implies value_reads_back(#[trigger] end[i]) by {}
        lemma_single_reads_back(ValueV::Quantity(self.width));
        lemma_single_reads_back(text_spec(self.layer.0@));
        lemma_single_reads_back(ValueV::Integer(self.net as u64));
        assert forall|i: int|
            0 <= i < schema.fields.len() && i < vs.len() implies field_written_reads_back(
            #[trigger] schema.fields[i],
            vs[i],
        ) by {
            if i < 5 {
                assert(value_reads_back(vs[i]));
                lemma_all_read_back_field(schema.fields[i], vs[i]);
            }
        }
        lemma_record_round_trip(vs, schema);
        Self::lemma_policy_apart(encode_record_spec(vs, schema));
    }

    /// Encodes this segment under the given policy for a nil identifier.
    pub fn encode_with(&self, suppress_nil: bool) -> (node: Node)
        ensures
            node@ == encode_record_spec(self.record_spec(), Self::schema_with_spec(suppress_nil)),
    {
        proof {
            self.lemma_conforms(suppress_nil);
        }
        let schema = Self::schema_with(suppress_nil);
        let values = self.to_record();
        encode_record(&values, &schema)
    }
}

impl Record for Segment {
    open spec fn schema_spec() -> SchemaV {
        Self::schema_with_spec(false)
    }

    open spec fn record_spec(&self) -> Seq<ValueV> {
        seq![
            ValueV::Record(self.start.record_spec()),
            ValueV::Record(self.end.record_spec()),
            single_value_spec(ValueV::Quantity(self.width)),
            single_value_spec(text_spec(self.layer.0@)),
            single_value_spec(ValueV::Integer(self.net as u64)),
            single_value_spec(ValueV::Identifier(self.tstamp)),
        ]
    }

    open spec fn admits(values: Seq<ValueV>) -> bool {
        &&& values.len() == 6
        &&& values[0] is Record && Point::admits(values[0]->Record_0)
        &&& values[1] is Record && Point::admits(values[1]->Record_0)
        &&& single_in(values[2]) matches Some(w) && w is Quantity
        &&& single_in(values[3]) matches Some(l) && is_text(l)
        &&& single_in(values[4]) matches Some(n) && n is Integer && n->Integer_0 <= u8::MAX
        &&& single_in(values[5]) matches Some(t) && t is Identifier
    }

    proof fn lemma_schema() {
        Self::lemma_schema_with(false);
    }

    proof fn lemma_record(&self) {
        self.lemma_conforms(false);
        lemma_bytes_of_string(self.layer.0@);
    }

    proof fn lemma_names() {
        let schema = Self::schema_spec();
        encode_utf8_valid_utf8("segment"@);
        Point::lemma_names("start"@);
        Point::lemma_names("end"@);
        lemma_single_utf8("width"@, ScalarKindV::Quantity, None, false);
        lemma_single_utf8("layer"@, ScalarKindV::Text, None, false);
        lemma_single_utf8("net"@, ScalarKindV::Integer, None, false);
        lemma_single_utf8(
            "tstamp"@,
            ScalarKindV::Identifier,
            Some(single_value_spec(ValueV::Identifier(Identifier { bits: 0 }))),
            false,
        );
        assert forall|i: int| 0 <= i < schema.fields.len() implies field_utf8(
            #[trigger] schema.fields[i],
        ) by {}
    }

    proof fn lemma_strings(&self) {
        let vs = self.record_spec();
        self.start.lemma_strings();
        self.end.lemma_strings();
        lemma_single_value_utf8(ValueV::Quantity(self.width));
        lemma_text_utf8(self.layer.0@);
        lemma_single_value_utf8(ValueV::Integer(self.net as u64));
        lemma_single_value_utf8(ValueV::Identifier(self.tstamp));
        assert forall|i: int| 0 <= i < vs.len() implies value_utf8(#[trigger] vs[i]) by {}
    }

    fn schema() -> (s: Schema) {
        Self::schema_with(false)
    }

    fn to_record(&self) -> (values: Vec<Value>) {
        let values = vec![
            record_value(self.start.to_record()),
            record_value(self.end.to_record()),
            single_value(Value::Quantity(self.width)),
            single_value(text_value(self.layer.0.as_str())),
            single_value(Value::Integer(self.net as u64)),
            single_value(Value::Identifier(self.tstamp)),
        ];
        assert(values_view(values@) =~= self.record_spec());
        proof {
            self.lemma_record();
        }
        values
    }

    fn from_record(values: &Vec<Value>) -> (r: Option<Self>) {
        if values.len() != 6 {
            return None;
        }
        let ghost vs = values_view(values@);
        assert(vs[0] == values@[0]@ && vs[1] == values@[1]@ && vs[2] == values@[2]@ && vs[3]
            == values@[3]@ && vs[4] == values@[4]@ && vs[5] == values@[5]@);
        let start = match record_of(&values[0]) {
            Some(items) => match Point::from_record(items) {
                Some(p) => p,
                None => {
                    return None;
                },
            },
            None => {
                return None;
            },
        };
        let end = match record_of(&values[1]) {
            Some(items) => match Point::from_record(items) {
                Some(p) => p,
                None => {
                    return None;
                },
            },
            None => {
                return None;
            },
        };
        let width = match single_of(&values[2]) {
            Some(Value::Quantity(q)) => *q,
            _ => {
                return None;
            },
        };
        let layer = match single_of(&values[3]) {
            Some(v) => match text_of(v) {
                Some(s) => Layer(s),
                None => {
                    return None;
                },
            },
            None => {
                return None;
            },
        };
        let net: u8 = match single_of(&values[4]) {
            Some(Value::Integer(n)) => {
                if *n > u8::MAX as u64 {
                    return None;
                }
                *n as u8
            },
            _ => {
                return None;
            },
        };
        let tstamp = match single_of(&values[5]) {
            Some(Value::Identifier(id)) => *id,
            _ => {
                return None;
            },
        };
        let segment = Segment { start, end, width, layer, net, tstamp };
        assert(segment.record_spec() =~= vs);
        Some(segment)
    }
}

} // verus!
