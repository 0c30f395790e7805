//! A curve through control points:
//! `(fp_curve (pts (xy 1 1) (xy 1 2) (xy 2 2) (xy 2 1)) (width 0.12) (tstamp "..."))`.

use vstd::prelude::*;
use vstd::utf8::encode_utf8;
use crate::binding::{
    is_text, keyed, keyed_or, keyed_or_spec, keyed_spec, lemma_optional_single_conforms,
    lemma_single_conforms, optional_single, optional_single_spec, record_of, record_value, single,
    single_in, single_of, single_spec, single_value, single_value_spec, tagged, tagged_spec,
    text_of, text_spec, text_value, Record,
};
use crate::binding::{lemma_name, lemma_single_well_formed};
use crate::binding::{lemma_single_utf8, lemma_single_value_utf8, lemma_text_utf8};
use crate::utf8_laws::{field_utf8, value_utf8};
use vstd::utf8::encode_utf8_valid_utf8;
use crate::binding::decode_spec;
use crate::error::ErrorV;
use crate::laws::{
    field_written_reads_back, lemma_all_read_back_field, lemma_record_round_trip,
    lemma_same_decoding, value_reads_back,
};
use crate::record::{decode_field_spec, decode_record_spec, encode_field_spec};
use crate::tree::NodeV;
use crate::binding::lemma_single_reads_back;
use crate::board::layer::Layer;
use crate::encoder::encode_record;
use crate::laws::{field_well_formed, in_order, schema_well_formed};
use crate::common::PointList;
use crate::identifier::Identifier;
use crate::quantity::Quantity;
use crate::record::{encode_record_spec, field_conforms, record_conforms};
use crate::tree::Node;
use crate::schema::{fields_view, ScalarKind, ScalarKindV, Schema, SchemaV};
use crate::text::lemma_bytes_of_string;
use crate::value::{values_view, Value, ValueV};

verus! {

/// A curve through a list of control points.
#[derive(Clone, Debug, PartialEq, Eq)]
pub struct Curve {
    pub pts: PointList,
    pub layer: Option<Layer>,
    pub width: Quantity,
    /// The identifier of the curve; nil where the document gives none.
    pub tstamp: Identifier,
}

/// The generic value of an optional layer.
pub open spec fn optional_layer_spec(layer: Option<Layer>) -> ValueV {
    match layer {
        Some(l) => single_value_spec(text_spec(l.0@)),
        None => ValueV::Absent,
    }
}

impl Curve {
    /// The binding of a curve. With `suppress_nil`, a nil identifier is left
    /// out of the output; without, every curve is written with its
    /// identifier.
    pub open spec fn schema_with_spec(suppress_nil: bool) -> SchemaV {
        tagged_spec(
            encode_utf8("fp_curve"@),
            seq![
                keyed_spec(PointList::schema_spec()),
                optional_single_spec(encode_utf8("layer"@), ScalarKindV::Text),
                keyed_spec(single_spec(encode_utf8("width"@), ScalarKindV::Quantity)),
                keyed_or_spec(
                    single_spec(encode_utf8("tstamp"@), ScalarKindV::Identifier),
                    single_value_spec(ValueV::Identifier(Identifier { bits: 0 })),
                    suppress_nil,
                ),
            ],
        )
    }

    /// The binding of a curve, with or without suppression of a nil
    /// identifier.
    pub fn schema_with(suppress_nil: bool) -> (s: Schema)
        ensures
            s@ == Self::schema_with_spec(suppress_nil),
    {
        let fields = vec![
            keyed(PointList::schema()),
            optional_single("layer", ScalarKind::Text),
            keyed(single("width", ScalarKind::Quantity)),
            keyed_or(
                single("tstamp", ScalarKind::Identifier),
                single_value(Value::Identifier(Identifier::nil())),
                suppress_nil,
            ),
        ];
        assert(fields_view(fields@) =~= Self::schema_with_spec(suppress_nil).fields);
        tagged("fp_curve", fields)
    }

    /// The schema of a curve is well formed, under either policy.
    pub proof fn lemma_schema_with(suppress_nil: bool)
        ensures
            schema_well_formed(Self::schema_with_spec(suppress_nil)),
    {
        let schema = Self::schema_with_spec(suppress_nil);
        PointList::lemma_schema();
        lemma_single_well_formed(
            encode_utf8("layer"@),
            ScalarKindV::Text,
            Some(ValueV::Absent),
            true,
        );
        lemma_single_well_formed(encode_utf8("width"@), ScalarKindV::Quantity, None, false);
        lemma_single_well_formed(
            encode_utf8("tstamp"@),
            ScalarKindV::Identifier,
            Some(single_value_spec(ValueV::Identifier(Identifier { bits: 0 }))),
            suppress_nil,
        );
        reveal_strlit("pts");
        lemma_name("pts");
        reveal_strlit("layer");
        lemma_name("layer");
        reveal_strlit("width");
        lemma_name("width");
        reveal_strlit("tstamp");
        lemma_name("tstamp");
        assert forall|i: int| 0 <= i < schema.fields.len() implies field_well_formed(
            #[trigger] schema.fields[i],
        ) by {}
        assert forall|i: int, j: int| 0 <= i < j < schema.fields.len() implies in_order(
            #[trigger] schema.fields[i],
            #[trigger] schema.fields[j],
        ) by {}
    }

    /// The values of a curve are a record of its schema, under either
    /// policy.
    pub proof fn lemma_conforms(&self, suppress_nil: bool)
        ensures
            record_conforms(self.record_spec(), Self::schema_with_spec(suppress_nil)),
    {
        let schema = Self::schema_with_spec(suppress_nil);
        let vs = self.record_spec();
        self.pts.lemma_conforms();
        if self.layer is Some {
            let layer = self.layer->0;
            lemma_bytes_of_string(layer.0@);
        }
        lemma_optional_single_conforms(encode_utf8("layer"@), ScalarKindV::Text, vs[1]);
        lemma_single_conforms(
            encode_utf8("width"@),
            ScalarKindV::Quantity,
            ValueV::Quantity(self.width),
            None,
            false,
        );
        lemma_single_conforms(
            encode_utf8("tstamp"@),
            ScalarKindV::Identifier,
            ValueV::Identifier(self.tstamp),
            Some(single_value_spec(ValueV::Identifier(Identifier { bits: 0 }))),
            suppress_nil,
        );
        assert forall|k: int| 0 <= k < schema.fields.len() implies field_conforms(
            #[trigger] schema.fields[k],
            vs[k],
        ) by {}
    }

    /// Decoding does not ask whether a nil identifier is suppressed: a node
    /// decodes alike under either policy.
    pub proof fn lemma_policy_apart(node: NodeV)
        ensures
            decode_record_spec(node, Self::schema_with_spec(true)) == decode_record_spec(
                node,
                Self::schema_with_spec(false),
            ),
    {
        let first = Self::schema_with_spec(true).fields;
        let second = Self::schema_with_spec(false).fields;
        assert forall|k: int, l: Seq<NodeV>|
            0 <= k < first.len() implies #[trigger] decode_field_spec(first[k], l)
            == decode_field_spec(second[k], l) by {
            if k < 3 {
                assert(first[k] == second[k]);
            }
        }
        match crate::record::body_of(node, Self::schema_with_spec(true)) {
            Some(children) => {
                lemma_same_decoding(first, second, 0, children);
            },
            None => {},
        }
    }

    /// **A suppressed nil identifier.** A curve whose identifier is nil,
    /// encoded with suppression switched on, is written without its
    /// identifier, and decodes to the same values again: the identifier
    /// comes back as nil.
    pub proof fn lemma_nil_suppressed(&self)
        requires
            self.tstamp.bits == 0,
        ensures
            encode_field_spec(
                Self::schema_with_spec(true).fields[3],
                self.record_spec()[3],
            ) == Seq::<NodeV>::empty(),
            decode_spec::<Curve>(
                encode_record_spec(self.record_spec(), Self::schema_with_spec(true)),
            ) == Ok::<Seq<ValueV>, ErrorV>(self.record_spec()),
    {
        let schema = Self::schema_with_spec(true);
        let vs = self.record_spec();
        Self::lemma_schema_with(true);
        self.lemma_conforms(true);
        self.lemma_record();
        self.pts.lemma_reads_back();
        if self.layer is Some {
            let layer = self.layer->0;
            lemma_single_reads_back(text_spec(layer.0@));
        }
        lemma_single_reads_back(ValueV::Quantity(self.width));
        assert forall|i: int|
            0 <= i < schema.fields.len() && i < vs.len() implies field_written_reads_back(
            #[trigger] schema.fields[i],
            vs[i],
        ) by {
            if i < 3 {
                assert(value_reads_back(vs[i]));
                lemma_all_read_back_field(schema.fields[i], vs[i]);
            }
        }
        lemma_record_round_trip(vs, schema);
        Self::lemma_policy_apart(encode_record_spec(vs, schema));
    }

    /// Encodes this curve under the given policy for a nil identifier.
    pub fn encode_with(&self, suppress_nil: bool) -> (node: Node)
        ensures
            node@ == encode_record_spec(self.record_spec(), Self::schema_with_spec(suppress_nil)),
    {
        proof {
            self.lemma_conforms(suppress_nil);
        }
        let schema = Self::schema_with(suppress_nil);
        let values = self.to_record();
        encode_record(&values, &schema)
    }
}

impl Record for Curve {
    open spec fn schema_spec() -> SchemaV {
        Self::schema_with_spec(false)
    }

    open spec fn record_spec(&self) -> Seq<ValueV> {
        seq![
            ValueV::Record(self.pts.record_spec()),
            optional_layer_spec(self.layer),
            single_value_spec(ValueV::Quantity(self.width)),
            single_value_spec(ValueV::Identifier(self.tstamp)),
        ]
    }

    open spec fn admits(values: Seq<ValueV>) -> bool {
        &&& values.len() == 4
        &&& values[0] is Record && PointList::admits(values[0]->Record_0)
        &&& (values[1] is Absent || (single_in(values[1]) matches Some(l) && is_text(l)))
        &&& single_in(values[2]) matches Some(w) && w is Quantity
        &&& single_in(values[3]) matches Some(t) && t is Identifier
    }

    proof fn lemma_schema() {
        Self::lemma_schema_with(false);
    }

    proof fn lemma_record(&self) {
        self.lemma_conforms(false);
        if self.layer is Some {
            let layer = self.layer->0;
            lemma_bytes_of_string(layer.0@);
        }
    }

    proof fn lemma_names() {
        let schema = Self::schema_spec();
        encode_utf8_valid_utf8("fp_curve"@);
        PointList::lemma_names();
        lemma_single_utf8("layer"@, ScalarKindV::Text, Some(ValueV::Absent), true);
        lemma_single_utf8("width"@, ScalarKindV::Quantity, None, false);
        lemma_single_utf8(
            "tstamp"@,
            ScalarKindV::Identifier,
            Some(single_value_spec(ValueV::Identifier(Identifier { bits: 0 }))),
            false,
        );
        assert forall|i: int| 0 <= i < schema.fields.len() implies field_utf8(
            #[trigger] schema.fields[i],
        ) by {}
    }

    proof fn lemma_strings(&self) {
        let vs = self.record_spec();
        self.pts.lemma_strings();
        if self.layer is Some {
            let layer = self.layer->0;
            lemma_text_utf8(layer.0@);
        }
        lemma_single_value_utf8(ValueV::Quantity(self.width));
        lemma_single_value_utf8(ValueV::Identifier(self.tstamp));
        assert forall|i: int| 0 <= i < vs.len() implies value_utf8(#[trigger] vs[i]) by {}
    }

    fn schema() -> (s: Schema) {
        Self::schema_with(false)
    }

    fn to_record(&self) -> (values: Vec<Value>) {
        let layer = match &self.layer {
            Some(l) => single_value(text_value(l.0.as_str())),
            None => Value::Absent,
        };
        let values = vec![
            record_value(self.pts.to_record()),
            layer,
            single_value(Value::Quantity(self.width)),
            single_value(Value::Identifier(self.tstamp)),
        ];
        assert(values_view(values@) =~= self.record_spec());
        proof {
            self.lemma_record();
        }
        values
    }

    fn from_record(values: &Vec<Value>) -> (r: Option<Self>) {
        if values.len() != 4 {
            return None;
        }
        let ghost vs = values_view(values@);
        assert(vs[0] == values@[0]@ && vs[1] == values@[1]@ && vs[2] == values@[2]@ && vs[3]
            == values@[3]@);
        let pts = match record_of(&values[0]) {
            Some(items) => match PointList::from_record(items) {
                Some(l) => l,
                None => {
                    return None;
                },
            },
            None => {
                return None;
            },
        };
        let layer = match &values[1] {
            Value::Absent => None,
            other => match single_of(other) {
                Some(v) => match text_of(v) {
                    Some(s) => Some(Layer(s)),
                    None => {
                        return None;
                    },
                },
                None => {
                    return None;
                },
            },
        };
        let width = match single_of(&values[2]) {
            Some(Value::Quantity(q)) => *q,
            _ => {
                return None;
            },
        };
        let tstamp = match single_of(&values[3]) {
            Some(Value::Identifier(id)) => *id,
            _ => {
                return None;
            },
        };
        let curve = Curve { pts, layer, width, tstamp };
        assert(curve.record_spec() =~= vs);
        Some(curve)
    }
}

} // verus!
