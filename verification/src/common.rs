//! Syntax that board and symbol documents share.

use vstd::prelude::*;
use vstd::utf8::encode_utf8;
use crate::binding::{
    is_optional_keyed_text, lemma_optional_single_conforms, lemma_optional_text,
    optional_keyed_text, optional_keyed_text_of, optional_keyed_text_spec, optional_single,
    optional_single_spec, positional, required, tagged, tagged_spec, Record,
};
use crate::binding::{lemma_name, lemma_single_well_formed};
use crate::laws::{field_well_formed, in_order, kind_well_formed, schema_well_formed};
use crate::record::field_conforms;
use crate::binding::{lemma_optional_keyed_text_utf8, lemma_single_utf8};
use crate::utf8_laws::{field_utf8, kind_utf8, schema_utf8, value_utf8, values_utf8};
use vstd::utf8::encode_utf8_valid_utf8;
use crate::text::bytes_of;
use crate::quantity::Quantity;
use crate::record::record_conforms;
use crate::schema::{fields_view, FieldV, ScalarKind, ScalarKindV, Schema, SchemaV};
use crate::value::{values_view, Value, ValueV};

verus! {

/// A place on the sheet: two lengths, written after a tag that says what the
/// place is, as in `(start 1 0)` or `(xy 1.5 2)`.
#[derive(Clone, Copy, Debug, PartialEq, Eq, Structural)]
pub struct Point {
    pub x: Quantity,
    pub y: Quantity,
}

impl Point {
    /// The point with the given coordinates.
    pub fn new(x: Quantity, y: Quantity) -> (p: Point)
        ensures
            p.x == x,
            p.y == y,
    {
        Point { x, y }
    }

    /// The binding of a point that is written after the tag `tag`.
    pub open spec fn schema_spec(tag: Seq<u8>) -> SchemaV {
        tagged_spec(tag, seq![required(ScalarKindV::Quantity), required(ScalarKindV::Quantity)])
    }

    /// The generic values of this point.
    pub open spec fn record_spec(&self) -> Seq<ValueV> {
        seq![ValueV::Quantity(self.x), ValueV::Quantity(self.y)]
    }

    /// Whether the values are those of a point.
    pub open spec fn admits(values: Seq<ValueV>) -> bool {
        values.len() == 2 && values[0] is Quantity && values[1] is Quantity
    }

    /// The values of a point are a record of its schema, and a value of a
    /// required keyed field of that schema.
    pub proof fn lemma_conforms(&self, tag: Seq<u8>)
        ensures
            record_conforms(self.record_spec(), Self::schema_spec(tag)),
            crate::record::field_conforms(
                crate::binding::keyed_spec(Self::schema_spec(tag)),
                ValueV::Record(self.record_spec()),
            ),
    {
        let schema = Self::schema_spec(tag);
        let values = self.record_spec();
        assert(record_conforms(values, schema)) by {
            assert forall|i: int| 0 <= i < schema.fields.len() implies crate::record::field_conforms(
                #[trigger] schema.fields[i],
                values[i],
            ) by {}
        }
    }

    /// The schema of a point is well formed, and so is a required keyed
    /// field of it.
    pub proof fn lemma_schema(tag: Seq<u8>)
        ensures
            schema_well_formed(Self::schema_spec(tag)),
            field_well_formed(crate::binding::keyed_spec(Self::schema_spec(tag))),
    {
        let schema = Self::schema_spec(tag);
        assert(schema_well_formed(schema)) by {
            assert forall|i: int| 0 <= i < schema.fields.len() implies field_well_formed(
                #[trigger] schema.fields[i],
            ) by {}
            assert forall|i: int, j: int| 0 <= i < j < schema.fields.len() implies in_order(
                #[trigger] schema.fields[i],
                #[trigger] schema.fields[j],
            ) by {}
        }
    }

    /// The schema of a point under a tag written as a string has valid
    /// UTF-8 for its names.
    pub proof fn lemma_names(tag: Seq<char>)
        ensures
            schema_utf8(Self::schema_spec(encode_utf8(tag))),
    {
        let schema = Self::schema_spec(encode_utf8(tag));
        encode_utf8_valid_utf8(tag);
        assert forall|i: int| 0 <= i < schema.fields.len() implies field_utf8(
            #[trigger] schema.fields[i],
        ) by {}
    }

    /// A point holds no string.
    pub proof fn lemma_strings(&self)
        ensures
            values_utf8(self.record_spec()),
            value_utf8(ValueV::Record(self.record_spec())),
    {
        let vs = self.record_spec();
        assert forall|i: int| 0 <= i < vs.len() implies value_utf8(#[trigger] vs[i]) by {}
    }

    /// The binding of a point that is written after the tag `tag`.
    pub fn schema(tag: &str) -> (s: Schema)
        ensures
            s@ == Self::schema_spec(encode_utf8(tag@)),
    {
        let fields = vec![positional(ScalarKind::Quantity), positional(ScalarKind::Quantity)];
        assert(fields_view(fields@) =~= seq![
            required(ScalarKindV::Quantity),
            required(ScalarKindV::Quantity),
        ]);
        tagged(tag, fields)
    }

    /// The generic values of this point.
    pub fn to_record(&self) -> (values: Vec<Value>)
        ensures
            values_view(values@) == self.record_spec(),
            Self::admits(self.record_spec()),
    {
        let values = vec![Value::Quantity(self.x), Value::Quantity(self.y)];
        assert(values_view(values@) =~= self.record_spec());
        values
    }

    /// The point that the values stand for, where they stand for one.
    pub fn from_record(values: &Vec<Value>) -> (r: Option<Point>)
        ensures
            r is Some <==> Self::admits(values_view(values@)),
            r matches Some(p) ==> p.record_spec() == values_view(values@),
    {
        if values.len() != 2 {
            return None;
        }
        let ghost vs = values_view(values@);
        assert(vs[0] == values@[0]@ && vs[1] == values@[1]@);
        match (&values[0], &values[1]) {
            (Value::Quantity(x), Value::Quantity(y)) => {
                let p = Point { x: *x, y: *y };
                assert(p.record_spec() =~= vs);
                Some(p)
            },
            _ => None,
        }
    }
}

} // verus!

verus! {

/// An ordered list of points: `(pts (xy 1 1) (xy 1 2))`.
#[derive(Clone, Debug, PartialEq, Eq)]
pub struct PointList {
    pub points: Vec<Point>,
}

/// The generic values of a run of points, in order.
pub open spec fn points_spec(points: Seq<Point>) -> Seq<ValueV> {
    Seq::new(points.len(), |i: int| ValueV::Record(points[i].record_spec()))
}

/// Whether every value is that of a point.
pub open spec fn points_admit(values: Seq<ValueV>) -> bool {
    forall|i: int|
        0 <= i < values.len() ==> (#[trigger] values[i]) is Record && Point::admits(
            values[i]->Record_0,
        )
}

impl PointList {
    /// The list of the given points.
    pub fn new(points: Vec<Point>) -> (l: PointList)
        ensures
            l.points@ == points@,
    {
        PointList { points }
    }

    /// The binding of a list of points: after the tag `pts`, a point under
    /// the tag `xy` for each.
    pub open spec fn schema_spec() -> SchemaV {
        tagged_spec(
            encode_utf8("pts"@),
            seq![FieldV::Repeated { schema: Point::schema_spec(encode_utf8("xy"@)) }],
        )
    }

    /// The generic values of this list.
    pub open spec fn record_spec(&self) -> Seq<ValueV> {
        seq![ValueV::Sequence(points_spec(self.points@))]
    }

    /// Whether the values are those of a list of points.
    pub open spec fn admits(values: Seq<ValueV>) -> bool {
        values.len() == 1 && values[0] is Sequence && points_admit(values[0]->Sequence_0)
    }

    /// The values of a list of points are a record of its schema.
    pub proof fn lemma_conforms(&self)
        ensures
            record_conforms(self.record_spec(), Self::schema_spec()),
    {
        let schema = Self::schema_spec();
        let values = self.record_spec();
        let items = points_spec(self.points@);
        let xy = Point::schema_spec(encode_utf8("xy"@));
        assert forall|i: int| 0 <= i < items.len() implies (#[trigger] items[i]) is Record
            && record_conforms(items[i]->Record_0, xy) by {
            self.points@[i].lemma_conforms(encode_utf8("xy"@));
        }
        assert forall|i: int| 0 <= i < schema.fields.len() implies crate::record::field_conforms(
            #[trigger] schema.fields[i],
            values[i],
        ) by {}
    }

    /// The schema of a list of points is well formed, and so is a required
    /// keyed field of it.
    pub proof fn lemma_schema()
        ensures
            schema_well_formed(Self::schema_spec()),
            field_well_formed(crate::binding::keyed_spec(Self::schema_spec())),
    {
        let schema = Self::schema_spec();
        Point::lemma_schema(encode_utf8("xy"@));
        assert(schema_well_formed(schema)) by {
            assert forall|i: int| 0 <= i < schema.fields.len() implies field_well_formed(
                #[trigger] schema.fields[i],
            ) by {}
            assert forall|i: int, j: int| 0 <= i < j < schema.fields.len() implies in_order(
                #[trigger] schema.fields[i],
                #[trigger] schema.fields[j],
            ) by {}
        }
    }

    /// The schema of a list of points has valid UTF-8 for its names.
    pub proof fn lemma_names()
        ensures
            schema_utf8(Self::schema_spec()),
    {
        let schema = Self::schema_spec();
        Point::lemma_names("xy"@);
        encode_utf8_valid_utf8("pts"@);
        assert forall|i: int| 0 <= i < schema.fields.len() implies field_utf8(
            #[trigger] schema.fields[i],
        ) by {}
    }

    /// A list of points holds no string.
    pub proof fn lemma_strings(&self)
        ensures
            values_utf8(self.record_spec()),
            value_utf8(ValueV::Record(self.record_spec())),
    {
        let vs = self.record_spec();
        let items = points_spec(self.points@);
        assert forall|i: int| 0 <= i < items.len() implies value_utf8(#[trigger] items[i]) by {
            self.points@[i].lemma_strings();
        }
        assert forall|i: int| 0 <= i < vs.len() implies value_utf8(#[trigger] vs[i]) by {}
    }

    /// A list of points holds no identifier.
    pub proof fn lemma_reads_back(&self)
        ensures
            crate::laws::value_reads_back(ValueV::Record(self.record_spec())),
    {
        let vs = self.record_spec();
        let items = points_spec(self.points@);
        assert forall|i: int| 0 <= i < items.len() implies crate::laws::value_reads_back(
            #[trigger] items[i],
        ) by {
            let point = self.points@[i].record_spec();
            assert forall|j: int| 0 <= j < point.len() implies crate::laws::value_reads_back(
                #[trigger] point[j],
            ) by {}
        }
        assert forall|i: int| 0 <= i < vs.len() implies crate::laws::value_reads_back(
            #[trigger] vs[i],
        ) by {}
    }

    /// The binding of a list of points.
    pub fn schema() -> (s: Schema)
        ensures
            s@ == Self::schema_spec(),
    {
        let fields = vec![crate::schema::Field::Repeated { schema: Point::schema("xy") }];
        assert(fields_view(fields@) =~= Self::schema_spec().fields);
        tagged("pts", fields)
    }

    /// The generic values of this list.
    pub fn to_record(&self) -> (values: Vec<Value>)
        ensures
            values_view(values@) == self.record_spec(),
            record_conforms(self.record_spec(), Self::schema_spec()),
            Self::admits(self.record_spec()),
    {
        let mut items: Vec<Value> = Vec::new();
        let mut i: usize = 0;
        while i < self.points.len()
            invariant
                i <= self.points@.len(),
                items@.len() == i,
                forall|k: int|
                    0 <= k < i ==> (#[trigger] items@[k])@ == ValueV::Record(
                        self.points@[k].record_spec(),
                    ),
            decreases self.points@.len() - i,
        {
            let point = self.points[i];
            items.push(crate::binding::record_value(point.to_record()));
            i += 1;
        }
        assert(values_view(items@) =~= points_spec(self.points@));
        let values = vec![crate::binding::sequence_value(items)];
        assert(values_view(values@) =~= self.record_spec());
        proof {
            self.lemma_conforms();
        }
        values
    }

    /// The list of points that the values stand for, where they stand for
    /// one.
    pub fn from_record(values: &Vec<Value>) -> (r: Option<PointList>)
        ensures
            r is Some <==> Self::admits(values_view(values@)),
            r matches Some(l) ==> l.record_spec() == values_view(values@),
    {
        if values.len() != 1 {
            return None;
        }
        let ghost vs = values_view(values@);
        assert(vs[0] == values@[0]@);
        let items = match crate::binding::sequence_of(&values[0]) {
            Some(items) => items,
            None => {
                return None;
            },
        };
        let ghost elements = values_view(items@);
        let mut points: Vec<Point> = Vec::new();
        let mut i: usize = 0;
        while i < items.len()
            invariant
                i <= items@.len(),
                points@.len() == i,
                elements == values_view(items@),
                vs == values_view(values@),
                vs.len() == 1,
                vs[0] == ValueV::Sequence(elements),
                forall|k: int|
                    0 <= k < i ==> (#[trigger] elements[k]) is Record && Point::admits(
                        elements[k]->Record_0,
                    ),
                forall|k: int|
                    0 <= k < i ==> ValueV::Record((#[trigger] points@[k]).record_spec())
                        == elements[k],
            decreases items@.len() - i,
        {
            assert(elements[i as int] == items@[i as int]@);
            let point = match crate::binding::record_of(&items[i]) {
                Some(fields) => match Point::from_record(fields) {
                    Some(p) => p,
                    None => {
                        return None;
                    },
                },
                None => {
                    return None;
                },
            };
            points.push(point);
            i += 1;
        }
        let list = PointList { points };
        assert(points_spec(list.points@) =~= elements);
        assert(list.record_spec() =~= vs);
        Some(list)
    }
}

} // verus!

verus! {

/// The size of the sheet.
#[derive(Clone, Copy, Debug, PartialEq, Eq, Structural)]
pub enum PaperSize {
    A0,
    A1,
    A2,
    A3,
    A4,
    A5,
    A,
    B,
    C,
    D,
    E,
}

impl PaperSize {
    /// The place of a size among the spellings.
    pub open spec fn index_spec(self) -> usize {
        match self {
            PaperSize::A0 => 0,
            PaperSize::A1 => 1,
            PaperSize::A2 => 2,
            PaperSize::A3 => 3,
            PaperSize::A4 => 4,
            PaperSize::A5 => 5,
            PaperSize::A => 6,
            PaperSize::B => 7,
            PaperSize::C => 8,
            PaperSize::D => 9,
            PaperSize::E => 10,
        }
    }

    /// The sizes as a scalar: one spelling for each, and `A4` for a symbol
    /// that is none of them.
    pub open spec fn kind_spec() -> ScalarKindV {
        ScalarKindV::Symbol {
            spellings: seq![
                encode_utf8("A0"@),
                encode_utf8("A1"@),
                encode_utf8("A2"@),
                encode_utf8("A3"@),
                encode_utf8("A4"@),
                encode_utf8("A5"@),
                encode_utf8("A"@),
                encode_utf8("B"@),
                encode_utf8("C"@),
                encode_utf8("D"@),
                encode_utf8("E"@),
            ],
            fallback: 4,
        }
    }

    /// No two sizes share a spelling.
    pub proof fn lemma_kind()
        ensures
            kind_well_formed(Self::kind_spec()),
    {
        reveal_strlit("A0");
        lemma_name("A0");
        reveal_strlit("A1");
        lemma_name("A1");
        reveal_strlit("A2");
        lemma_name("A2");
        reveal_strlit("A3");
        lemma_name("A3");
        reveal_strlit("A4");
        lemma_name("A4");
        reveal_strlit("A5");
        lemma_name("A5");
        reveal_strlit("A");
        lemma_name("A");
        reveal_strlit("B");
        lemma_name("B");
        reveal_strlit("C");
        lemma_name("C");
        reveal_strlit("D");
        lemma_name("D");
        reveal_strlit("E");
        lemma_name("E");
        let spellings = Self::kind_spec()->spellings;
        assert forall|i: int, j: int| 0 <= i < j < spellings.len() implies #[trigger] spellings[i]
            != #[trigger] spellings[j] by {
            if spellings[i].len() == spellings[j].len() {
                if spellings[i].len() == 2 {
                    assert(spellings[i][1] != spellings[j][1]);
                } else {
                    assert(spellings[i][0] != spellings[j][0]);
                }
            }
        }
    }

    /// Every spelling is valid UTF-8.
    pub proof fn lemma_kind_utf8()
        ensures
            kind_utf8(Self::kind_spec()),
    {
        encode_utf8_valid_utf8("A0"@);
        encode_utf8_valid_utf8("A1"@);
        encode_utf8_valid_utf8("A2"@);
        encode_utf8_valid_utf8("A3"@);
        encode_utf8_valid_utf8("A4"@);
        encode_utf8_valid_utf8("A5"@);
        encode_utf8_valid_utf8("A"@);
        encode_utf8_valid_utf8("B"@);
        encode_utf8_valid_utf8("C"@);
        encode_utf8_valid_utf8("D"@);
        encode_utf8_valid_utf8("E"@);
        let spellings = Self::kind_spec()->spellings;
        assert forall|i: int| 0 <= i < spellings.len() implies vstd::utf8::valid_utf8(
            #[trigger] spellings[i],
        ) by {}
    }

    /// The place of this size among the spellings.
    pub fn index(self) -> (i: usize)
        ensures
            i == self.index_spec(),
    {
        match self {
            PaperSize::A0 => 0,
            PaperSize::A1 => 1,
            PaperSize::A2 => 2,
            PaperSize::A3 => 3,
            PaperSize::A4 => 4,
            PaperSize::A5 => 5,
            PaperSize::A => 6,
            PaperSize::B => 7,
            PaperSize::C => 8,
            PaperSize::D => 9,
            PaperSize::E => 10,
        }
    }

    /// The size at a place among the spellings.
    pub fn from_index(i: usize) -> (r: Option<PaperSize>)
        ensures
            r is Some <==> i < 11,
            r matches Some(s) ==> s.index_spec() == i,
    {
        if i == 0 {
            Some(PaperSize::A0)
        } else if i == 1 {
            Some(PaperSize::A1)
        } else if i == 2 {
            Some(PaperSize::A2)
        } else if i == 3 {
            Some(PaperSize::A3)
        } else if i == 4 {
            Some(PaperSize::A4)
        } else if i == 5 {
            Some(PaperSize::A5)
        } else if i == 6 {
            Some(PaperSize::A)
        } else if i == 7 {
            Some(PaperSize::B)
        } else if i == 8 {
            Some(PaperSize::C)
        } else if i == 9 {
            Some(PaperSize::D)
        } else if i == 10 {
            Some(PaperSize::E)
        } else {
            None
        }
    }

    /// The sizes as a scalar.
    pub fn kind() -> (k: ScalarKind)
        ensures
            k@ == Self::kind_spec(),
    {
        let spellings = vec![
            bytes_of("A0"),
            bytes_of("A1"),
            bytes_of("A2"),
            bytes_of("A3"),
            bytes_of("A4"),
            bytes_of("A5"),
            bytes_of("A"),
            bytes_of("B"),
            bytes_of("C"),
            bytes_of("D"),
            bytes_of("E"),
        ];
        assert(crate::schema::texts_view(spellings@) =~= Self::kind_spec()->spellings);
        ScalarKind::Symbol { spellings, fallback: 4 }
    }
}

/// The sheet: `(paper A4)`, or `(paper A4 portrait)` where it stands
/// upright.
#[derive(Clone, Copy, Debug, PartialEq, Eq, Structural)]
pub struct Paper {
    pub size: PaperSize,
    pub portrait: bool,
}

impl Record for Paper {
    open spec fn schema_spec() -> SchemaV {
        tagged_spec(
            encode_utf8("paper"@),
            seq![
                required(PaperSize::kind_spec()),
                FieldV::Flag { keyword: encode_utf8("portrait"@) },
            ],
        )
    }

    open spec fn record_spec(&self) -> Seq<ValueV> {
        seq![ValueV::Variant(self.size.index_spec()), ValueV::Flag(self.portrait)]
    }

    open spec fn admits(values: Seq<ValueV>) -> bool {
        &&& values.len() == 2
        &&& values[0] is Variant && values[0]->Variant_0 < 11
        &&& values[1] is Flag
    }

    proof fn lemma_schema() {
        let schema = Self::schema_spec();
        PaperSize::lemma_kind();
        assert forall|i: int| 0 <= i < schema.fields.len() implies field_well_formed(
            #[trigger] schema.fields[i],
        ) by {}
        assert forall|i: int, j: int| 0 <= i < j < schema.fields.len() implies in_order(
            #[trigger] schema.fields[i],
            #[trigger] schema.fields[j],
        ) by {}
    }

    proof fn lemma_record(&self) {
        let schema = Self::schema_spec();
        let vs = self.record_spec();
        assert forall|k: int| 0 <= k < schema.fields.len() implies field_conforms(
            #[trigger] schema.fields[k],
            vs[k],
        ) by {}
    }

    proof fn lemma_names() {
        let schema = Self::schema_spec();
        encode_utf8_valid_utf8("paper"@);
        encode_utf8_valid_utf8("portrait"@);
        PaperSize::lemma_kind_utf8();
        assert forall|i: int| 0 <= i < schema.fields.len() implies field_utf8(
            #[trigger] schema.fields[i],
        ) by {}
    }

    proof fn lemma_strings(&self) {
        let vs = self.record_spec();
        assert forall|i: int| 0 <= i < vs.len() implies value_utf8(#[trigger] vs[i]) by {}
    }

    fn schema() -> (s: Schema) {
        let fields = vec![
            positional(PaperSize::kind()),
            crate::schema::Field::Flag { keyword: bytes_of("portrait") },
        ];
        assert(fields_view(fields@) =~= Self::schema_spec().fields);
        tagged("paper", fields)
    }

    fn to_record(&self) -> (values: Vec<Value>) {
        let values = vec![Value::Variant(self.size.index()), Value::Flag(self.portrait)];
        assert(values_view(values@) =~= self.record_spec());
        proof {
            self.lemma_record();
        }
        values
    }

    fn from_record(values: &Vec<Value>) -> (r: Option<Self>) {
        if values.len() != 2 {
            return None;
        }
        let ghost vs = values_view(values@);
        assert(vs[0] == values@[0]@ && vs[1] == values@[1]@);
        let size = match &values[0] {
            Value::Variant(i) => match PaperSize::from_index(*i) {
                Some(s) => s,
                None => {
                    return None;
                },
            },
            _ => {
                return None;
            },
        };
        let portrait = match &values[1] {
            Value::Flag(b) => *b,
            _ => {
                return None;
            },
        };
        let paper = Paper { size, portrait };
        assert(paper.record_spec() =~= vs);
        Some(paper)
    }
}

/// What the title block of the sheet says: `(title_block (title "Minnow"))`.
#[derive(Clone, Debug, Default, PartialEq, Eq)]
pub struct TitleBlock {
    pub title: Option<String>,
    pub date: Option<String>,
    pub revision: Option<String>,
    pub company: Option<String>,
}

impl Record for TitleBlock {
    open spec fn schema_spec() -> SchemaV {
        tagged_spec(
            encode_utf8("title_block"@),
            seq![
                optional_single_spec(encode_utf8("title"@), ScalarKindV::Text),
                optional_single_spec(encode_utf8("date"@), ScalarKindV::Text),
                optional_single_spec(encode_utf8("rev"@), ScalarKindV::Text),
                optional_single_spec(encode_utf8("company"@), ScalarKindV::Text),
            ],
        )
    }

    open spec fn record_spec(&self) -> Seq<ValueV> {
        seq![
            optional_keyed_text_spec(self.title),
            optional_keyed_text_spec(self.date),
            optional_keyed_text_spec(self.revision),
            optional_keyed_text_spec(self.company),
        ]
    }

    open spec fn admits(values: Seq<ValueV>) -> bool {
        &&& values.len() == 4
        &&& is_optional_keyed_text(values[0])
        &&& is_optional_keyed_text(values[1])
        &&& is_optional_keyed_text(values[2])
        &&& is_optional_keyed_text(values[3])
    }

    proof fn lemma_schema() {
        let schema = Self::schema_spec();
        lemma_single_well_formed(encode_utf8("title"@), ScalarKindV::Text, Some(ValueV::Absent), true);
        lemma_single_well_formed(encode_utf8("date"@), ScalarKindV::Text, Some(ValueV::Absent), true);
        lemma_single_well_formed(encode_utf8("rev"@), ScalarKindV::Text, Some(ValueV::Absent), true);
        lemma_single_well_formed(encode_utf8("company"@), ScalarKindV::Text, Some(ValueV::Absent), true);
        reveal_strlit("title");
        lemma_name("title");
        reveal_strlit("date");
        lemma_name("date");
        reveal_strlit("rev");
        lemma_name("rev");
        reveal_strlit("company");
        lemma_name("company");
        assert forall|i: int| 0 <= i < schema.fields.len() implies field_well_formed(
            #[trigger] schema.fields[i],
        ) by {}
        assert forall|i: int, j: int| 0 <= i < j < schema.fields.len() implies in_order(
            #[trigger] schema.fields[i],
            #[trigger] schema.fields[j],
        ) by {}
    }

    proof fn lemma_record(&self) {
        let schema = Self::schema_spec();
        let vs = self.record_spec();
        lemma_optional_text(self.title);
        lemma_optional_text(self.date);
        lemma_optional_text(self.revision);
        lemma_optional_text(self.company);
        lemma_optional_single_conforms(encode_utf8("title"@), ScalarKindV::Text, vs[0]);
        lemma_optional_single_conforms(encode_utf8("date"@), ScalarKindV::Text, vs[1]);
        lemma_optional_single_conforms(encode_utf8("rev"@), ScalarKindV::Text, vs[2]);
        lemma_optional_single_conforms(encode_utf8("company"@), ScalarKindV::Text, vs[3]);
        assert forall|k: int| 0 <= k < schema.fields.len() implies field_conforms(
            #[trigger] schema.fields[k],
            vs[k],
        ) by {}
    }

    proof fn lemma_names() {
        let schema = Self::schema_spec();
        encode_utf8_valid_utf8("title_block"@);
        lemma_single_utf8("title"@, ScalarKindV::Text, Some(ValueV::Absent), true);
        lemma_single_utf8("date"@, ScalarKindV::Text, Some(ValueV::Absent), true);
        lemma_single_utf8("rev"@, ScalarKindV::Text, Some(ValueV::Absent), true);
        lemma_single_utf8("company"@, ScalarKindV::Text, Some(ValueV::Absent), true);
        assert forall|i: int| 0 <= i < schema.fields.len() implies field_utf8(
            #[trigger] schema.fields[i],
        ) by {}
    }

    proof fn lemma_strings(&self) {
        let vs = self.record_spec();
        lemma_optional_keyed_text_utf8(self.title);
        lemma_optional_keyed_text_utf8(self.date);
        lemma_optional_keyed_text_utf8(self.revision);
        lemma_optional_keyed_text_utf8(self.company);
        assert forall|i: int| 0 <= i < vs.len() implies value_utf8(#[trigger] vs[i]) by {}
    }

    fn schema() -> (s: Schema) {
        let fields = vec![
            optional_single("title", ScalarKind::Text),
            optional_single("date", ScalarKind::Text),
            optional_single("rev", ScalarKind::Text),
            optional_single("company", ScalarKind::Text),
        ];
        assert(fields_view(fields@) =~= Self::schema_spec().fields);
        tagged("title_block", fields)
    }

    fn to_record(&self) -> (values: Vec<Value>) {
        let values = vec![
            optional_keyed_text(&self.title),
            optional_keyed_text(&self.date),
            optional_keyed_text(&self.revision),
            optional_keyed_text(&self.company),
        ];
        assert(values_view(values@) =~= self.record_spec());
        proof {
            self.lemma_record();
        }
        values
    }

    fn from_record(values: &Vec<Value>) -> (r: Option<Self>) {
        if values.len() != 4 {
            return None;
        }
        let ghost vs = values_view(values@);
        assert(vs[0] == values@[0]@ && vs[1] == values@[1]@ && vs[2] == values@[2]@ && vs[3]
            == values@[3]@);
        let title = match optional_keyed_text_of(&values[0]) {
            Some(o) => o,
            None => {
                return None;
            },
        };
        let date = match optional_keyed_text_of(&values[1]) {
            Some(o) => o,
            None => {
                return None;
            },
        };
        let revision = match optional_keyed_text_of(&values[2]) {
            Some(o) => o,
            None => {
                return None;
            },
        };
        let company = match optional_keyed_text_of(&values[3]) {
            Some(o) => o,
            None => {
                return None;
            },
        };
        let block = TitleBlock { title, date, revision, company };
        assert(block.record_spec() =~= vs);
        Some(block)
    }
}

} // verus!
