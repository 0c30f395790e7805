//! **Symbol Library**
//!
//! The records that make up a symbol library document.

use vstd::prelude::*;
use vstd::utf8::encode_utf8;
use crate::binding::{
    from_text, from_text_spec, is_text, keyed, keyed_spec, lemma_single_conforms, record_of,
    record_value, single, single_in, single_of, single_spec, single_value, single_value_spec,
    tagged, tagged_spec, text_of, text_spec, text_value, to_text_spec, Record,
};
use crate::binding::{lemma_name, lemma_single_well_formed};
use crate::binding::{lemma_single_utf8, lemma_text_utf8};
use crate::utf8_laws::{field_utf8, value_utf8};
use vstd::utf8::encode_utf8_valid_utf8;
use crate::binding::to_string_of;
use crate::error::{CodecError, ErrorV};
use crate::laws::{field_well_formed, in_order};
use crate::record::field_conforms;
use crate::schema::{fields_view, ScalarKind, ScalarKindV, Schema, SchemaV};
use crate::value::{values_view, Value, ValueV};

verus! {

/// The format revision of a symbol library, a date written as one number.
#[derive(Clone, Copy, Debug, PartialEq, Eq, Structural)]
pub struct Version(pub u32);

/// The revision that a new symbol library declares.
pub const CURRENT_REVISION: u32 = 20211014;

impl Version {
    /// The revision of a library that is written today.
    pub fn new() -> (v: Self)
        ensures
            v.0 == CURRENT_REVISION,
    {
        Version(CURRENT_REVISION)
    }
}

impl Default for Version {
    fn default() -> (v: Self)
        ensures
            v.0 == CURRENT_REVISION,
    {
        Version(CURRENT_REVISION)
    }
}

impl Record for Version {
    open spec fn schema_spec() -> SchemaV {
        single_spec(encode_utf8("version"@), ScalarKindV::Integer)
    }

    open spec fn record_spec(&self) -> Seq<ValueV> {
        seq![ValueV::Integer(self.0 as u64)]
    }

    open spec fn admits(values: Seq<ValueV>) -> bool {
        values.len() == 1 && values[0] is Integer && values[0]->Integer_0 <= u32::MAX
    }

    proof fn lemma_schema() {
        lemma_single_well_formed(encode_utf8("version"@), ScalarKindV::Integer, None, false);
    }

    proof fn lemma_record(&self) {
        let schema = Self::schema_spec();
        let vs = self.record_spec();
        assert forall|i: int| 0 <= i < schema.fields.len() implies field_conforms(
            #[trigger] schema.fields[i],
            vs[i],
        ) by {}
    }

    proof fn lemma_names() {
        let schema = Self::schema_spec();
        lemma_single_utf8("version"@, ScalarKindV::Integer, None, false);
        assert forall|i: int| 0 <= i < schema.fields.len() implies field_utf8(
            #[trigger] schema.fields[i],
        ) by {}
    }

    proof fn lemma_strings(&self) {
        let vs = self.record_spec();
        assert forall|i: int| 0 <= i < vs.len() implies value_utf8(#[trigger] vs[i]) by {}
    }

    fn schema() -> (s: Schema) {
        single("version", ScalarKind::Integer)
    }

    fn to_record(&self) -> (values: Vec<Value>) {
        let values = vec![Value::Integer(self.0 as u64)];
        assert(values_view(values@) =~= self.record_spec());
        proof {
            self.lemma_record();
        }
        values
    }

    fn from_record(values: &Vec<Value>) -> (r: Option<Self>) {
        if values.len() != 1 {
            return None;
        }
        assert(values_view(values@)[0] == values@[0]@);
        match &values[0] {
            Value::Integer(n) => {
                if *n > u32::MAX as u64 {
                    return None;
                }
                let v = Version(*n as u32);
                assert(v.record_spec() =~= values_view(values@));
                Some(v)
            },
            _ => None,
        }
    }
}

/// A symbol library document:
/// `(kicad_symbol_lib (version 20211014) (generator kicad_symbol_editor))`.
#[derive(Clone, Debug, PartialEq, Eq)]
pub struct SymbolLib {
    pub version: Version,
    pub generator: String,
}

impl Record for SymbolLib {
    open spec fn schema_spec() -> SchemaV {
        tagged_spec(
            encode_utf8("kicad_symbol_lib"@),
            seq![
                keyed_spec(Version::schema_spec()),
                keyed_spec(single_spec(encode_utf8("generator"@), ScalarKindV::Text)),
            ],
        )
    }

    open spec fn record_spec(&self) -> Seq<ValueV> {
        seq![
            ValueV::Record(self.version.record_spec()),
            single_value_spec(text_spec(self.generator@)),
        ]
    }

    open spec fn admits(values: Seq<ValueV>) -> bool {
        &&& values.len() == 2
        &&& values[0] is Record && Version::admits(values[0]->Record_0)
        &&& single_in(values[1]) matches Some(g) && is_text(g)
    }

    proof fn lemma_schema() {
        let schema = Self::schema_spec();
        Version::lemma_schema();
        lemma_single_well_formed(encode_utf8("generator"@), ScalarKindV::Text, None, false);
        reveal_strlit("version");
        reveal_strlit("generator");
        lemma_name("version");
        lemma_name("generator");
        assert forall|i: int| 0 <= i < schema.fields.len() implies field_well_formed(
            #[trigger] schema.fields[i],
        ) by {}
        assert forall|i: int, j: int| 0 <= i < j < schema.fields.len() implies in_order(
            #[trigger] schema.fields[i],
            #[trigger] schema.fields[j],
        ) by {}
    }

    proof fn lemma_record(&self) {
        let schema = Self::schema_spec();
        let vs = self.record_spec();
        self.version.lemma_record();
        crate::text::lemma_bytes_of_string(self.generator@);
        lemma_single_conforms(
            encode_utf8("generator"@),
            ScalarKindV::Text,
            text_spec(self.generator@),
            None,
            false,
        );
        assert forall|k: int| 0 <= k < schema.fields.len() implies field_conforms(
            #[trigger] schema.fields[k],
            vs[k],
        ) by {}
    }

    proof fn lemma_names() {
        let schema = Self::schema_spec();
        encode_utf8_valid_utf8("kicad_symbol_lib"@);
        Version::lemma_names();
        lemma_single_utf8("generator"@, ScalarKindV::Text, None, false);
        assert forall|i: int| 0 <= i < schema.fields.len() implies field_utf8(
            #[trigger] schema.fields[i],
        ) by {}
    }

    proof fn lemma_strings(&self) {
        let vs = self.record_spec();
        self.version.lemma_strings();
        lemma_text_utf8(self.generator@);
        assert forall|i: int| 0 <= i < vs.len() implies value_utf8(#[trigger] vs[i]) by {}
    }

    fn schema() -> (s: Schema) {
        let fields = vec![keyed(Version::schema()), keyed(single("generator", ScalarKind::Text))];
        assert(fields_view(fields@) =~= Self::schema_spec().fields);
        tagged("kicad_symbol_lib", fields)
    }

    fn to_record(&self) -> (values: Vec<Value>) {
        let values = vec![
            record_value(self.version.to_record()),
            single_value(text_value(self.generator.as_str())),
        ];
        assert(values_view(values@) =~= self.record_spec());
        proof {
            self.lemma_record();
        }
        values
    }

    fn from_record(values: &Vec<Value>) -> (r: Option<Self>) {
        if values.len() != 2 {
            return None;
        }
        let ghost vs = values_view(values@);
        assert(vs[0] == values@[0]@ && vs[1] == values@[1]@);
        let version = match record_of(&values[0]) {
            Some(fields) => match Version::from_record(fields) {
                Some(x) => x,
                None => {
                    return None;
                },
            },
            None => {
                return None;
            },
        };
        let generator = match single_of(&values[1]) {
            Some(v) => match text_of(v) {
                Some(s) => s,
                None => {
                    return None;
                },
            },
            None => {
                return None;
            },
        };
        let lib = SymbolLib { version, generator };
        assert(lib.record_spec() =~= vs);
        Some(lib)
    }
}

impl SymbolLib {
    /// Reads a symbol library document.
    pub fn from_str(s: &str) -> (r: Result<SymbolLib, CodecError>)
        ensures
            match r {
                Ok(x) => from_text_spec::<SymbolLib>(encode_utf8(s@)) == Ok::<
                    Seq<ValueV>,
                    ErrorV,
                >(x.record_spec()),
                Err(e) => from_text_spec::<SymbolLib>(encode_utf8(s@)) == Err::<
                    Seq<ValueV>,
                    ErrorV,
                >(e@),
            },
    {
        from_text::<SymbolLib>(s.as_bytes())
    }

    /// Writes this symbol library document.
    pub fn to_string(&self) -> (s: String)
        ensures
            encode_utf8(s@) == to_text_spec::<SymbolLib>(*self),
    {
        to_string_of::<SymbolLib>(self)
    }
}

} // verus!
