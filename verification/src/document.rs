//! Whole documents: from text to the values of a record and back.

use vstd::prelude::*;
use crate::encoder::{encode_record, try_encode_record};
use crate::laws::{lemma_record_round_trip, schema_well_formed, written_read_back};
use crate::text_laws::lemma_text_round_trip;
use crate::error::{CodecError, ErrorV};
use crate::lexer::{lex, lex_spec};
use crate::mapper::decode_record;
use crate::record::{decode_record_spec, encode_record_spec, record_conforms};
use crate::schema::{Schema, SchemaV};
use crate::tree::{parse, parse_spec, Node, NodeV};
use crate::value::{values_view, Value, ValueV};
use crate::writer::{render, render_node, writable};

verus! {

/// The tree that a text spells: its tokens, built into one node.
pub open spec fn read_spec(text: Seq<u8>) -> Result<NodeV, ErrorV> {
    match lex_spec(text) {
        Err(e) => Err(e),
        Ok(tokens) => parse_spec(tokens),
    }
}

/// What parsing a document against a schema gives.
pub open spec fn parse_document_spec(text: Seq<u8>, schema: SchemaV) -> Result<
    Seq<ValueV>,
    ErrorV,
> {
    match read_spec(text) {
        Err(e) => Err(e),
        Ok(node) => decode_record_spec(node, schema),
    }
}

/// The text of a document.
pub open spec fn render_document_spec(values: Seq<ValueV>, schema: SchemaV) -> Seq<u8> {
    render(encode_record_spec(values, schema))
}

/// Reads the one node that a text spells.
///
/// Fails with a syntax error where a quoted string is not closed, where the
/// parentheses do not match, or where the text holds no node or more than
/// one.
pub fn read(text: &[u8]) -> (r: Result<Node, CodecError>)
    ensures
        match r {
            Ok(node) => read_spec(text@) == Ok::<NodeV, ErrorV>(node@),
            Err(e) => read_spec(text@) == Err::<NodeV, ErrorV>(e@),
        },
{
    match lex(text) {
        Err(e) => Err(e),
        Ok(tokens) => parse(&tokens),
    }
}

/// Parses a document: the text is read as one node, and the node is decoded
/// as a record of the schema.
pub fn parse_document(text: &[u8], schema: &Schema) -> (r: Result<Vec<Value>, CodecError>)
    ensures
        match r {
            Ok(values) => parse_document_spec(text@, schema@) == Ok::<Seq<ValueV>, ErrorV>(
                values_view(values@),
            ),
            Err(e) => parse_document_spec(text@, schema@) == Err::<Seq<ValueV>, ErrorV>(e@),
        },
{
    match read(text) {
        Err(e) => Err(e),
        Ok(node) => decode_record(&node, schema),
    }
}

/// Renders a document: the record is encoded as a node, and the node is
/// written as text.
pub fn render_document(values: &Vec<Value>, schema: &Schema) -> (text: Vec<u8>)
    requires
        record_conforms(values_view(values@), schema@),
    ensures
        text@ == render_document_spec(values_view(values@), schema@),
{
    let node = encode_record(values, schema);
    render_node(&node)
}

/// Renders a document, where the values are a record of the schema.
pub fn try_render_document(values: &Vec<Value>, schema: &Schema) -> (r: Option<Vec<u8>>)
    ensures
        r is Some <==> record_conforms(values_view(values@), schema@),
        r matches Some(text) ==> text@ == render_document_spec(values_view(values@), schema@),
{
    match try_encode_record(values, schema) {
        Some(node) => Some(render_node(&node)),
        None => None,
    }
}

/// **Round trip of a document.** A record of a well-formed schema that is
/// rendered as text and parsed again comes back unchanged, provided the node
/// that encodes it is writable: no string in it ends with a backslash, and
/// every tag, keyword and spelling of the schema can be written bare.
pub proof fn lemma_document_round_trip(values: Seq<ValueV>, schema: SchemaV)
    requires
        schema_well_formed(schema),
        record_conforms(values, schema),
        written_read_back(values, schema),
        writable(encode_record_spec(values, schema)),
    ensures
        parse_document_spec(render_document_spec(values, schema), schema) == Ok::<
            Seq<ValueV>,
            ErrorV,
        >(values),
{
    lemma_text_round_trip(encode_record_spec(values, schema));
    lemma_record_round_trip(values, schema);
}

} // verus!
