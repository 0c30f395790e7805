//! The scalar codecs: between atoms and the primitive values of the domain.
//!
//! A numeral or a quantity is a bare atom; an atom between quotes is never a
//! number. An identifier, a string and the symbol of an enumeration are read
//! from any atom. Identifiers and texts are written between quotes, the
//! others bare; a word is a string that is written bare where it can be, and
//! between quotes only where it is empty or holds white space, a
//! parenthesis or a quote.

use vstd::prelude::*;
use crate::decimal::{decimal_text, decimal_value, is_decimal, parse_decimal, write_decimal};
use crate::error::{CodecError, ErrorV};
use crate::identifier::{decode_identifier_spec, hyphenated, Identifier};
use crate::quantity::{decode_quantity, decode_quantity_spec, encode_quantity, quantity_text};
use crate::schema::{texts_view, ScalarKind, ScalarKindV};
use crate::text::{copy_bytes, same_bytes};
use crate::tree::{Atom, NodeV};
use crate::value::{Value, ValueV};
use crate::writer::{must_quote, needs_quotes};

verus! {

/// The first place at or after `i` at which `text` stands among the
/// spellings.
pub open spec fn first_spelling(spellings: Seq<Seq<u8>>, text: Seq<u8>, i: int) -> Option<int>
    decreases spellings.len() - i,
{
    if i < 0 || i >= spellings.len() {
        None
    } else if spellings[i] == text {
        Some(i)
    } else {
        first_spelling(spellings, text, i + 1)
    }
}

/// The variant that an atom stands for: the first whose spelling it is, else
/// the fallback.
pub open spec fn variant_of(spellings: Seq<Seq<u8>>, fallback: usize, text: Seq<u8>) -> usize {
    match first_spelling(spellings, text, 0) {
        Some(i) => i as usize,
        None => fallback,
    }
}

/// What reading an atom as a scalar of the given kind gives.
pub open spec fn decode_scalar_spec(kind: ScalarKindV, text: Seq<u8>, quoted: bool) -> Result<
    ValueV,
    ErrorV,
> {
    match kind {
        ScalarKindV::Integer => if !quoted && is_decimal(text) && decimal_value(text) <= u64::MAX {
            Ok(ValueV::Integer(decimal_value(text) as u64))
        } else {
            Err(ErrorV::ScalarDecodeError)
        },
        ScalarKindV::Quantity => match decode_quantity_spec(text) {
            Some(q) => if quoted {
                Err(ErrorV::ScalarDecodeError)
            } else {
                Ok(ValueV::Quantity(q))
            },
            None => Err(ErrorV::ScalarDecodeError),
        },
        ScalarKindV::Identifier => match decode_identifier_spec(text) {
            Ok(id) => Ok(ValueV::Identifier(id)),
            Err(e) => Err(e),
        },
        ScalarKindV::Text => Ok(ValueV::Text(text)),
        ScalarKindV::Word => Ok(ValueV::Text(text)),
        ScalarKindV::Symbol { spellings, fallback } => Ok(
            ValueV::Variant(variant_of(spellings, fallback, text)),
        ),
    }
}

/// Whether a value is a scalar of the given kind.
pub open spec fn scalar_fits(kind: ScalarKindV, value: ValueV) -> bool {
    match (kind, value) {
        (ScalarKindV::Integer, ValueV::Integer(_)) => true,
        (ScalarKindV::Quantity, ValueV::Quantity(_)) => true,
        (ScalarKindV::Identifier, ValueV::Identifier(_)) => true,
        (ScalarKindV::Text, ValueV::Text(_)) => true,
        (ScalarKindV::Word, ValueV::Text(_)) => true,
        (ScalarKindV::Symbol { spellings, fallback }, ValueV::Variant(i)) => i < spellings.len(),
        _ => false,
    }
}

/// The atom that writes a scalar of the given kind.
pub open spec fn encode_scalar_spec(kind: ScalarKindV, value: ValueV) -> NodeV {
    match (kind, value) {
        (ScalarKindV::Integer, ValueV::Integer(n)) => NodeV::Atom {
            text: decimal_text(n as nat),
            quoted: false,
        },
        (ScalarKindV::Quantity, ValueV::Quantity(q)) => NodeV::Atom {
            text: quantity_text(q.nanos as int),
            quoted: false,
        },
        (ScalarKindV::Identifier, ValueV::Identifier(id)) => NodeV::Atom {
            text: hyphenated(id.bits),
            quoted: true,
        },
        (ScalarKindV::Text, ValueV::Text(t)) => NodeV::Atom { text: t, quoted: true },
        (ScalarKindV::Word, ValueV::Text(t)) => NodeV::Atom { text: t, quoted: needs_quotes(t) },
        (ScalarKindV::Symbol { spellings, fallback }, ValueV::Variant(i)) => NodeV::Atom {
            text: spellings[i as int],
            quoted: false,
        },
        _ => NodeV::Atom { text: Seq::empty(), quoted: true },
    }
}

/// Looks a text up among the spellings of an enumeration.
pub fn find_spelling(spellings: &Vec<Vec<u8>>, text: &[u8]) -> (r: Option<usize>)
    ensures
        match r {
            Some(i) => first_spelling(texts_view(spellings@), text@, 0) == Some(i as int) && i
                < spellings@.len(),
            None => first_spelling(texts_view(spellings@), text@, 0) is None,
        },
{
    let ghost table = texts_view(spellings@);
    let mut i: usize = 0;
    while i < spellings.len()
        invariant
            i <= spellings@.len(),
            table == texts_view(spellings@),
            first_spelling(table, text@, 0) == first_spelling(table, text@, i as int),
        decreases spellings@.len() - i,
    {
        assert(table[i as int] == spellings@[i as int]@);
        if same_bytes(spellings[i].as_slice(), text) {
            return Some(i);
        }
        i += 1;
    }
    None
}

/// Reads an atom as a scalar of the given kind.
///
/// Fails with `ScalarDecodeError` exactly where the atom's text does not fit
/// the grammar of the kind. An enumeration never fails: a symbol that it does
/// not declare stands for its fallback variant.
pub fn decode_scalar(kind: &ScalarKind, atom: &Atom) -> (r: Result<Value, CodecError>)
    ensures
        match r {
            Ok(v) => decode_scalar_spec(kind@, atom.text@, atom.quoted) == Ok::<ValueV, ErrorV>(v@),
            Err(e) => decode_scalar_spec(kind@, atom.text@, atom.quoted) == Err::<ValueV, ErrorV>(
                e@,
            ),
        },
{
    let text = atom.text.as_slice();
    match kind {
        ScalarKind::Integer => {
            if atom.quoted {
                return Err(CodecError::ScalarDecodeError);
            }
            match parse_decimal(text) {
                Some(n) => Ok(Value::Integer(n)),
                None => Err(CodecError::ScalarDecodeError),
            }
        },
        ScalarKind::Quantity => {
            match decode_quantity(text) {
                Some(q) => if atom.quoted {
                    Err(CodecError::ScalarDecodeError)
                } else {
                    Ok(Value::Quantity(q))
                },
                None => Err(CodecError::ScalarDecodeError),
            }
        },
        ScalarKind::Identifier => {
            match Identifier::decode(text) {
                Ok(id) => Ok(Value::Identifier(id)),
                Err(e) => Err(e),
            }
        },
        ScalarKind::Text => Ok(Value::Text(copy_bytes(text))),
        ScalarKind::Word => Ok(Value::Text(copy_bytes(text))),
        ScalarKind::Symbol { spellings, fallback } => {
            match find_spelling(spellings, text) {
                Some(i) => Ok(Value::Variant(i)),
                None => Ok(Value::Variant(*fallback)),
            }
        },
    }
}

/// Whether a value is a scalar of the given kind.
pub fn fits_scalar(kind: &ScalarKind, value: &Value) -> (r: bool)
    ensures
        r == scalar_fits(kind@, value@),
{
    match (kind, value) {
        (ScalarKind::Integer, Value::Integer(_)) => true,
        (ScalarKind::Quantity, Value::Quantity(_)) => true,
        (ScalarKind::Identifier, Value::Identifier(_)) => true,
        (ScalarKind::Text, Value::Text(_)) => true,
        (ScalarKind::Word, Value::Text(_)) => true,
        (ScalarKind::Symbol { spellings, fallback }, Value::Variant(i)) => *i < spellings.len(),
        _ => false,
    }
}

/// Writes a scalar of the given kind as an atom.
pub fn encode_scalar(kind: &ScalarKind, value: &Value) -> (atom: Atom)
    requires
        scalar_fits(kind@, value@),
    ensures
        (NodeV::Atom { text: atom.text@, quoted: atom.quoted }) == encode_scalar_spec(
            kind@,
            value@,
        ),
{
    match (kind, value) {
        (ScalarKind::Integer, Value::Integer(n)) => {
            let mut text: Vec<u8> = Vec::new();
            write_decimal(&mut text, *n);
            assert(text@ =~= decimal_text(*n as nat));
            Atom { text, quoted: false }
        },
        (ScalarKind::Quantity, Value::Quantity(q)) => Atom {
            text: encode_quantity(*q),
            quoted: false,
        },
        (ScalarKind::Identifier, Value::Identifier(id)) => Atom { text: id.encode(), quoted: true },
        (ScalarKind::Text, Value::Text(t)) => Atom { text: copy_bytes(t.as_slice()), quoted: true },
        (ScalarKind::Word, Value::Text(t)) => Atom {
            text: copy_bytes(t.as_slice()),
            quoted: must_quote(t.as_slice()),
        },
        (ScalarKind::Symbol { spellings, fallback }, Value::Variant(i)) => {
            assert(texts_view(spellings@)[*i as int] == spellings@[*i as int]@);
            Atom { text: copy_bytes(spellings[*i].as_slice()), quoted: false }
        },
        _ => Atom { text: Vec::new(), quoted: true },
    }
}

} // verus!
