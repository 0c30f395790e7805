//! Identifiers: 128-bit unique values, written as hyphenated hexadecimal.
//!
//! Text is read and written by the `uuid` crate. The all-zero identifier is
//! the nil sentinel: the identifier of an item that was given none.

use vstd::prelude::*;
use crate::error::{CodecError, ErrorV};

verus! {

pub const HYPHEN: u8 = 0x2d;

/// A 128-bit unique value.
#[derive(Clone, Copy, Debug, PartialEq, Eq, Hash, Structural)]
pub struct Identifier {
    pub bits: u128,
}

/// The identifier that the `uuid` crate reads a text as, where it reads it
/// as one: the result of `uuid::Uuid::try_parse_ascii`, as 128 bits.
pub uninterp spec fn uuid_parse(text: Seq<u8>) -> Option<u128>;

/// Sixteen to the power `k`.
pub open spec fn pow16(k: nat) -> nat
    decreases k,
{
    if k == 0 {
        1
    } else {
        16 * pow16((k - 1) as nat)
    }
}

/// The lower-case hexadecimal digit that writes `n`.
pub open spec fn hex_byte(n: nat) -> u8
    recommends
        n < 16,
{
    if n < 10 {
        (0x30 + n) as u8
    } else {
        (0x57 + n) as u8
    }
}

/// Which of the 32 hexadecimal digits stands at byte `i` of the hyphenated
/// form, counted from the most significant.
pub open spec fn digit_place(i: int) -> int {
    if i < 8 {
        i
    } else if i < 13 {
        i - 1
    } else if i < 18 {
        i - 2
    } else if i < 23 {
        i - 3
    } else {
        i - 4
    }
}

/// The hyphenated form of an identifier: 32 lower-case hexadecimal digits,
/// most significant first, in groups of 8, 4, 4, 4 and 12 with a hyphen
/// between groups.
pub open spec fn hyphenated(bits: u128) -> Seq<u8> {
    Seq::new(
        36,
        |i: int|
            if i == 8 || i == 13 || i == 18 || i == 23 {
                HYPHEN
            } else {
                hex_byte(((bits as nat) / pow16((31 - digit_place(i)) as nat) % 16) as nat)
            },
    )
}

/// What reading an identifier gives.
pub open spec fn decode_identifier_spec(text: Seq<u8>) -> Result<Identifier, ErrorV> {
    match uuid_parse(text) {
        Some(bits) => Ok(Identifier { bits }),
        None => Err(ErrorV::ScalarDecodeError),
    }
}

/// Reads a text with `uuid::Uuid::try_parse_ascii` and hands the identifier
/// out as 128 bits with `Uuid::as_u128`. Nothing is claimed of which texts
/// are read, only that the result is the one named [`uuid_parse`].
#[verifier::external_body]
fn uuid_from_text(text: &[u8]) -> (r: Option<u128>)
    ensures
        r == uuid_parse(text@),
{
    match uuid::Uuid::try_parse_ascii(text) {
        Ok(id) => Some(id.as_u128()),
        Err(_) => None,
    }
}

/// Writes 128 bits with `uuid::Uuid::hyphenated`, after `Uuid::from_u128`.
/// The claim is what the crate documents: the text is the lower-case
/// hyphenated form, and the crate's parser reads its own output back.
#[verifier::external_body]
fn uuid_to_text(bits: u128) -> (text: Vec<u8>)
    ensures
        text@ == hyphenated(bits),
        uuid_parse(text@) == Some(bits),
{
    uuid::Uuid::from_u128(bits).hyphenated().to_string().into_bytes()
}

impl Identifier {
    /// The nil sentinel.
    pub fn nil() -> (id: Identifier)
        ensures
            id.bits == 0,
    {
        Identifier { bits: 0 }
    }

    /// Whether this is the nil sentinel.
    pub fn is_nil(&self) -> (r: bool)
        ensures
            r == (self.bits == 0),
    {
        self.bits == 0
    }

    /// The identifier that a parser found, or the failure to report where it
    /// found none.
    pub fn from_parsed(parsed: Option<u128>) -> (r: Result<Identifier, CodecError>)
        ensures
            match parsed {
                Some(bits) => r == Ok::<Identifier, CodecError>(Identifier { bits }),
                None => r == Err::<Identifier, CodecError>(CodecError::ScalarDecodeError),
            },
    {
        match parsed {
            Some(bits) => Ok(Identifier { bits }),
            None => Err(CodecError::ScalarDecodeError),
        }
    }

    /// Reads an identifier.
    pub fn decode(text: &[u8]) -> (r: Result<Identifier, CodecError>)
        ensures
            match r {
                Ok(id) => decode_identifier_spec(text@) == Ok::<Identifier, ErrorV>(id),
                Err(e) => decode_identifier_spec(text@) == Err::<Identifier, ErrorV>(e@),
            },
    {
        Identifier::from_parsed(uuid_from_text(text))
    }

    /// The hyphenated form of this identifier, which reads back as it.
    pub fn encode(&self) -> (text: Vec<u8>)
        ensures
            text@ == hyphenated(self.bits),
            decode_identifier_spec(text@) == Ok::<Identifier, ErrorV>(*self),
    {
        uuid_to_text(self.bits)
    }
}

} // verus!
