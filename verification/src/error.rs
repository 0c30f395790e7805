//! The failures that decoding can report.

use vstd::prelude::*;

verus! {

/// The kind of a failure, without its details.
#[derive(Clone, Copy, Debug, PartialEq, Eq, Structural)]
pub enum ErrorKind {
    Syntax,
    TagMismatch,
    MissingField,
    UnknownField,
    ScalarDecode,
    NoMatchingVariant,
}

/// Why a text or a node could not be decoded.
#[derive(Clone, Debug, PartialEq, Eq)]
pub enum CodecError {
    /// Unbalanced parentheses or bad quoting, at this byte of the text.
    SyntaxError { offset: usize },
    /// The list does not start with the tag that the schema declares.
    TagMismatch,
    /// A required field is absent.
    MissingField,
    /// A child that no field accounts for, under a strict schema.
    UnknownField,
    /// An atom's text does not fit the grammar of the scalar expected there.
    ScalarDecodeError,
    /// No candidate of a union accepts the list; one reason per candidate,
    /// in the order in which they were tried.
    NoMatchingVariant { reasons: Vec<ErrorKind> },
}

/// The mathematical value of a [`CodecError`].
pub enum ErrorV {
    SyntaxError { offset: int },
    TagMismatch,
    MissingField,
    UnknownField,
    ScalarDecodeError,
    NoMatchingVariant { reasons: Seq<ErrorKind> },
}

impl ErrorV {
    /// The kind of this failure.
    pub open spec fn kind(self) -> ErrorKind {
        match self {
            ErrorV::SyntaxError { .. } => ErrorKind::Syntax,
            ErrorV::TagMismatch => ErrorKind::TagMismatch,
            ErrorV::MissingField => ErrorKind::MissingField,
            ErrorV::UnknownField => ErrorKind::UnknownField,
            ErrorV::ScalarDecodeError => ErrorKind::ScalarDecode,
            ErrorV::NoMatchingVariant { .. } => ErrorKind::NoMatchingVariant,
        }
    }
}

impl View for CodecError {
    type V = ErrorV;

    open spec fn view(&self) -> ErrorV {
        match self {
            CodecError::SyntaxError { offset } => ErrorV::SyntaxError { offset: *offset as int },
            CodecError::TagMismatch => ErrorV::TagMismatch,
            CodecError::MissingField => ErrorV::MissingField,
            CodecError::UnknownField => ErrorV::UnknownField,
            CodecError::ScalarDecodeError => ErrorV::ScalarDecodeError,
            CodecError::NoMatchingVariant { reasons } => ErrorV::NoMatchingVariant {
                reasons: reasons@,
            },
        }
    }
}

impl CodecError {
    /// The kind of this failure.
    pub fn kind(&self) -> (k: ErrorKind)
        ensures
            k == self@.kind(),
    {
        match self {
            CodecError::SyntaxError { .. } => ErrorKind::Syntax,
            CodecError::TagMismatch => ErrorKind::TagMismatch,
            CodecError::MissingField => ErrorKind::MissingField,
            CodecError::UnknownField => ErrorKind::UnknownField,
            CodecError::ScalarDecodeError => ErrorKind::ScalarDecode,
            CodecError::NoMatchingVariant { .. } => ErrorKind::NoMatchingVariant,
        }
    }
}

} // verus!
