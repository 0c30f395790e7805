//! A typed, schema-bound codec for the S-expression documents of an
//! electronics CAD suite: circuit boards and symbol libraries.
//!
//! Text is split into tokens ([`lexer`]), tokens are built into a generic tree
//! ([`tree`]), and a tree is mapped to the values of a record as a schema
//! directs ([`schema`], [`record`], [`mapper`]); encoding goes the same way
//! back ([`encoder`], [`writer`]). The scalars of the domain are lengths
//! ([`quantity`]), identifiers ([`identifier`]), numerals ([`decimal`]),
//! strings and enumerations ([`scalar`]). The record types of the documents
//! bind to the codec through [`binding`]. What holds of the whole is stated
//! and proved in [`laws`] and [`decode_laws`] for records, in [`text_laws`]
//! and [`paren_laws`] for text, and in [`utf8_laws`] and [`read_laws`] for
//! the encoding of strings.

pub mod binding;
pub mod board;
pub mod common;
pub mod decimal;
pub mod decode_laws;
pub mod document;
pub mod encoder;
pub mod error;
pub mod identifier;
pub mod laws;
pub mod lexer;
pub mod mapper;
pub mod number;
pub mod paren_laws;
pub mod quantity;
pub mod read_laws;
pub mod record;
pub mod scalar;
pub mod schema;
pub mod symbol_lib;
pub mod text;
pub mod text_laws;
pub mod utf8_laws;
pub mod tree;
pub mod validate;
pub mod value;
pub mod writer;
