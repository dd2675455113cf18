//! Errors met when parsing and validating descriptors. Every failure is
//! reported as a typed result; nothing panics on malformed input.

use crate::crc32::Crc32Error;
use vstd::prelude::*;

verus! {

/// Why the parser refused an input.
#[derive(Clone, Copy, PartialEq, Eq, Structural, Debug)]
pub enum ParseFault {
    /// A character outside printable ASCII stands somewhere in the input.
    IllegalCharacter,
    /// The input does not begin `SPD*`, or the `*` after the version is
    /// missing.
    BadHeader,
    /// The version is not two runs of digits around a dot, each fitting in
    /// 32 bits.
    BadVersion,
    /// Nothing follows the header: the field list needs at least one entry.
    EmptyFieldList,
    /// A field entry has no `:`, or an empty name.
    MalformedField,
}

/// Errors encountered when parsing and validating descriptor values.
#[derive(Clone, PartialEq, Eq, Debug)]
pub enum SpaydError {
    /// Parsing failed: the reason, and the input from the point of failure.
    ParseError(ParseFault, String),
    /// A field's percent-decoded bytes are not valid UTF-8; carries the
    /// still-encoded fragment.
    EncodingError(String),
    /// A field required by the standard is missing; carries the field name.
    /// In version 1.0, only the account field is required.
    RequiredFieldMissing(String),
    /// A typed read found no such field; carries the field name.
    FieldMissing(String),
    /// A field is present but its text does not read as the requested domain
    /// type; carries the text.
    ConvertError(String),
    /// The checksum check failed; the data is probably incorrect or has been
    /// corrupted.
    Crc32Failed(Crc32Error),
}

} // verus!
