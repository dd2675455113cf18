//! The integrity check: a 32-bit cyclic-redundancy checksum over the UTF-8
//! bytes of the canonical text, compared against the reserved `CRC32` field.
//! It helps ensure a descriptor was received correctly; it is no assurance of
//! authenticity or any other form of cryptographic security.

use crate::error::SpaydError;
use crate::numbers::{hex8_bytes, hex_parses, hex_seq_val, lemma_hex8_bytes, parse_hex_u32};
use crate::spayd::{canonic_bytes, Spayd, SpaydVersion};
use crate::store::{
    acc_key, crc_key, lemma_insert_props, lemma_strip_crc_insert, seq_get, spec_insert, strip_crc,
};
use crate::text::{ascii_view, lemma_ascii_view};
use vstd::prelude::*;
use vstd::string::StrSliceExecFns;
use vstd::utf8::encode_utf8;

verus! {

/// What the checksum of a byte string is. Relied on below: `crc32fast::hash`
/// computes it, and it depends on the bytes alone.
pub uninterp spec fn crc32_of(bytes: Seq<u8>) -> u32;

/// Relies on `crc32fast::hash`: the CRC-32 (IEEE) checksum of the given
/// bytes, a function of the bytes alone.
#[verifier::external_body]
fn crc32_hash(data: &Vec<u8>) -> (r: u32)
    ensures
        r == crc32_of(data@),
{
    crc32fast::hash(data.as_slice())
}

/// A success from checksum checking. As the checksum field is optional, the
/// check can pass though no checksum was supplied; test for that case, or
/// use `require_crc32`, to enforce its presence.
#[derive(Clone, Copy, PartialEq, Eq, Structural, Debug)]
pub enum Crc32Ok {
    /// A checksum value was provided and it matched.
    Passed,
    /// No checksum field was supplied.
    NotProvided,
}

/// How checksum checking failed.
#[derive(Clone, Copy, PartialEq, Eq, Structural, Debug)]
pub enum Crc32Error {
    /// The checksum field is present but is not a hexadecimal 32-bit number.
    Malformed,
    /// The computed checksum differs from the supplied one.
    Mismatch,
    /// No checksum field is present, and the caller demanded one.
    Required,
}

pub type Crc32Result = Result<Crc32Ok, Crc32Error>;

impl Crc32Ok {
    /// Turn the tolerated `NotProvided` state into a failure.
    pub fn require_crc32(&self) -> (r: Crc32Result)
        ensures
            *self is Passed ==> r == Ok::<Crc32Ok, Crc32Error>(Crc32Ok::Passed),
            *self is NotProvided ==> r == Err::<Crc32Ok, Crc32Error>(Crc32Error::Required),
    {
        match self {
            Self::Passed => Ok(Self::Passed),
            Self::NotProvided => Err(Crc32Error::Required),
        }
    }
}

/// What checking the checksum of a descriptor yields: `NotProvided` without
/// the reserved field; otherwise its value must read as hex and equal the
/// checksum of the canonical bytes.
pub open spec fn spec_check_crc32(v: SpaydVersion, ps: Seq<(Seq<char>, Seq<char>)>) -> Crc32Result {
    match seq_get(ps, crc_key()) {
        None => Ok(Crc32Ok::NotProvided),
        Some(t) => {
            let hb = encode_utf8(t);
            if !hex_parses(hb) {
                Err(Crc32Error::Malformed)
            } else if hex_seq_val(hb) == crc32_of(canonic_bytes(v, ps)) {
                Ok(Crc32Ok::Passed)
            } else {
                Err(Crc32Error::Mismatch)
            }
        },
    }
}

/// `spec_check_crc32`, with an absent checksum treated as a failure.
pub open spec fn spec_require_crc32(
    v: SpaydVersion,
    ps: Seq<(Seq<char>, Seq<char>)>,
) -> Crc32Result {
    match spec_check_crc32(v, ps) {
        Ok(Crc32Ok::Passed) => Ok(Crc32Ok::Passed),
        Ok(Crc32Ok::NotProvided) => Err(Crc32Error::Required),
        Err(e) => Err(e),
    }
}

impl Spayd {
    /// Check the descriptor against its `CRC32` field, reporting success
    /// when the field is not supplied.
    pub fn check_crc32(&self) -> (r: Crc32Result)
        ensures
            r == spec_check_crc32(self.spec_version(), self.pairs()),
    {
        proof {
            reveal_strlit("CRC32");
            assert("CRC32"@ =~= crc_key());
        }
        match self.field("CRC32") {
            None => Ok(Crc32Ok::NotProvided),
            Some(t) => {
                let tb = t.as_bytes_vec();
                match parse_hex_u32(&tb) {
                    None => Err(Crc32Error::Malformed),
                    Some(supplied) => {
                        let canon = self.canonic_representation();
                        let cb = canon.as_str().as_bytes_vec();
                        let computed = crc32_hash(&cb);
                        if supplied == computed {
                            Ok(Crc32Ok::Passed)
                        } else {
                            Err(Crc32Error::Mismatch)
                        }
                    },
                }
            },
        }
    }

    /// Ensure that a checksum is present and that the descriptor matches it.
    pub fn require_crc32(&self) -> (r: Crc32Result)
        ensures
            r == spec_require_crc32(self.spec_version(), self.pairs()),
    {
        match self.check_crc32() {
            Ok(ok) => ok.require_crc32(),
            Err(e) => Err(e),
        }
    }

    /// Ensure that the descriptor has all required fields -- in version 1.0
    /// only the account field -- and that the checksum check, when a
    /// checksum is present, passes.
    pub fn validate(&self) -> (r: Result<(), SpaydError>)
        ensures
            seq_get(self.pairs(), acc_key()) is None ==> (r matches Err(
                SpaydError::RequiredFieldMissing(f),
            ) && f@ == acc_key()),
            seq_get(self.pairs(), acc_key()) is Some ==> match spec_check_crc32(
                self.spec_version(),
                self.pairs(),
            ) {
                Ok(_) => r is Ok,
                Err(e) => r == Err::<(), SpaydError>(SpaydError::Crc32Failed(e)),
            },
    {
        proof {
            reveal_strlit("ACC");
            assert("ACC"@ =~= acc_key());
        }
        match self.field("ACC") {
            None => Err(SpaydError::RequiredFieldMissing("ACC".to_owned())),
            Some(_) => match self.check_crc32() {
                Ok(_) => Ok(()),
                Err(e) => Err(SpaydError::Crc32Failed(e)),
            },
        }
    }
}

/// Checksum idempotence: compute the checksum of the canonical text, write
/// its eight-digit hex spelling into the reserved field, and re-checking
/// yields `Passed`. Writing the field does not disturb the canonical text it
/// was computed over.
pub proof fn lemma_checksum_idempotent(d: Spayd)
    requires
        d.wf(),
    ensures
        ({
            let n = crc32_of(canonic_bytes(d.spec_version(), d.pairs()));
            let ps2 = spec_insert(d.pairs(), crc_key(), ascii_view(hex8_bytes(n)));
            spec_check_crc32(d.spec_version(), ps2) == Ok::<Crc32Ok, Crc32Error>(Crc32Ok::Passed)
        }),
{
    let n = crc32_of(canonic_bytes(d.spec_version(), d.pairs()));
    let t = ascii_view(hex8_bytes(n));
    let ps2 = spec_insert(d.pairs(), crc_key(), t);
    lemma_insert_props(d.pairs(), crc_key(), t);
    assert(seq_get(ps2, crc_key()) == Some(t));
    lemma_strip_crc_insert(d.pairs(), t);
    assert(canonic_bytes(d.spec_version(), ps2) == canonic_bytes(d.spec_version(), d.pairs()));
    lemma_hex8_bytes(n);
    lemma_ascii_view(hex8_bytes(n));
    assert(encode_utf8(t) == hex8_bytes(n));
}

} // verus!
