//! Text processing for the Short Payment Descriptor format (SPAYD or SPD),
//! a compact single-line text format for requesting payments, carrying the
//! destination account, amount, currency, due date and related details.

pub mod codec;
pub mod convert;
pub mod crc32;
pub mod date;
pub mod error;
pub mod fields;
pub mod iban_bic;
pub mod numbers;
pub mod parser;
pub mod spayd;
pub mod store;
pub mod text;

pub use crate::codec::lemma_codec_roundtrip;
pub use crate::crc32::{lemma_checksum_idempotent, Crc32Error, Crc32Ok, Crc32Result};
pub use crate::date::SpaydDate;
pub use crate::error::{ParseFault, SpaydError};
pub use crate::iban_bic::IbanBic;
pub use crate::parser::{lemma_parse_display_roundtrip, parse_spayd, ParseOutcome};
pub use crate::spayd::{lemma_canonical_deterministic, Spayd, SpaydVersion};
