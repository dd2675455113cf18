//! Constants for the standard field names. The core treats all names as
//! opaque keys; this vocabulary is for callers and typed-conversion
//! adapters.

use vstd::prelude::*;

verus! {

/// Main account number for the payment, an IBAN or a combined IBAN and BIC.
pub const ACCOUNT: &'static str = "ACC";

/// Alternative accounts that may be used instead of the main account.
pub const ALTERNATIVE_ACCOUNTS: &'static str = "ALT-ACC";

/// Payment amount to send.
pub const AMOUNT: &'static str = "AM";

/// Payment currency.
pub const CURRENCY: &'static str = "CC";

/// A reference number for the payee.
pub const REFERENCE: &'static str = "RF";

/// Payee's name.
pub const RECIPIENT: &'static str = "RN";

/// Date when the payment is due.
pub const DUE_DATE: &'static str = "DT";

/// Type of payment.
pub const PAYMENT_TYPE: &'static str = "PT";

/// A message for the payee to help identify the payment.
pub const MESSAGE: &'static str = "MSG";

/// Checksum field for integrity verification.
pub const CRC32_CHECKSUM: &'static str = "CRC32";

} // verus!
