//! Separated IBAN and BIC strings from one of the account number fields.
//! The wire text of an account is `<iban>` or `<iban>+<bic>`.

use crate::error::SpaydError;
use crate::text::{find_first, lemma_find_first_is, lemma_find_first_none};
use vstd::prelude::*;
use vstd::string::{StrSliceExecFns, StringExecFns};

verus! {

/// Separated IBAN and BIC from one of the account number fields.
#[derive(PartialEq, Eq, Debug)]
pub struct IbanBic {
    /// International Bank Account Number.
    pub iban: String,
    /// Bank Identifier Code (ISO 9362), where one was given.
    pub bic: Option<String>,
}

/// The IBAN part of an account text: what stands before the first `+`.
pub open spec fn spec_iban_of(v: Seq<char>) -> Seq<char> {
    match find_first(v, '+') {
        None => v,
        Some(i) => v.take(i),
    }
}

/// The BIC part of an account text: what follows the first `+`, if any.
pub open spec fn spec_bic_of(v: Seq<char>) -> Option<Seq<char>> {
    match find_first(v, '+') {
        None => None,
        Some(i) => Some(v.skip(i + 1)),
    }
}

impl IbanBic {
    /// The combined text: the IBAN, then `+` and the BIC where one is held.
    pub open spec fn text(self) -> Seq<char> {
        match self.bic {
            Some(b) => self.iban@ + seq!['+'] + b@,
            None => self.iban@,
        }
    }

    /// Whether this value holds exactly the parts of the account text `v`.
    pub open spec fn is_parts(self, v: Seq<char>) -> bool {
        &&& self.iban@ == spec_iban_of(v)
        &&& match spec_bic_of(v) {
            None => self.bic is None,
            Some(x) => self.bic matches Some(b) && b@ == x,
        }
    }

    /// Construct an IbanBic with only an IBAN and no BIC.
    pub fn iban_only(iban: &str) -> (r: Self)
        ensures
            r.iban@ == iban@,
            r.bic is None,
    {
        IbanBic { iban: iban.to_owned(), bic: None }
    }

    /// Construct an IbanBic with both an IBAN and a BIC.
    pub fn iban_bic(iban: &str, bic: &str) -> (r: Self)
        ensures
            r.iban@ == iban@,
            r.bic matches Some(b) && b@ == bic@,
    {
        IbanBic { iban: iban.to_owned(), bic: Some(bic.to_owned()) }
    }

    /// Split account text at the first `+` into an IBAN and, where one
    /// follows, a BIC.
    pub fn from_text(text: &str) -> (r: Self)
        ensures
            r.is_parts(text@),
    {
        let n = text.unicode_len();
        let mut i: usize = 0;
        while i < n && text.get_char(i) != '+'
            invariant
                0 <= i <= n,
                n == text@.len(),
                forall|j: int| 0 <= j < i ==> text@[j] != '+',
            decreases n - i,
        {
            i = i + 1;
        }
        if i < n {
            proof {
                lemma_find_first_is(text@, '+', i as int);
            }
            let ib = text.substring_char(0, i).to_owned();
            let bc = text.substring_char(i + 1, n).to_owned();
            IbanBic { iban: ib, bic: Some(bc) }
        } else {
            proof {
                lemma_find_first_none(text@, '+');
            }
            IbanBic { iban: text.to_owned(), bic: None }
        }
    }

    /// The combined text, `<iban>` or `<iban>+<bic>`.
    pub fn to_string(&self) -> (r: String)
        ensures
            r@ == self.text(),
    {
        let mut s = self.iban.clone();
        match &self.bic {
            Some(b) => {
                proof {
                    reveal_strlit("+");
                }
                s.append("+");
                s.append(b.as_str());
                proof {
                    assert(s@ =~= self.text());
                }
                s
            },
            None => s,
        }
    }
}

#[verifier::external_type_specification]
#[verifier::external_body]
pub struct ExIban(iban::Iban);

/// Whether the iban crate accepts a text as a valid IBAN. Relied on below:
/// acceptance depends on the text alone.
pub uninterp spec fn iban_accepts(text: Seq<char>) -> bool;

/// Relies on the iban crate's `FromStr` for `Iban`: it checks the format
/// and the check digits of the text, and nothing else decides the outcome.
#[verifier::external_body]
fn iban_from_text(text: &str) -> (r: Option<iban::Iban>)
    ensures
        r is Some <==> iban_accepts(text@),
{
    match <iban::Iban as core::str::FromStr>::from_str(text) {
        Ok(v) => Some(v),
        Err(_) => None,
    }
}

impl IbanBic {
    /// Parse the held IBAN text into a checked `Iban` value of the iban
    /// crate.
    pub fn parse_iban(&self) -> (r: Result<iban::Iban, SpaydError>)
        ensures
            r is Ok <==> iban_accepts(self.iban@),
            !(r is Ok) ==> (r matches Err(SpaydError::ConvertError(t)) && t@ == self.iban@),
    {
        match iban_from_text(self.iban.as_str()) {
            Some(v) => Ok(v),
            None => Err(SpaydError::ConvertError(self.iban.clone())),
        }
    }
}

} // verus!
