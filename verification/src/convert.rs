//! Typed reads and writes of the standard fields: account and alternative
//! accounts, amount, currency and due date. Each adapter works against the
//! raw-text field store, telling a missing field from an unparseable value.

use crate::date::{date_bytes, date_text, spec_date_of_text, SpaydDate};
use crate::error::SpaydError;
use crate::iban_bic::IbanBic;
use crate::spayd::Spayd;
use crate::store::{acc_key, seq_get, spec_insert};
use crate::text::{ascii_to_string, lemma_find_first_is, lemma_find_first_none, split_on};
use vstd::prelude::*;
use vstd::string::{StrSliceExecFns, StringExecFns};

verus! {

/// The field name of the payment amount.
pub open spec fn am_key() -> Seq<char> {
    seq!['A', 'M']
}

/// The field name of the payment currency.
pub open spec fn cc_key() -> Seq<char> {
    seq!['C', 'C']
}

/// The field name of the due date.
pub open spec fn dt_key() -> Seq<char> {
    seq!['D', 'T']
}

/// The field name of the alternative accounts.
pub open spec fn altacc_key() -> Seq<char> {
    seq!['A', 'L', 'T', '-', 'A', 'C', 'C']
}

#[verifier::external_type_specification]
#[verifier::external_body]
pub struct ExDecimal(rust_decimal::Decimal);

/// Whether rust_decimal accepts a text as a decimal number. Relied on below:
/// acceptance depends on the text alone.
pub uninterp spec fn decimal_accepts(text: Seq<char>) -> bool;

/// Relies on rust_decimal's `FromStr` for `Decimal`: it reads the text as a
/// decimal number, and nothing else decides the outcome.
#[verifier::external_body]
fn decimal_from_text(text: &str) -> (r: Option<rust_decimal::Decimal>)
    ensures
        r is Some <==> decimal_accepts(text@),
{
    match <rust_decimal::Decimal as core::str::FromStr>::from_str(text) {
        Ok(d) => Some(d),
        Err(_) => None,
    }
}

/// Relies on rust_decimal's `Display` for `Decimal`: the text of the value.
#[verifier::external_body]
fn decimal_text(value: &rust_decimal::Decimal) -> (r: String)
    ensures
        r@.len() >= 1,
{
    value.to_string()
}

#[verifier::external_type_specification]
#[verifier::external_body]
pub struct ExCurrency(iso_currency::Currency);

/// Whether iso_currency knows a text as an ISO 4217 code. Relied on below:
/// the answer depends on the text alone.
pub uninterp spec fn currency_code_known(text: Seq<char>) -> bool;

/// Relies on iso_currency's `Currency::from_code`: it looks the text up
/// among the ISO 4217 codes, and nothing else decides the outcome.
#[verifier::external_body]
fn currency_from_code(text: &str) -> (r: Option<iso_currency::Currency>)
    ensures
        r is Some <==> currency_code_known(text@),
{
    iso_currency::Currency::from_code(text)
}

/// Relies on iso_currency's `Currency::code`: the three-letter ISO 4217
/// code of the currency.
#[verifier::external_body]
fn currency_code(c: iso_currency::Currency) -> (r: &'static str)
    ensures
        r@.len() == 3,
{
    c.code()
}

/// Split `t` on every `,`.
fn split_commas(t: &str) -> (r: Vec<String>)
    ensures
        Seq::new(r@.len(), |i: int| r@[i]@) == split_on(t@, ','),
{
    let ghost target = split_on(t@, ',');
    let n = t.unicode_len();
    let mut r: Vec<String> = Vec::new();
    let mut pos: usize = 0;
    let mut done = false;
    proof {
        assert(Seq::new(r@.len(), |i: int| r@[i]@) =~= Seq::<Seq<char>>::empty());
        assert(t@.skip(0) =~= t@);
    }
    while !done
        invariant
            0 <= pos <= n,
            n == t@.len(),
            done ==> Seq::new(r@.len(), |i: int| r@[i]@) == target,
            !done ==> Seq::new(r@.len(), |i: int| r@[i]@) + split_on(t@.skip(pos as int), ',')
                == target,
        decreases n - pos + (if done {
            0int
        } else {
            1int
        }),
    {
        let ghost s = t@.skip(pos as int);
        let ghost pre = Seq::new(r@.len(), |i: int| r@[i]@);
        let mut j: usize = pos;
        while j < n && t.get_char(j) != ','
            invariant
                pos <= j <= n,
                n == t@.len(),
                forall|w: int| pos <= w < j ==> t@[w] != ',',
            decreases n - j,
        {
            j = j + 1;
        }
        proof {
            assert(forall|w: int| 0 <= w < s.len() ==> s[w] == t@[pos + w]);
        }
        if j < n {
            proof {
                lemma_find_first_is(s, ',', j - pos);
                assert(s.take(j - pos) =~= t@.subrange(pos as int, j as int));
                assert(s.skip(j - pos + 1) =~= t@.skip(j as int + 1));
            }
            let part = t.substring_char(pos, j).to_owned();
            r.push(part);
            proof {
                assert(Seq::new(r@.len(), |i: int| r@[i]@) =~= pre + seq![s.take(j - pos)]);
                assert(split_on(s, ',') == seq![s.take(j - pos)] + split_on(
                    s.skip(j - pos + 1),
                    ',',
                ));
                assert(pre + (seq![s.take(j - pos)] + split_on(t@.skip(j as int + 1), ',')) =~= (
                pre + seq![s.take(j - pos)]) + split_on(t@.skip(j as int + 1), ','));
            }
            pos = j + 1;
        } else {
            proof {
                lemma_find_first_none(s, ',');
                assert(s =~= t@.subrange(pos as int, n as int));
            }
            let part = t.substring_char(pos, n).to_owned();
            r.push(part);
            done = true;
            proof {
                assert(Seq::new(r@.len(), |i: int| r@[i]@) =~= pre + seq![s]);
                assert(split_on(s, ',') == seq![s]);
                assert(pre + seq![s] =~= target);
            }
        }
    }
    r
}

/// The joined account texts, one `,` between each two.
pub open spec fn join_comma_tail(xs: Seq<Seq<char>>) -> Seq<char>
    decreases xs.len(),
{
    if xs.len() == 0 {
        seq![]
    } else {
        seq![','] + xs[0] + join_comma_tail(xs.drop_first())
    }
}

pub open spec fn join_comma(xs: Seq<Seq<char>>) -> Seq<char> {
    if xs.len() == 0 {
        seq![]
    } else {
        xs[0] + join_comma_tail(xs.drop_first())
    }
}

impl Spayd {
    /// The account number, as a separated IBAN and optional BIC.
    pub fn account(&self) -> (r: Result<IbanBic, SpaydError>)
        ensures
            match seq_get(self.pairs(), acc_key()) {
                None => r matches Err(SpaydError::FieldMissing(f)) && f@ == acc_key(),
                Some(v) => r matches Ok(b) && b.is_parts(v),
            },
    {
        proof {
            reveal_strlit("ACC");
            assert("ACC"@ =~= acc_key());
        }
        match self.field("ACC") {
            None => Err(SpaydError::FieldMissing("ACC".to_owned())),
            Some(t) => Ok(IbanBic::from_text(t)),
        }
    }

    /// Set the account field from an IBAN and optional BIC.
    pub fn set_account(&mut self, account: &IbanBic)
        requires
            old(self).wf(),
        ensures
            final(self).wf(),
            final(self).spec_version() == old(self).spec_version(),
            final(self).pairs() == spec_insert(old(self).pairs(), acc_key(), account.text()),
    {
        proof {
            reveal_strlit("ACC");
            assert("ACC"@ =~= acc_key());
        }
        let t = account.to_string();
        self.set_field("ACC", t.as_str());
    }

    /// The alternative account numbers, one per comma-separated entry.
    pub fn alternative_accounts(&self) -> (r: Result<Vec<IbanBic>, SpaydError>)
        ensures
            match seq_get(self.pairs(), altacc_key()) {
                None => r matches Err(SpaydError::FieldMissing(f)) && f@ == altacc_key(),
                Some(v) => r matches Ok(list) && list@.len() == split_on(v, ',').len() && forall|
                    i: int,
                |
                    0 <= i < list@.len() ==> (#[trigger] list@[i]).is_parts(split_on(v, ',')[i]),
            },
    {
        proof {
            reveal_strlit("ALT-ACC");
            assert("ALT-ACC"@ =~= altacc_key());
        }
        match self.field("ALT-ACC") {
            None => Err(SpaydError::FieldMissing("ALT-ACC".to_owned())),
            Some(t) => {
                let parts = split_commas(t);
                let ghost pviews = Seq::new(parts@.len(), |i: int| parts@[i]@);
                let mut out: Vec<IbanBic> = Vec::new();
                let mut i: usize = 0;
                while i < parts.len()
                    invariant
                        0 <= i <= parts@.len(),
                        pviews == Seq::new(parts@.len(), |j: int| parts@[j]@),
                        out@.len() == i,
                        forall|j: int|
                            0 <= j < i ==> (#[trigger] out@[j]).is_parts(pviews[j]),
                    decreases parts@.len() - i,
                {
                    let b = IbanBic::from_text(parts[i].as_str());
                    out.push(b);
                    i = i + 1;
                }
                Ok(out)
            },
        }
    }

    /// Set the alternative accounts field, joining the entries with commas.
    pub fn set_alternative_accounts(&mut self, accounts: Vec<IbanBic>)
        requires
            old(self).wf(),
        ensures
            final(self).wf(),
            final(self).spec_version() == old(self).spec_version(),
            final(self).pairs() == spec_insert(
                old(self).pairs(),
                altacc_key(),
                join_comma(Seq::new(accounts@.len(), |i: int| accounts@[i].text())),
            ),
    {
        proof {
            reveal_strlit("ALT-ACC");
            assert("ALT-ACC"@ =~= altacc_key());
        }
        let ghost xs = Seq::new(accounts@.len(), |i: int| accounts@[i].text());
        let mut s = String::new();
        if accounts.len() > 0 {
            let t0 = accounts[0].to_string();
            s.append(t0.as_str());
            proof {
                assert(s@ =~= xs[0]);
                assert(xs.skip(1) =~= xs.drop_first());
            }
            let mut i: usize = 1;
            while i < accounts.len()
                invariant
                    1 <= i <= accounts@.len(),
                    xs == Seq::new(accounts@.len(), |j: int| accounts@[j].text()),
                    s@ + join_comma_tail(xs.skip(i as int)) == join_comma(xs),
                decreases accounts@.len() - i,
            {
                let ghost pre = s@;
                proof {
                    reveal_strlit(",");
                    assert(","@ =~= seq![',']);
                    assert(xs.skip(i as int)[0] == xs[i as int]);
                    assert(xs.skip(i as int).drop_first() =~= xs.skip(i as int + 1));
                }
                s.append(",");
                let ti = accounts[i].to_string();
                s.append(ti.as_str());
                proof {
                    assert(s@ =~= pre + (seq![','] + xs[i as int]));
                    assert(join_comma_tail(xs.skip(i as int)) == seq![','] + xs[i as int]
                        + join_comma_tail(xs.skip(i as int + 1)));
                    assert(pre + (seq![','] + xs[i as int] + join_comma_tail(
                        xs.skip(i as int + 1),
                    )) =~= (pre + (seq![','] + xs[i as int])) + join_comma_tail(
                        xs.skip(i as int + 1),
                    ));
                }
                i = i + 1;
            }
            proof {
                assert(xs.skip(xs.len() as int) =~= Seq::<Seq<char>>::empty());
                assert(join_comma_tail(Seq::<Seq<char>>::empty()) =~= Seq::<char>::empty());
                assert(s@ =~= join_comma(xs));
            }
        } else {
            proof {
                assert(s@ =~= join_comma(xs));
            }
        }
        self.set_field("ALT-ACC", s.as_str());
    }

    /// The payment amount, as a decimal of the rust_decimal crate.
    pub fn amount(&self) -> (r: Result<rust_decimal::Decimal, SpaydError>)
        ensures
            match seq_get(self.pairs(), am_key()) {
                None => r matches Err(SpaydError::FieldMissing(f)) && f@ == am_key(),
                Some(v) => if decimal_accepts(v) {
                    r is Ok
                } else {
                    r matches Err(SpaydError::ConvertError(t)) && t@ == v
                },
            },
    {
        proof {
            reveal_strlit("AM");
            assert("AM"@ =~= am_key());
        }
        match self.field("AM") {
            None => Err(SpaydError::FieldMissing("AM".to_owned())),
            Some(t) => match decimal_from_text(t) {
                Some(d) => Ok(d),
                None => Err(SpaydError::ConvertError(t.to_owned())),
            },
        }
    }

    /// Set the amount field from a decimal, in its text form.
    pub fn set_amount(&mut self, amount: &rust_decimal::Decimal)
        requires
            old(self).wf(),
        ensures
            final(self).wf(),
            final(self).spec_version() == old(self).spec_version(),
            exists|t: Seq<char>|
                final(self).pairs() == #[trigger] spec_insert(old(self).pairs(), am_key(), t),
    {
        proof {
            reveal_strlit("AM");
            assert("AM"@ =~= am_key());
        }
        let t = decimal_text(amount);
        self.set_field("AM", t.as_str());
    }

    /// The payment currency, as an ISO 4217 value of the iso_currency crate.
    pub fn currency(&self) -> (r: Result<iso_currency::Currency, SpaydError>)
        ensures
            match seq_get(self.pairs(), cc_key()) {
                None => r matches Err(SpaydError::FieldMissing(f)) && f@ == cc_key(),
                Some(v) => if currency_code_known(v) {
                    r is Ok
                } else {
                    r matches Err(SpaydError::ConvertError(t)) && t@ == v
                },
            },
    {
        proof {
            reveal_strlit("CC");
            assert("CC"@ =~= cc_key());
        }
        match self.field("CC") {
            None => Err(SpaydError::FieldMissing("CC".to_owned())),
            Some(t) => match currency_from_code(t) {
                Some(c) => Ok(c),
                None => Err(SpaydError::ConvertError(t.to_owned())),
            },
        }
    }

    /// Set the currency field from an ISO 4217 value, as its three-letter
    /// code.
    pub fn set_currency(&mut self, currency: iso_currency::Currency)
        requires
            old(self).wf(),
        ensures
            final(self).wf(),
            final(self).spec_version() == old(self).spec_version(),
            exists|t: Seq<char>|
                t.len() == 3 && final(self).pairs() == #[trigger] spec_insert(
                    old(self).pairs(),
                    cc_key(),
                    t,
                ),
    {
        proof {
            reveal_strlit("CC");
            assert("CC"@ =~= cc_key());
        }
        let t = currency_code(currency);
        self.set_field("CC", t);
    }

    /// The due date, read from the eight-digit `YYYYMMDD` field text.
    #[verifier::loop_isolation(false)]
    pub fn due_date(&self) -> (r: Result<SpaydDate, SpaydError>)
        ensures
            match seq_get(self.pairs(), dt_key()) {
                None => r matches Err(SpaydError::FieldMissing(f)) && f@ == dt_key(),
                Some(v) => match spec_date_of_text(v) {
                    Some(d) => r == Ok::<SpaydDate, SpaydError>(d),
                    None => r matches Err(SpaydError::ConvertError(t)) && t@ == v,
                },
            },
    {
        proof {
            reveal_strlit("DT");
            assert("DT"@ =~= dt_key());
        }
        match self.field("DT") {
            None => Err(SpaydError::FieldMissing("DT".to_owned())),
            Some(t) => {
                let n = t.unicode_len();
                if n != 8 {
                    return Err(SpaydError::ConvertError(t.to_owned()));
                }
                let mut ds: Vec<u32> = Vec::new();
                let mut i: usize = 0;
                while i < 8
                    invariant
                        0 <= i <= 8,
                        t@.len() == 8,
                        ds@.len() == i,
                        forall|j: int|
                            0 <= j < i ==> 0x30 <= (#[trigger] t@[j]) as u32 <= 0x39 && ds@[j]
                                == crate::date::digit_char_val(t@[j]),
                    decreases 8 - i,
                {
                    let c = t.get_char(i);
                    let u = c as u32;
                    if u < 0x30 || u > 0x39 {
                        proof {
                            assert(!(0x30 <= t@[i as int] as u32 <= 0x39));
                        }
                        return Err(SpaydError::ConvertError(t.to_owned()));
                    }
                    ds.push(u - 0x30);
                    i = i + 1;
                }
                let y = ds[0] * 1000 + ds[1] * 100 + ds[2] * 10 + ds[3];
                let m = ds[4] * 10 + ds[5];
                let d = ds[6] * 10 + ds[7];
                match SpaydDate::from_ymd_opt(y, m, d) {
                    Some(date) => Ok(date),
                    None => Err(SpaydError::ConvertError(t.to_owned())),
                }
            },
        }
    }

    /// Set the due date field to the eight digits `YYYYMMDD`.
    pub fn set_due_date(&mut self, date: &SpaydDate)
        requires
            old(self).wf(),
            date.wf(),
        ensures
            final(self).wf(),
            final(self).spec_version() == old(self).spec_version(),
            final(self).pairs() == spec_insert(old(self).pairs(), dt_key(), date_text(*date)),
    {
        proof {
            reveal_strlit("DT");
            assert("DT"@ =~= dt_key());
        }
        let mut b: Vec<u8> = Vec::new();
        b.push(0x30 + (((date.year / 1000) % 10) as u8));
        b.push(0x30 + (((date.year / 100) % 10) as u8));
        b.push(0x30 + (((date.year / 10) % 10) as u8));
        b.push(0x30 + ((date.year % 10) as u8));
        b.push(0x30 + (((date.month / 10) % 10) as u8));
        b.push(0x30 + ((date.month % 10) as u8));
        b.push(0x30 + (((date.day / 10) % 10) as u8));
        b.push(0x30 + ((date.day % 10) as u8));
        proof {
            assert(b@ =~= date_bytes(*date));
        }
        let s = ascii_to_string(b);
        proof {
            assert(s@ == date_text(*date));
        }
        self.set_field("DT", s.as_str());
    }
}

} // verus!
