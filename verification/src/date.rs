//! A calendar date as plain values, for the due-date field. The wire form of
//! a date is eight digits, `YYYYMMDD`.

use crate::text::ascii_view;
use vstd::prelude::*;

verus! {

/// A calendar date: year, month and day, with the Gregorian leap-year rule.
#[derive(Clone, Copy, PartialEq, Eq, Structural, Debug)]
pub struct SpaydDate {
    pub year: u32,
    pub month: u32,
    pub day: u32,
}

pub open spec fn is_leap_year(y: u32) -> bool {
    y % 4 == 0 && (y % 100 != 0 || y % 400 == 0)
}

pub open spec fn days_in_month(y: u32, m: u32) -> u32 {
    if m == 2 {
        if is_leap_year(y) {
            29
        } else {
            28
        }
    } else if m == 4 || m == 6 || m == 9 || m == 11 {
        30
    } else {
        31
    }
}

fn is_leap_year_exec(y: u32) -> (r: bool)
    ensures
        r == is_leap_year(y),
{
    y % 4 == 0 && (y % 100 != 0 || y % 400 == 0)
}

fn days_in_month_exec(y: u32, m: u32) -> (r: u32)
    ensures
        r == days_in_month(y, m),
{
    if m == 2 {
        if is_leap_year_exec(y) {
            29
        } else {
            28
        }
    } else if m == 4 || m == 6 || m == 9 || m == 11 {
        30
    } else {
        31
    }
}

impl SpaydDate {
    /// A valid calendar date that eight digits can carry.
    pub open spec fn wf(self) -> bool {
        &&& self.year <= 9999
        &&& 1 <= self.month <= 12
        &&& 1 <= self.day <= days_in_month(self.year, self.month)
    }

    /// The date with the given year, month and day, or `None` when they name
    /// no valid calendar date.
    pub fn from_ymd_opt(year: u32, month: u32, day: u32) -> (r: Option<SpaydDate>)
        ensures
            match r {
                Some(d) => d == (SpaydDate { year, month, day }) && d.wf(),
                None => !(SpaydDate { year, month, day }).wf(),
            },
    {
        if year <= 9999 && 1 <= month && month <= 12 && 1 <= day && day <= days_in_month_exec(
            year,
            month,
        ) {
            Some(SpaydDate { year, month, day })
        } else {
            None
        }
    }
}

/// The eight digit bytes `YYYYMMDD` of a date.
pub open spec fn date_bytes(d: SpaydDate) -> Seq<u8> {
    seq![
        (0x30 + (d.year / 1000) % 10) as u8,
        (0x30 + (d.year / 100) % 10) as u8,
        (0x30 + (d.year / 10) % 10) as u8,
        (0x30 + d.year % 10) as u8,
        (0x30 + (d.month / 10) % 10) as u8,
        (0x30 + d.month % 10) as u8,
        (0x30 + (d.day / 10) % 10) as u8,
        (0x30 + d.day % 10) as u8,
    ]
}

/// The eight-character text `YYYYMMDD` of a date.
pub open spec fn date_text(d: SpaydDate) -> Seq<char> {
    ascii_view(date_bytes(d))
}

/// The digit value of a character, where it is one.
pub open spec fn digit_char_val(c: char) -> u32
    recommends
        0x30 <= c as u32 <= 0x39,
{
    (c as u32 - 0x30) as u32
}

/// What eight-digit text names which date: the text must be exactly eight
/// digits and the named date a valid calendar date.
pub open spec fn spec_date_of_text(v: Seq<char>) -> Option<SpaydDate> {
    if v.len() == 8 && (forall|i: int| 0 <= i < 8 ==> 0x30 <= (#[trigger] v[i]) as u32 <= 0x39) {
        let d = SpaydDate {
            year: (digit_char_val(v[0]) * 1000 + digit_char_val(v[1]) * 100 + digit_char_val(v[2])
                * 10 + digit_char_val(v[3])) as u32,
            month: (digit_char_val(v[4]) * 10 + digit_char_val(v[5])) as u32,
            day: (digit_char_val(v[6]) * 10 + digit_char_val(v[7])) as u32,
        };
        if d.wf() {
            Some(d)
        } else {
            None
        }
    } else {
        None
    }
}

/// Writing a valid date as its eight digits and reading them back yields
/// the same date.
pub proof fn lemma_date_text_roundtrip(d: SpaydDate)
    requires
        d.wf(),
    ensures
        spec_date_of_text(date_text(d)) == Some(d),
{
    let bs = date_bytes(d);
    let v = date_text(d);
    let y = d.year as int;
    let mo = d.month as int;
    let dy = d.day as int;
    assert(y / 10 / 10 == y / 100 && y / 100 / 10 == y / 1000) by {
        vstd::arithmetic::div_mod::lemma_div_denominator(y, 10, 10);
        vstd::arithmetic::div_mod::lemma_div_denominator(y, 100, 10);
    }
    assert(y == (y / 10) * 10 + y % 10 && y / 10 == (y / 100) * 10 + (y / 10) % 10 && y / 100 == (y
        / 1000) * 10 + (y / 100) % 10 && mo == (mo / 10) * 10 + mo % 10 && dy == (dy / 10) * 10 + dy
        % 10) by {
        vstd::arithmetic::div_mod::lemma_fundamental_div_mod(y, 10);
        vstd::arithmetic::div_mod::lemma_fundamental_div_mod(y / 10, 10);
        vstd::arithmetic::div_mod::lemma_fundamental_div_mod(y / 100, 10);
        vstd::arithmetic::div_mod::lemma_fundamental_div_mod(mo, 10);
        vstd::arithmetic::div_mod::lemma_fundamental_div_mod(dy, 10);
    }
    assert(y / 1000 < 10 && mo / 10 < 10 && dy / 10 < 10) by (nonlinear_arith)
        requires
            0 <= y < 10000,
            0 <= mo <= 12,
            0 <= dy <= 31,
    ;
    assert(y / 1000 % 10 == y / 1000 && mo / 10 % 10 == mo / 10 && dy / 10 % 10 == dy / 10) by {
        vstd::arithmetic::div_mod::lemma_small_mod((y / 1000) as nat, 10);
        vstd::arithmetic::div_mod::lemma_small_mod((mo / 10) as nat, 10);
        vstd::arithmetic::div_mod::lemma_small_mod((dy / 10) as nat, 10);
    }
    assert(0 <= y % 10 < 10 && 0 <= (y / 10) % 10 < 10 && 0 <= (y / 100) % 10 < 10 && 0 <= mo % 10
        < 10 && 0 <= dy % 10 < 10) by {
        vstd::arithmetic::div_mod::lemma_mod_bound(y, 10);
        vstd::arithmetic::div_mod::lemma_mod_bound(y / 10, 10);
        vstd::arithmetic::div_mod::lemma_mod_bound(y / 100, 10);
        vstd::arithmetic::div_mod::lemma_mod_bound(mo, 10);
        vstd::arithmetic::div_mod::lemma_mod_bound(dy, 10);
    }
    assert forall|i: int| 0 <= i < 8 implies 0x30 <= (#[trigger] v[i]) as u32 <= 0x39 by {
        assert(v[i] == bs[i] as char);
        assert((bs[i] as char) as u32 == bs[i]);
    }
    assert(v.len() == 8);
    let built = SpaydDate {
        year: (digit_char_val(v[0]) * 1000 + digit_char_val(v[1]) * 100 + digit_char_val(v[2]) * 10
            + digit_char_val(v[3])) as u32,
        month: (digit_char_val(v[4]) * 10 + digit_char_val(v[5])) as u32,
        day: (digit_char_val(v[6]) * 10 + digit_char_val(v[7])) as u32,
    };
    assert(digit_char_val(v[0]) == (y / 1000) % 10);
    assert(digit_char_val(v[1]) == (y / 100) % 10);
    assert(digit_char_val(v[2]) == (y / 10) % 10);
    assert(digit_char_val(v[3]) == y % 10);
    assert(digit_char_val(v[4]) == (mo / 10) % 10);
    assert(digit_char_val(v[5]) == mo % 10);
    assert(digit_char_val(v[6]) == (dy / 10) % 10);
    assert(digit_char_val(v[7]) == dy % 10);
    assert(built.year == y && built.month == mo && built.day == dy);
    assert(built == d);
}

} // verus!
