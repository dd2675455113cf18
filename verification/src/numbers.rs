//! Decimal and hexadecimal digit strings: the version numbers of the header
//! are written and read in decimal, the checksum field in hexadecimal.

use crate::codec::{hex_digit, hex_val, is_hex_byte, is_hex_byte_exec, hex_val_exec};
use vstd::prelude::*;

verus! {

pub open spec fn is_digit(b: u8) -> bool {
    0x30 <= b <= 0x39
}

/// How many decimal digits stand at the front of `bs`.
pub open spec fn digits_prefix_len(bs: Seq<u8>) -> int
    decreases bs.len(),
{
    if bs.len() == 0 || !is_digit(bs[0]) {
        0
    } else {
        1 + digits_prefix_len(bs.drop_first())
    }
}

pub proof fn lemma_digits_prefix_len_is(bs: Seq<u8>, n: int)
    requires
        0 <= n <= bs.len(),
        forall|j: int| 0 <= j < n ==> is_digit(#[trigger] bs[j]),
        n < bs.len() ==> !is_digit(bs[n]),
    ensures
        digits_prefix_len(bs) == n,
    decreases bs.len(),
{
    if n > 0 {
        assert(forall|j: int| 1 <= j < bs.len() ==> bs[j] == bs.drop_first()[j - 1]);
        lemma_digits_prefix_len_is(bs.drop_first(), n - 1);
    }
}

/// The number a decimal digit string denotes, most significant digit first.
pub open spec fn dec_val(bs: Seq<u8>) -> int
    decreases bs.len(),
{
    if bs.len() == 0 {
        0
    } else {
        dec_val(bs.drop_last()) * 10 + bs.last() - 0x30
    }
}

pub proof fn lemma_dec_val_nonneg(bs: Seq<u8>)
    requires
        forall|j: int| 0 <= j < bs.len() ==> is_digit(#[trigger] bs[j]),
    ensures
        dec_val(bs) >= 0,
    decreases bs.len(),
{
    if bs.len() > 0 {
        lemma_dec_val_nonneg(bs.drop_last());
    }
}

/// A longer digit string never denotes a smaller number.
pub proof fn lemma_dec_val_monotone(bs: Seq<u8>, i: int, j: int)
    requires
        0 <= i <= j <= bs.len(),
        forall|k: int| 0 <= k < j ==> is_digit(#[trigger] bs[k]),
    ensures
        dec_val(bs.take(i)) <= dec_val(bs.take(j)),
    decreases j - i,
{
    if i < j {
        lemma_dec_val_monotone(bs, i, j - 1);
        assert(bs.take(j).drop_last() =~= bs.take(j - 1));
        lemma_dec_val_nonneg(bs.take(j - 1));
        assert(dec_val(bs.take(j)) == dec_val(bs.take(j - 1)) * 10 + bs[j - 1] - 0x30);
    }
}

/// The decimal digit string of `n`, without leading zeroes.
pub open spec fn dec_bytes(n: nat) -> Seq<u8>
    decreases n,
{
    if n < 10 {
        seq![(0x30 + n) as u8]
    } else {
        dec_bytes(n / 10).push((0x30 + n % 10) as u8)
    }
}

pub proof fn lemma_dec_bytes_props(n: nat)
    ensures
        dec_bytes(n).len() >= 1,
        forall|j: int| 0 <= j < dec_bytes(n).len() ==> is_digit(#[trigger] dec_bytes(n)[j]),
        dec_val(dec_bytes(n)) == n,
    decreases n,
{
    if n < 10 {
        assert(dec_val(Seq::<u8>::empty()) == 0);
        assert(seq![(0x30 + n) as u8].drop_last() =~= Seq::<u8>::empty());
        assert(dec_val(seq![(0x30 + n) as u8]) == (0x30 + n) - 0x30);
    } else {
        lemma_dec_bytes_props(n / 10);
        let s = dec_bytes(n);
        assert(s.drop_last() =~= dec_bytes(n / 10));
        assert(dec_val(s) == dec_val(dec_bytes(n / 10)) * 10 + (0x30 + n % 10) - 0x30);
        assert((n / 10) * 10 + n % 10 == n) by {
            vstd::arithmetic::div_mod::lemma_fundamental_div_mod(n as int, 10);
        }
        assert forall|j: int| 0 <= j < s.len() implies is_digit(#[trigger] s[j]) by {
            if j < s.len() - 1 {
                assert(s[j] == dec_bytes(n / 10)[j]);
            }
        }
    }
}

/// Append the decimal digits of `n` to `out`.
pub(crate) fn push_dec(n: u32, out: &mut Vec<u8>)
    ensures
        final(out)@ == old(out)@ + dec_bytes(n as nat),
    decreases n,
{
    proof {
        lemma_dec_bytes_props(n as nat);
    }
    if n < 10 {
        out.push(0x30 + (n as u8));
        proof {
            assert(out@ =~= old(out)@ + dec_bytes(n as nat));
        }
    } else {
        push_dec(n / 10, out);
        out.push(0x30 + ((n % 10) as u8));
        proof {
            assert(out@ =~= old(out)@ + dec_bytes(n as nat));
        }
    }
}

/// The index right after the decimal digits that start at `from`.
pub(crate) fn scan_digits(v: &Vec<u8>, from: usize) -> (r: usize)
    requires
        from <= v@.len(),
    ensures
        from <= r <= v@.len(),
        r - from == digits_prefix_len(v@.skip(from as int)),
        forall|j: int| from <= j < r ==> is_digit(#[trigger] v@[j]),
        r < v@.len() ==> !is_digit(v@[r as int]),
{
    let mut i: usize = from;
    while i < v.len() && 0x30 <= v[i] && v[i] <= 0x39
        invariant
            from <= i <= v@.len(),
            forall|j: int| from <= j < i ==> is_digit(#[trigger] v@[j]),
        decreases v@.len() - i,
    {
        i = i + 1;
    }
    proof {
        let s = v@.skip(from as int);
        assert(forall|j: int| 0 <= j < s.len() ==> s[j] == v@[from + j]);
        lemma_digits_prefix_len_is(s, i - from);
    }
    i
}

/// Read the decimal number written at `v[from..to]`, refusing values that do
/// not fit in 32 bits.
pub(crate) fn parse_u32_dec(v: &Vec<u8>, from: usize, to: usize) -> (r: Option<u32>)
    requires
        from <= to <= v@.len(),
        forall|j: int| from <= j < to ==> is_digit(#[trigger] v@[j]),
    ensures
        ({
            let s = v@.subrange(from as int, to as int);
            match r {
                Some(x) => dec_val(s) == x,
                None => dec_val(s) > u32::MAX,
            }
        }),
{
    let ghost s = v@.subrange(from as int, to as int);
    let mut acc: u64 = 0;
    let mut i: usize = from;
    proof {
        assert(s.take(0) =~= Seq::<u8>::empty());
        assert(forall|j: int| 0 <= j < s.len() ==> s[j] == v@[from + j]);
    }
    while i < to
        invariant
            from <= i <= to <= v@.len(),
            forall|j: int| from <= j < to ==> is_digit(#[trigger] v@[j]),
            s == v@.subrange(from as int, to as int),
            forall|j: int| 0 <= j < s.len() ==> s[j] == v@[from + j],
            acc <= u32::MAX,
            acc == dec_val(s.take(i - from)),
        decreases to - i,
    {
        let d = v[i] - 0x30;
        let next: u64 = acc * 10 + (d as u64);
        proof {
            assert(s.take(i - from + 1).drop_last() =~= s.take(i - from));
            assert(dec_val(s.take(i - from + 1)) == dec_val(s.take(i - from)) * 10 + s[i - from]
                - 0x30);
        }
        if next > 0xFFFF_FFFF {
            proof {
                lemma_dec_val_monotone(s, i - from + 1, s.len() as int);
                assert(s.take(s.len() as int) =~= s);
            }
            return None;
        }
        acc = next;
        i = i + 1;
    }
    proof {
        assert(s.take(s.len() as int) =~= s);
    }
    Some(acc as u32)
}

pub open spec fn all_hex(bs: Seq<u8>) -> bool {
    forall|j: int| 0 <= j < bs.len() ==> is_hex_byte(#[trigger] bs[j])
}

/// The number a hex digit string denotes, most significant digit first.
pub open spec fn hex_seq_val(bs: Seq<u8>) -> int
    decreases bs.len(),
{
    if bs.len() == 0 {
        0
    } else {
        hex_seq_val(bs.drop_last()) * 16 + hex_val(bs.last())
    }
}

/// Whether `bs` reads as a base-16 unsigned 32-bit integer.
pub open spec fn hex_parses(bs: Seq<u8>) -> bool {
    bs.len() >= 1 && all_hex(bs) && hex_seq_val(bs) <= u32::MAX
}

pub proof fn lemma_hex_val_nonneg(bs: Seq<u8>)
    ensures
        hex_seq_val(bs) >= 0,
    decreases bs.len(),
{
    if bs.len() > 0 {
        lemma_hex_val_nonneg(bs.drop_last());
    }
}

pub proof fn lemma_hex_val_monotone(bs: Seq<u8>, i: int, j: int)
    requires
        0 <= i <= j <= bs.len(),
    ensures
        hex_seq_val(bs.take(i)) <= hex_seq_val(bs.take(j)),
    decreases j - i,
{
    if i < j {
        lemma_hex_val_monotone(bs, i, j - 1);
        assert(bs.take(j).drop_last() =~= bs.take(j - 1));
        lemma_hex_val_nonneg(bs.take(j - 1));
        assert(hex_seq_val(bs.take(j)) == hex_seq_val(bs.take(j - 1)) * 16 + hex_val(bs[j - 1]));
    }
}

/// Read the whole of `v` as a base-16 unsigned 32-bit integer.
pub(crate) fn parse_hex_u32(v: &Vec<u8>) -> (r: Option<u32>)
    ensures
        match r {
            Some(x) => hex_parses(v@) && hex_seq_val(v@) == x,
            None => !hex_parses(v@),
        },
{
    if v.len() == 0 {
        return None;
    }
    let mut acc: u64 = 0;
    let mut i: usize = 0;
    proof {
        assert(v@.take(0) =~= Seq::<u8>::empty());
    }
    while i < v.len()
        invariant
            0 <= i <= v@.len(),
            forall|j: int| 0 <= j < i ==> is_hex_byte(#[trigger] v@[j]),
            acc <= u32::MAX,
            acc == hex_seq_val(v@.take(i as int)),
        decreases v@.len() - i,
    {
        let b = v[i];
        if !is_hex_byte_exec(b) {
            return None;
        }
        let d = hex_val_exec(b);
        let next: u64 = acc * 16 + (d as u64);
        proof {
            assert(v@.take(i + 1).drop_last() =~= v@.take(i as int));
            assert(hex_seq_val(v@.take(i + 1)) == hex_seq_val(v@.take(i as int)) * 16 + hex_val(
                v@[i as int],
            ));
        }
        if next > 0xFFFF_FFFF {
            proof {
                lemma_hex_val_monotone(v@, i + 1, v@.len() as int);
                assert(v@.take(v@.len() as int) =~= v@);
            }
            return None;
        }
        acc = next;
        i = i + 1;
    }
    proof {
        assert(v@.take(v@.len() as int) =~= v@);
    }
    Some(acc as u32)
}

/// The eight-digit uppercase hex spelling of `n`.
pub open spec fn hex8_bytes(n: u32) -> Seq<u8> {
    seq![
        hex_digit(((n / 0x10000000) % 16) as u8),
        hex_digit(((n / 0x1000000) % 16) as u8),
        hex_digit(((n / 0x100000) % 16) as u8),
        hex_digit(((n / 0x10000) % 16) as u8),
        hex_digit(((n / 0x1000) % 16) as u8),
        hex_digit(((n / 0x100) % 16) as u8),
        hex_digit(((n / 0x10) % 16) as u8),
        hex_digit((n % 16) as u8),
    ]
}

proof fn lemma_hex_digit_props(x: u8)
    requires
        x < 16,
    ensures
        is_hex_byte(hex_digit(x)),
        hex_val(hex_digit(x)) == x,
        hex_digit(x) < 0x80,
{
}

/// The eight hex digits of `n` read back as `n`.
pub proof fn lemma_hex8_bytes(n: u32)
    ensures
        hex8_bytes(n).len() == 8,
        all_hex(hex8_bytes(n)),
        forall|j: int| 0 <= j < 8 ==> #[trigger] hex8_bytes(n)[j] < 0x80,
        hex_seq_val(hex8_bytes(n)) == n,
        hex_parses(hex8_bytes(n)),
{
    let x = n as int;
    let q0 = x;
    let q1 = x / 0x10;
    let q2 = x / 0x100;
    let q3 = x / 0x1000;
    let q4 = x / 0x10000;
    let q5 = x / 0x100000;
    let q6 = x / 0x1000000;
    let q7 = x / 0x10000000;
    assert(q1 / 0x10 == q2 && q2 / 0x10 == q3 && q3 / 0x10 == q4 && q4 / 0x10 == q5 && q5 / 0x10
        == q6 && q6 / 0x10 == q7) by {
        vstd::arithmetic::div_mod::lemma_div_denominator(x, 0x10, 0x10);
        vstd::arithmetic::div_mod::lemma_div_denominator(x, 0x100, 0x10);
        vstd::arithmetic::div_mod::lemma_div_denominator(x, 0x1000, 0x10);
        vstd::arithmetic::div_mod::lemma_div_denominator(x, 0x10000, 0x10);
        vstd::arithmetic::div_mod::lemma_div_denominator(x, 0x100000, 0x10);
        vstd::arithmetic::div_mod::lemma_div_denominator(x, 0x1000000, 0x10);
    }
    assert(q0 == q1 * 0x10 + q0 % 0x10 && q1 == q2 * 0x10 + q1 % 0x10 && q2 == q3 * 0x10 + q2
        % 0x10 && q3 == q4 * 0x10 + q3 % 0x10 && q4 == q5 * 0x10 + q4 % 0x10 && q5 == q6 * 0x10
        + q5 % 0x10 && q6 == q7 * 0x10 + q6 % 0x10) by {
        vstd::arithmetic::div_mod::lemma_fundamental_div_mod(q0, 0x10);
        vstd::arithmetic::div_mod::lemma_fundamental_div_mod(q1, 0x10);
        vstd::arithmetic::div_mod::lemma_fundamental_div_mod(q2, 0x10);
        vstd::arithmetic::div_mod::lemma_fundamental_div_mod(q3, 0x10);
        vstd::arithmetic::div_mod::lemma_fundamental_div_mod(q4, 0x10);
        vstd::arithmetic::div_mod::lemma_fundamental_div_mod(q5, 0x10);
        vstd::arithmetic::div_mod::lemma_fundamental_div_mod(q6, 0x10);
    }
    assert(q7 < 0x10) by (nonlinear_arith)
        requires
            q7 == x / 0x10000000,
            0 <= x < 0x100000000,
    ;
    assert(q7 % 0x10 == q7) by {
        vstd::arithmetic::div_mod::lemma_small_mod(q7 as nat, 0x10);
    }
    assert(0 <= q0 % 0x10 < 0x10 && 0 <= q1 % 0x10 < 0x10 && 0 <= q2 % 0x10 < 0x10 && 0 <= q3
        % 0x10 < 0x10 && 0 <= q4 % 0x10 < 0x10 && 0 <= q5 % 0x10 < 0x10 && 0 <= q6 % 0x10 < 0x10)
        by {
        vstd::arithmetic::div_mod::lemma_mod_bound(q0, 0x10);
        vstd::arithmetic::div_mod::lemma_mod_bound(q1, 0x10);
        vstd::arithmetic::div_mod::lemma_mod_bound(q2, 0x10);
        vstd::arithmetic::div_mod::lemma_mod_bound(q3, 0x10);
        vstd::arithmetic::div_mod::lemma_mod_bound(q4, 0x10);
        vstd::arithmetic::div_mod::lemma_mod_bound(q5, 0x10);
        vstd::arithmetic::div_mod::lemma_mod_bound(q6, 0x10);
    }
    let v0 = (q7 % 0x10) as u8;
    let v1 = (q6 % 0x10) as u8;
    let v2 = (q5 % 0x10) as u8;
    let v3 = (q4 % 0x10) as u8;
    let v4 = (q3 % 0x10) as u8;
    let v5 = (q2 % 0x10) as u8;
    let v6 = (q1 % 0x10) as u8;
    let v7 = (q0 % 0x10) as u8;
    lemma_hex_digit_props(v0);
    lemma_hex_digit_props(v1);
    lemma_hex_digit_props(v2);
    lemma_hex_digit_props(v3);
    lemma_hex_digit_props(v4);
    lemma_hex_digit_props(v5);
    lemma_hex_digit_props(v6);
    lemma_hex_digit_props(v7);
    let s = hex8_bytes(n);
    assert(s[0] == hex_digit(v0) && s[1] == hex_digit(v1) && s[2] == hex_digit(v2) && s[3]
        == hex_digit(v3) && s[4] == hex_digit(v4) && s[5] == hex_digit(v5) && s[6] == hex_digit(v6)
        && s[7] == hex_digit(v7));
    let s1 = seq![s[0]];
    let s2 = seq![s[0], s[1]];
    let s3 = seq![s[0], s[1], s[2]];
    let s4 = seq![s[0], s[1], s[2], s[3]];
    let s5 = seq![s[0], s[1], s[2], s[3], s[4]];
    let s6 = seq![s[0], s[1], s[2], s[3], s[4], s[5]];
    let s7 = seq![s[0], s[1], s[2], s[3], s[4], s[5], s[6]];
    assert(hex_seq_val(Seq::<u8>::empty()) == 0);
    assert(s1.drop_last() =~= Seq::<u8>::empty());
    assert(hex_seq_val(s1) == v0);
    assert(s2.drop_last() =~= s1);
    assert(hex_seq_val(s2) == hex_seq_val(s1) * 16 + v1);
    assert(s3.drop_last() =~= s2);
    assert(hex_seq_val(s3) == hex_seq_val(s2) * 16 + v2);
    assert(s4.drop_last() =~= s3);
    assert(hex_seq_val(s4) == hex_seq_val(s3) * 16 + v3);
    assert(s5.drop_last() =~= s4);
    assert(hex_seq_val(s5) == hex_seq_val(s4) * 16 + v4);
    assert(s6.drop_last() =~= s5);
    assert(hex_seq_val(s6) == hex_seq_val(s5) * 16 + v5);
    assert(s7.drop_last() =~= s6);
    assert(hex_seq_val(s7) == hex_seq_val(s6) * 16 + v6);
    assert(s.drop_last() =~= s7);
    assert(hex_seq_val(s) == hex_seq_val(s7) * 16 + v7);
    assert(hex_seq_val(s) == x);
}

} // verus!
