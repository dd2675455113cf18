//! Percent-encoding and -decoding of field names and values.
//!
//! Encoding works byte-wise over the UTF-8 bytes of a text: the two wire
//! separators `*` and `:`, the percent sign itself, every ASCII control
//! character and every non-ASCII byte become `%XX` with uppercase hex digits;
//! all other bytes stand for themselves. Decoding reverses the escapes and is
//! lenient about a `%` that no two hex digits follow: it passes through.

use crate::text::all_printable;
use vstd::prelude::*;

verus! {

pub const STAR: u8 = 0x2a;

pub const COLON: u8 = 0x3a;

pub const PERCENT: u8 = 0x25;

/// Bytes that may not stand for themselves in encoded text.
pub open spec fn must_escape(b: u8) -> bool {
    b < 0x20 || b == 0x7f || b >= 0x80 || b == PERCENT || b == STAR || b == COLON
}

/// The uppercase hex digit for a value below 16.
pub open spec fn hex_digit(x: u8) -> u8
    recommends
        x < 16,
{
    if x < 10 {
        (0x30 + x) as u8
    } else {
        (0x41 + (x - 10)) as u8
    }
}

pub open spec fn is_hex_byte(b: u8) -> bool {
    (0x30 <= b <= 0x39) || (0x41 <= b <= 0x46) || (0x61 <= b <= 0x66)
}

/// The value of a hex digit byte, either case.
pub open spec fn hex_val(b: u8) -> u8
    recommends
        is_hex_byte(b),
{
    if 0x30 <= b <= 0x39 {
        (b - 0x30) as u8
    } else if 0x41 <= b <= 0x46 {
        (b - 0x41 + 10) as u8
    } else {
        (b - 0x61 + 10) as u8
    }
}

/// What one byte becomes in encoded text.
pub open spec fn enc_byte(b: u8) -> Seq<u8> {
    if must_escape(b) {
        seq![PERCENT, hex_digit(b / 16), hex_digit(b % 16)]
    } else {
        seq![b]
    }
}

/// Percent-encode a byte string.
pub open spec fn pct_encode(bs: Seq<u8>) -> Seq<u8>
    decreases bs.len(),
{
    if bs.len() == 0 {
        seq![]
    } else {
        enc_byte(bs[0]) + pct_encode(bs.drop_first())
    }
}

/// Percent-decode a byte string. A `%` starts an escape only when two hex
/// digits follow it; otherwise the byte passes through unchanged.
pub open spec fn pct_decode(bs: Seq<u8>) -> Seq<u8>
    decreases bs.len(),
{
    if bs.len() == 0 {
        seq![]
    } else if bs[0] == PERCENT && bs.len() >= 3 && is_hex_byte(bs[1]) && is_hex_byte(bs[2]) {
        seq![(hex_val(bs[1]) * 16 + hex_val(bs[2])) as u8] + pct_decode(bs.skip(3))
    } else {
        seq![bs[0]] + pct_decode(bs.drop_first())
    }
}

/// Encoded text is printable ASCII and free of the wire separators and of `%`
/// anywhere but at the start of an escape.
pub proof fn lemma_pct_encode_shape(bs: Seq<u8>)
    ensures
        all_printable(pct_encode(bs)),
        forall|i: int|
            0 <= i < pct_encode(bs).len() ==> #[trigger] pct_encode(bs)[i] != STAR && pct_encode(
                bs,
            )[i] != COLON,
        pct_encode(bs).len() >= bs.len(),
        bs.len() > 0 ==> pct_encode(bs).len() > 0,
    decreases bs.len(),
{
    if bs.len() > 0 {
        lemma_pct_encode_shape(bs.drop_first());
        let e = enc_byte(bs[0]);
        let rest = pct_encode(bs.drop_first());
        assert forall|i: int| 0 <= i < pct_encode(bs).len() implies crate::text::printable_byte(
            #[trigger] pct_encode(bs)[i],
        ) && pct_encode(bs)[i] != STAR && pct_encode(bs)[i] != COLON by {
            if i < e.len() {
                assert(pct_encode(bs)[i] == e[i]);
            } else {
                assert(pct_encode(bs)[i] == rest[i - e.len()]);
            }
        }
    }
}

/// Decoding undoes encoding, byte for byte.
pub proof fn lemma_pct_roundtrip(bs: Seq<u8>)
    ensures
        pct_decode(pct_encode(bs)) == bs,
    decreases bs.len(),
{
    if bs.len() == 0 {
        assert(pct_decode(pct_encode(bs)) =~= bs);
    } else {
        let b = bs[0];
        let e = enc_byte(b);
        let rest = pct_encode(bs.drop_first());
        lemma_pct_roundtrip(bs.drop_first());
        if must_escape(b) {
            let out = pct_encode(bs);
            assert(out[0] == PERCENT && out[1] == hex_digit(b / 16) && out[2] == hex_digit(b % 16));
            assert(is_hex_byte(hex_digit(b / 16)) && hex_val(hex_digit(b / 16)) == b / 16);
            assert(is_hex_byte(hex_digit(b % 16)) && hex_val(hex_digit(b % 16)) == b % 16);
            assert((b / 16) * 16 + b % 16 == b) by {
                vstd::arithmetic::div_mod::lemma_fundamental_div_mod(b as int, 16);
            }
            assert(out.skip(3) =~= rest);
            assert(pct_decode(out) =~= bs);
        } else {
            let out = pct_encode(bs);
            assert(out[0] == b && b != PERCENT);
            assert(out.drop_first() =~= rest);
            assert(pct_decode(out) =~= bs);
        }
    }
}

/// Escaping correctness: percent-encoding the UTF-8 bytes of any text, then
/// reversing the escapes and reading the bytes back as UTF-8, reproduces the
/// text exactly; and the encoded form is printable ASCII that never holds an
/// unescaped `*` or `:`.
pub proof fn lemma_codec_roundtrip(s: Seq<char>)
    ensures
        ({
            let e = pct_encode(vstd::utf8::encode_utf8(s));
            &&& vstd::utf8::valid_utf8(pct_decode(e))
            &&& vstd::utf8::decode_utf8(pct_decode(e)) == s
            &&& all_printable(e)
            &&& forall|i: int| 0 <= i < e.len() ==> #[trigger] e[i] != STAR && e[i] != COLON
        }),
{
    lemma_pct_roundtrip(vstd::utf8::encode_utf8(s));
    vstd::utf8::encode_utf8_valid_utf8(s);
    vstd::utf8::encode_utf8_decode_utf8(s);
    lemma_pct_encode_shape(vstd::utf8::encode_utf8(s));
}

/// Percent-encode the bytes of `bs`.
pub(crate) fn pct_encode_exec(bs: &Vec<u8>) -> (r: Vec<u8>)
    ensures
        r@ == pct_encode(bs@),
{
    let mut r: Vec<u8> = Vec::new();
    let mut i: usize = 0;
    proof {
        assert(bs@.skip(0) =~= bs@);
    }
    while i < bs.len()
        invariant
            0 <= i <= bs@.len(),
            r@ + pct_encode(bs@.skip(i as int)) == pct_encode(bs@),
        decreases bs@.len() - i,
    {
        let b = bs[i];
        let ghost pre = r@;
        if b < 0x20 || b == 0x7f || b >= 0x80 || b == PERCENT || b == STAR || b == COLON {
            r.push(PERCENT);
            let hi = b / 16;
            let lo = b % 16;
            r.push(if hi < 10 { 0x30 + hi } else { 0x41 + (hi - 10) });
            r.push(if lo < 10 { 0x30 + lo } else { 0x41 + (lo - 10) });
            proof {
                assert(r@ =~= pre + enc_byte(b));
            }
        } else {
            r.push(b);
            proof {
                assert(r@ =~= pre + enc_byte(b));
            }
        }
        proof {
            let s = bs@.skip(i as int);
            assert(s[0] == b);
            assert(s.drop_first() =~= bs@.skip(i as int + 1));
            assert(pct_encode(s) == enc_byte(b) + pct_encode(bs@.skip(i as int + 1)));
            assert(pre + (enc_byte(b) + pct_encode(bs@.skip(i as int + 1))) =~= (pre + enc_byte(b))
                + pct_encode(bs@.skip(i as int + 1)));
        }
        i = i + 1;
    }
    proof {
        assert(bs@.skip(bs@.len() as int) =~= Seq::<u8>::empty());
        assert(r@ =~= r@ + pct_encode(bs@.skip(bs@.len() as int)));
    }
    r
}

pub(crate) fn is_hex_byte_exec(b: u8) -> (r: bool)
    ensures
        r == is_hex_byte(b),
{
    (0x30 <= b && b <= 0x39) || (0x41 <= b && b <= 0x46) || (0x61 <= b && b <= 0x66)
}

pub(crate) fn hex_val_exec(b: u8) -> (r: u8)
    requires
        is_hex_byte(b),
    ensures
        r == hex_val(b),
{
    if 0x30 <= b && b <= 0x39 {
        b - 0x30
    } else if 0x41 <= b && b <= 0x46 {
        b - 0x41 + 10
    } else {
        b - 0x61 + 10
    }
}

/// Percent-decode the bytes of `bs`.
pub(crate) fn pct_decode_exec(bs: &Vec<u8>) -> (r: Vec<u8>)
    ensures
        r@ == pct_decode(bs@),
{
    let mut r: Vec<u8> = Vec::new();
    let mut i: usize = 0;
    proof {
        assert(bs@.skip(0) =~= bs@);
    }
    while i < bs.len()
        invariant
            0 <= i <= bs@.len(),
            r@ + pct_decode(bs@.skip(i as int)) == pct_decode(bs@),
        decreases bs@.len() - i,
    {
        let ghost s = bs@.skip(i as int);
        let ghost pre = r@;
        let b = bs[i];
        proof {
            assert(s[0] == b);
        }
        if b == PERCENT && bs.len() - i > 2 && is_hex_byte_exec(bs[i + 1]) && is_hex_byte_exec(
            bs[i + 2],
        ) {
            proof {
                assert(s.len() >= 3 && s[1] == bs@[i + 1] && s[2] == bs@[i + 2]);
            }
            let v = hex_val_exec(bs[i + 1]) * 16 + hex_val_exec(bs[i + 2]);
            r.push(v);
            proof {
                assert(s.skip(3) =~= bs@.skip(i as int + 3));
                assert(pct_decode(s) == seq![v] + pct_decode(bs@.skip(i as int + 3)));
                assert(r@ =~= pre + seq![v]);
                assert(pre + (seq![v] + pct_decode(bs@.skip(i as int + 3))) =~= r@ + pct_decode(
                    bs@.skip(i as int + 3),
                ));
            }
            i = i + 3;
        } else {
            proof {
                if b == PERCENT && s.len() >= 3 {
                    assert(s[1] == bs@[i + 1] && s[2] == bs@[i + 2]);
                }
            }
            r.push(b);
            proof {
                assert(s.drop_first() =~= bs@.skip(i as int + 1));
                assert(pct_decode(s) == seq![b] + pct_decode(bs@.skip(i as int + 1)));
                assert(r@ =~= pre + seq![b]);
                assert(pre + (seq![b] + pct_decode(bs@.skip(i as int + 1))) =~= r@ + pct_decode(
                    bs@.skip(i as int + 1),
                ));
            }
            i = i + 1;
        }
    }
    proof {
        assert(bs@.skip(bs@.len() as int) =~= Seq::<u8>::empty());
        assert(r@ =~= r@ + pct_decode(bs@.skip(bs@.len() as int)));
    }
    r
}

} // verus!
