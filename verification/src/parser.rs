//! The parser: raw text in, a descriptor out. The input must be printable
//! ASCII throughout; the grammar is `SPD*<major>.<minor>` followed by at
//! least one `*<name>:<value>` field, names and values percent-encoded. The
//! whole input must be consumed. A name that repeats keeps its last value.

use crate::codec::{pct_decode, pct_decode_exec, pct_encode, COLON, STAR};
use crate::error::{ParseFault, SpaydError};
use crate::numbers::{dec_val, digits_prefix_len, parse_u32_dec, scan_digits};
use crate::spayd::{display_bytes, fields_bytes, header_bytes, segment_bytes, Spayd, SpaydVersion};
use crate::store::spec_insert;
use crate::text::{
    all_printable, ascii_to_string, find_first, lemma_find_first_is, lemma_find_first_none,
    printable_byte, split_on, string_from_utf8, subvec,
};
use vstd::prelude::*;
use vstd::string::StrSliceExecFns;
use vstd::utf8::{
    decode_utf8, decode_utf8_encode_utf8, encode_utf8, encode_utf8_valid_utf8, is_char_boundary,
    length_of_first_scalar, pop_first_scalar, valid_first_scalar, valid_utf8, valid_utf8_split,
};

verus! {

/// The outcome of parsing, as a mathematical value: the parsed version and
/// store, or the reason and the not-yet-consumed fragment of the refusal.
pub enum ParseOutcome {
    Parsed(SpaydVersion, Seq<(Seq<char>, Seq<char>)>),
    Fault(ParseFault, Seq<u8>),
    BadEncoding(Seq<u8>),
}

/// The bytes of the literal header prefix `SPD*`.
pub open spec fn spd_lit() -> Seq<u8> {
    seq![0x53u8, 0x50u8, 0x44u8, 0x2au8]
}

/// Index of the first byte outside printable ASCII; the length when none is.
pub open spec fn first_bad(bs: Seq<u8>) -> int
    decreases bs.len(),
{
    if bs.len() == 0 {
        0
    } else if !printable_byte(bs[0]) {
        0
    } else {
        1 + first_bad(bs.drop_first())
    }
}

pub proof fn lemma_first_bad_is(bs: Seq<u8>, n: int)
    requires
        0 <= n <= bs.len(),
        forall|j: int| 0 <= j < n ==> printable_byte(#[trigger] bs[j]),
        n < bs.len() ==> !printable_byte(bs[n]),
    ensures
        first_bad(bs) == n,
    decreases bs.len(),
{
    if n > 0 {
        assert(forall|j: int| 1 <= j < bs.len() ==> bs[j] == bs.drop_first()[j - 1]);
        lemma_first_bad_is(bs.drop_first(), n - 1);
    }
}

/// Parse and fold the encoded field entries, left to right.
pub open spec fn spec_parse_fields(
    segs: Seq<Seq<u8>>,
    v: SpaydVersion,
    acc: Seq<(Seq<char>, Seq<char>)>,
) -> ParseOutcome
    decreases segs.len(),
{
    if segs.len() == 0 {
        ParseOutcome::Parsed(v, acc)
    } else {
        let seg = segs[0];
        match find_first(seg, COLON) {
            None => ParseOutcome::Fault(ParseFault::MalformedField, seg),
            Some(ci) => {
                if ci == 0 {
                    ParseOutcome::Fault(ParseFault::MalformedField, seg)
                } else {
                    let nb = pct_decode(seg.take(ci));
                    let vb = pct_decode(seg.skip(ci + 1));
                    if !valid_utf8(nb) {
                        ParseOutcome::BadEncoding(seg.take(ci))
                    } else if !valid_utf8(vb) {
                        ParseOutcome::BadEncoding(seg.skip(ci + 1))
                    } else {
                        spec_parse_fields(
                            segs.drop_first(),
                            v,
                            spec_insert(acc, decode_utf8(nb), decode_utf8(vb)),
                        )
                    }
                }
            },
        }
    }
}

/// What parsing the given input bytes yields.
pub open spec fn spec_parse(bs: Seq<u8>) -> ParseOutcome {
    let fb = first_bad(bs);
    if fb < bs.len() {
        ParseOutcome::Fault(ParseFault::IllegalCharacter, bs.skip(fb))
    } else if bs.len() < 4 || bs.subrange(0, 4) != spd_lit() {
        ParseOutcome::Fault(ParseFault::BadHeader, bs)
    } else {
        let r1 = bs.skip(4);
        let d1 = digits_prefix_len(r1);
        if d1 == 0 || dec_val(r1.take(d1)) > u32::MAX {
            ParseOutcome::Fault(ParseFault::BadVersion, r1)
        } else if d1 == r1.len() || r1[d1] != 0x2e {
            ParseOutcome::Fault(ParseFault::BadVersion, r1)
        } else {
            let r2 = r1.skip(d1 + 1);
            let d2 = digits_prefix_len(r2);
            if d2 == 0 || dec_val(r2.take(d2)) > u32::MAX {
                ParseOutcome::Fault(ParseFault::BadVersion, r2)
            } else if d2 == r2.len() || r2[d2] != STAR {
                ParseOutcome::Fault(ParseFault::BadHeader, r2.skip(d2))
            } else {
                let body = r2.skip(d2 + 1);
                if body.len() == 0 {
                    ParseOutcome::Fault(ParseFault::EmptyFieldList, body)
                } else {
                    let v = SpaydVersion {
                        major: dec_val(r1.take(d1)) as u32,
                        minor: dec_val(r2.take(d2)) as u32,
                    };
                    spec_parse_fields(
                        split_on(body, STAR),
                        v,
                        Seq::<(Seq<char>, Seq<char>)>::empty(),
                    )
                }
            }
        }
    }
}

/// Every part that splitting printable text yields is printable.
pub proof fn lemma_split_on_printable(s: Seq<u8>, x: u8)
    requires
        all_printable(s),
    ensures
        forall|i: int|
            0 <= i < split_on(s, x).len() ==> all_printable(#[trigger] split_on(s, x)[i]),
    decreases s.len(),
{
    crate::text::lemma_find_first_spec(s, x);
    match find_first(s, x) {
        None => {},
        Some(k) => {
            assert(all_printable(s.take(k))) by {
                assert(forall|j: int| 0 <= j < k ==> s.take(k)[j] == s[j]);
            }
            assert(all_printable(s.skip(k + 1))) by {
                assert(forall|j: int|
                    0 <= j < s.len() - k - 1 ==> #[trigger] s.skip(k + 1)[j] == s[j + k + 1]);
            }
            lemma_split_on_printable(s.skip(k + 1), x);
            assert forall|i: int| 0 <= i < split_on(s, x).len() implies all_printable(
                #[trigger] split_on(s, x)[i],
            ) by {
                if i > 0 {
                    assert(split_on(s, x)[i] == split_on(s.skip(k + 1), x)[i - 1]);
                }
            }
        },
    }
}

/// In valid UTF-8, a position that only ASCII bytes precede starts a
/// character.
proof fn lemma_ascii_prefix_boundary(bs: Seq<u8>, i: int)
    requires
        valid_utf8(bs),
        0 <= i <= bs.len(),
        forall|j: int| 0 <= j < i ==> #[trigger] bs[j] < 0x80,
    ensures
        is_char_boundary(bs, i),
    decreases i,
{
    if i > 0 {
        assert(valid_first_scalar(bs));
        assert(length_of_first_scalar(bs) == 1);
        let rest = pop_first_scalar(bs);
        assert(rest =~= bs.skip(1));
        assert(forall|j: int| 0 <= j < i - 1 ==> #[trigger] rest[j] < 0x80);
        lemma_ascii_prefix_boundary(rest, i - 1);
    }
}

/// The views of a sequence of byte vectors.
pub open spec fn views_of(s: Seq<Vec<u8>>) -> Seq<Seq<u8>> {
    Seq::new(s.len(), |i: int| s[i]@)
}

/// Split `v[from..]` on every `*`.
fn split_star(v: &Vec<u8>, from: usize) -> (r: Vec<Vec<u8>>)
    requires
        from <= v@.len(),
    ensures
        views_of(r@) == split_on(v@.skip(from as int), STAR),
{
    let ghost target = split_on(v@.skip(from as int), STAR);
    let mut r: Vec<Vec<u8>> = Vec::new();
    let mut pos: usize = from;
    let mut done = false;
    proof {
        assert(views_of(r@) =~= Seq::<Seq<u8>>::empty());
    }
    while !done
        invariant
            from <= pos <= v@.len(),
            done ==> views_of(r@) == target,
            !done ==> views_of(r@) + split_on(v@.skip(pos as int), STAR) == target,
        decreases v@.len() - pos + (if done {
            0int
        } else {
            1int
        }),
    {
        let ghost s = v@.skip(pos as int);
        let ghost pre = views_of(r@);
        let mut j: usize = pos;
        while j < v.len() && v[j] != STAR
            invariant
                pos <= j <= v@.len(),
                forall|t: int| pos <= t < j ==> v@[t] != STAR,
            decreases v@.len() - j,
        {
            j = j + 1;
        }
        proof {
            assert(forall|t: int| 0 <= t < s.len() ==> s[t] == v@[pos + t]);
        }
        if j < v.len() {
            proof {
                lemma_find_first_is(s, STAR, j - pos);
                assert(s.take(j - pos) =~= v@.subrange(pos as int, j as int));
                assert(s.skip(j - pos + 1) =~= v@.skip(j as int + 1));
            }
            let seg = subvec(v, pos, j);
            r.push(seg);
            proof {
                assert(views_of(r@) =~= pre + seq![s.take(j - pos)]);
                assert(split_on(s, STAR) == seq![s.take(j - pos)] + split_on(
                    s.skip(j - pos + 1),
                    STAR,
                ));
                assert(pre + (seq![s.take(j - pos)] + split_on(v@.skip(j as int + 1), STAR)) =~= (
                pre + seq![s.take(j - pos)]) + split_on(v@.skip(j as int + 1), STAR));
            }
            pos = j + 1;
        } else {
            proof {
                lemma_find_first_none(s, STAR);
                assert(s =~= v@.subrange(pos as int, v@.len() as int));
            }
            let seg = subvec(v, pos, v.len());
            r.push(seg);
            done = true;
            proof {
                assert(views_of(r@) =~= pre + seq![s]);
                assert(split_on(s, STAR) == seq![s]);
                assert(pre + seq![s] =~= target);
            }
        }
    }
    r
}

proof fn lemma_encode_utf8_nonempty(s: Seq<char>)
    ensures
        s.len() > 0 ==> encode_utf8(s).len() > 0,
{
    if s.len() > 0 {
        assert(vstd::utf8::encode_scalar(s[0] as u32).len() >= 1);
    }
}

/// The decimal digits at the front of `a + b` are exactly `a` when `a` is
/// all digits and `b` does not go on with one.
proof fn lemma_digits_prefix_concat(a: Seq<u8>, b: Seq<u8>)
    requires
        forall|j: int| 0 <= j < a.len() ==> crate::numbers::is_digit(#[trigger] a[j]),
        b.len() > 0,
        !crate::numbers::is_digit(b[0]),
    ensures
        digits_prefix_len(a + b) == a.len(),
{
    assert forall|j: int| 0 <= j < a.len() implies crate::numbers::is_digit(
        #[trigger] (a + b)[j],
    ) by {
        assert((a + b)[j] == a[j]);
    }
    assert((a + b)[a.len() as int] == b[0]);
    crate::numbers::lemma_digits_prefix_len_is(a + b, a.len() as int);
}

/// No byte of an encoded field entry is the field separator.
proof fn lemma_segment_no_star(p: (Seq<char>, Seq<char>))
    ensures
        forall|j: int|
            0 <= j < segment_bytes(p).len() ==> #[trigger] segment_bytes(p)[j] != STAR,
{
    let nk = pct_encode(encode_utf8(p.0));
    let nv = pct_encode(encode_utf8(p.1));
    crate::codec::lemma_pct_encode_shape(encode_utf8(p.0));
    crate::codec::lemma_pct_encode_shape(encode_utf8(p.1));
    assert forall|j: int| 0 <= j < segment_bytes(p).len() implies #[trigger] segment_bytes(
        p,
    )[j] != STAR by {
        if j < nk.len() {
            assert(segment_bytes(p)[j] == nk[j]);
        } else if j == nk.len() {
            assert(segment_bytes(p)[j] == COLON);
        } else {
            assert(segment_bytes(p)[j] == nv[j - nk.len() - 1]);
        }
    }
}

/// Splitting the encoded field entries on `*` recovers them one by one.
proof fn lemma_split_fields(ps: Seq<(Seq<char>, Seq<char>)>)
    requires
        ps.len() >= 1,
    ensures
        split_on(segment_bytes(ps[0]) + fields_bytes(ps.drop_first()), STAR) == Seq::new(
            ps.len() as nat,
            |i: int| segment_bytes(ps[i]),
        ),
    decreases ps.len(),
{
    let seg0 = segment_bytes(ps[0]);
    let rest = ps.drop_first();
    let s = seg0 + fields_bytes(rest);
    lemma_segment_no_star(ps[0]);
    if rest.len() == 0 {
        assert(s =~= seg0);
        lemma_find_first_none(seg0, STAR);
        assert(split_on(s, STAR) == seq![s]);
        assert(seq![s] =~= Seq::new(ps.len() as nat, |i: int| segment_bytes(ps[i])));
    } else {
        assert(fields_bytes(rest) == seq![STAR] + segment_bytes(rest[0]) + fields_bytes(
            rest.drop_first(),
        ));
        assert(s[seg0.len() as int] == STAR);
        assert forall|j: int| 0 <= j < seg0.len() implies s[j] != STAR by {
            assert(s[j] == seg0[j]);
        }
        lemma_find_first_is(s, STAR, seg0.len() as int);
        assert(s.take(seg0.len() as int) =~= seg0);
        assert(s.skip(seg0.len() as int + 1) =~= segment_bytes(rest[0]) + fields_bytes(
            rest.drop_first(),
        ));
        lemma_split_fields(rest);
        assert(split_on(s, STAR) == seq![seg0] + Seq::new(
            rest.len() as nat,
            |i: int| segment_bytes(rest[i]),
        ));
        assert(seq![seg0] + Seq::new(rest.len() as nat, |i: int| segment_bytes(rest[i])) =~=
            Seq::new(ps.len() as nat, |i: int| segment_bytes(ps[i]))) by {
            assert(forall|i: int| 0 <= i < rest.len() ==> rest[i] == ps[i + 1]);
        }
    }
}

/// Folding the encoded entries of a store in ascending key order rebuilds
/// exactly that store.
proof fn lemma_parse_fields_display(ps: Seq<(Seq<char>, Seq<char>)>, v: SpaydVersion, t: int)
    requires
        crate::store::sorted_pairs(ps),
        forall|i: int| 0 <= i < ps.len() ==> (#[trigger] ps[i]).0.len() >= 1,
        0 <= t <= ps.len(),
    ensures
        spec_parse_fields(
            Seq::new((ps.len() - t) as nat, |i: int| segment_bytes(ps[t + i])),
            v,
            ps.take(t),
        ) == ParseOutcome::Parsed(v, ps),
    decreases ps.len() - t,
{
    let segs = Seq::new((ps.len() - t) as nat, |i: int| segment_bytes(ps[t + i]));
    if t == ps.len() {
        assert(ps.take(t) =~= ps);
    } else {
        let k = ps[t].0;
        let vv = ps[t].1;
        let seg = segment_bytes(ps[t]);
        assert(segs[0] == seg);
        let nk = pct_encode(encode_utf8(k));
        let nv = pct_encode(encode_utf8(vv));
        crate::codec::lemma_pct_encode_shape(encode_utf8(k));
        crate::codec::lemma_pct_encode_shape(encode_utf8(vv));
        lemma_encode_utf8_nonempty(k);
        assert(nk.len() >= 1);
        assert(seg[nk.len() as int] == COLON);
        assert forall|j: int| 0 <= j < nk.len() implies seg[j] != COLON by {
            assert(seg[j] == nk[j]);
        }
        lemma_find_first_is(seg, COLON, nk.len() as int);
        assert(seg.take(nk.len() as int) =~= nk);
        assert(seg.skip(nk.len() as int + 1) =~= nv);
        crate::codec::lemma_pct_roundtrip(encode_utf8(k));
        crate::codec::lemma_pct_roundtrip(encode_utf8(vv));
        encode_utf8_valid_utf8(k);
        encode_utf8_valid_utf8(vv);
        vstd::utf8::encode_utf8_decode_utf8(k);
        vstd::utf8::encode_utf8_decode_utf8(vv);
        assert forall|i: int| 0 <= i < ps.take(t).len() implies crate::store::key_lt(
            (#[trigger] ps.take(t)[i]).0,
            k,
        ) by {
            assert(ps.take(t)[i] == ps[i]);
        }
        crate::store::lemma_insert_append(ps.take(t), k, vv);
        assert(ps.take(t).push((k, vv)) =~= ps.take(t + 1));
        assert(segs.drop_first() =~= Seq::new(
            (ps.len() - (t + 1)) as nat,
            |i: int| segment_bytes(ps[t + 1 + i]),
        ));
        lemma_parse_fields_display(ps, v, t + 1);
        assert(spec_parse_fields(segs, v, ps.take(t)) == spec_parse_fields(
            segs.drop_first(),
            v,
            spec_insert(ps.take(t), k, vv),
        ));
    }
}

/// Round-trip: a well-formed descriptor that the grammar can carry -- at
/// least one field, no empty name -- parses back from its display bytes to
/// exactly its version and its fields, order normalized by the store itself.
pub proof fn lemma_parse_display_roundtrip(d: Spayd)
    requires
        d.wf(),
        d.pairs().len() >= 1,
        forall|i: int| 0 <= i < d.pairs().len() ==> (#[trigger] d.pairs()[i]).0.len() >= 1,
    ensures
        spec_parse(display_bytes(d.spec_version(), d.pairs())) == ParseOutcome::Parsed(
            d.spec_version(),
            d.pairs(),
        ),
{
    let v = d.spec_version();
    let ps = d.pairs();
    let bs = display_bytes(v, ps);
    let dmaj = crate::numbers::dec_bytes(v.major as nat);
    let dmin = crate::numbers::dec_bytes(v.minor as nat);
    crate::numbers::lemma_dec_bytes_props(v.major as nat);
    crate::numbers::lemma_dec_bytes_props(v.minor as nat);
    crate::spayd::lemma_header_bytes_printable(v);
    crate::spayd::lemma_fields_bytes_printable(ps);
    crate::spayd::lemma_all_printable_concat(header_bytes(v), fields_bytes(ps));
    lemma_first_bad_is(bs, bs.len() as int);
    assert(bs.subrange(0, 4) =~= spd_lit());
    assert(bs.len() >= 4);
    let r1 = bs.skip(4);
    assert(r1 =~= dmaj + (seq![0x2eu8] + dmin + fields_bytes(ps)));
    lemma_digits_prefix_concat(dmaj, seq![0x2eu8] + dmin + fields_bytes(ps));
    let d1 = digits_prefix_len(r1);
    assert(d1 == dmaj.len());
    assert(r1.take(d1) =~= dmaj);
    assert(dec_val(r1.take(d1)) == v.major);
    assert(r1[d1] == (seq![0x2eu8] + dmin + fields_bytes(ps))[0]);
    assert(r1[d1] == 0x2e);
    let r2 = r1.skip(d1 + 1);
    assert(fields_bytes(ps) == seq![STAR] + segment_bytes(ps[0]) + fields_bytes(ps.drop_first()));
    assert(fields_bytes(ps)[0] == STAR);
    assert(r2 =~= dmin + fields_bytes(ps));
    lemma_digits_prefix_concat(dmin, fields_bytes(ps));
    let d2 = digits_prefix_len(r2);
    assert(d2 == dmin.len());
    assert(r2.take(d2) =~= dmin);
    assert(dec_val(r2.take(d2)) == v.minor);
    assert(r2[d2] == fields_bytes(ps)[0]);
    let body = r2.skip(d2 + 1);
    assert(body =~= segment_bytes(ps[0]) + fields_bytes(ps.drop_first()));
    lemma_encode_utf8_nonempty(ps[0].0);
    crate::codec::lemma_pct_encode_shape(encode_utf8(ps[0].0));
    assert(segment_bytes(ps[0]).len() > 0);
    assert(body.len() > 0);
    lemma_split_fields(ps);
    assert(SpaydVersion { major: dec_val(r1.take(d1)) as u32, minor: dec_val(r2.take(d2)) as u32 }
        == v);
    assert(ps.take(0) =~= Seq::<(Seq<char>, Seq<char>)>::empty());
    assert(Seq::new((ps.len() - 0) as nat, |i: int| segment_bytes(ps[0 + i])) =~= Seq::new(
        ps.len() as nat,
        |i: int| segment_bytes(ps[i]),
    ));
    lemma_parse_fields_display(ps, v, 0);
}

/// Parse text into a descriptor value. The parse consumes the whole input:
/// it yields a fully populated descriptor or an error naming the reason and
/// the offending fragment, never a partial result.
#[verifier::loop_isolation(false)]
#[verifier::rlimit(60)]
pub fn parse_spayd(input: &str) -> (r: Result<Spayd, SpaydError>)
    ensures
        ({
            let o = spec_parse(encode_utf8(input@));
            match r {
                Ok(d) => d.wf() && o == ParseOutcome::Parsed(d.spec_version(), d.pairs()),
                Err(SpaydError::ParseError(f, t)) => o == ParseOutcome::Fault(f, encode_utf8(t@)),
                Err(SpaydError::EncodingError(t)) => o == ParseOutcome::BadEncoding(
                    encode_utf8(t@),
                ),
                Err(_) => false,
            }
        }),
{
    let bytes = input.as_bytes_vec();
    let ghost bs = bytes@;
    let mut i: usize = 0;
    while i < bytes.len() && 0x20 <= bytes[i] && bytes[i] <= 0x7e
        invariant
            0 <= i <= bs.len(),
            bs == bytes@,
            forall|j: int| 0 <= j < i ==> printable_byte(#[trigger] bs[j]),
        decreases bs.len() - i,
    {
        i = i + 1;
    }
    proof {
        lemma_first_bad_is(bs, i as int);
    }
    if i < bytes.len() {
        proof {
            encode_utf8_valid_utf8(input@);
            lemma_ascii_prefix_boundary(bs, i as int);
            valid_utf8_split(bs, i as int);
        }
        let sub = subvec(&bytes, i, bytes.len());
        proof {
            assert(sub@ =~= bs.skip(i as int));
        }
        match string_from_utf8(sub) {
            Some(s) => {
                proof {
                    decode_utf8_encode_utf8(bs.skip(i as int));
                }
                return Err(SpaydError::ParseError(ParseFault::IllegalCharacter, s));
            },
            None => {
                return Err(SpaydError::ParseError(ParseFault::IllegalCharacter, String::new()));
            },
        }
    }
    if bytes.len() < 4 || bytes[0] != 0x53 || bytes[1] != 0x50 || bytes[2] != 0x44 || bytes[3]
        != 0x2a {
        proof {
            if bs.len() >= 4 && bs.subrange(0, 4) == spd_lit() {
                assert(bs[0] == bs.subrange(0, 4)[0]);
                assert(bs[1] == bs.subrange(0, 4)[1]);
                assert(bs[2] == bs.subrange(0, 4)[2]);
                assert(bs[3] == bs.subrange(0, 4)[3]);
            }
        }
        let t = input.to_owned();
        return Err(SpaydError::ParseError(ParseFault::BadHeader, t));
    }
    proof {
        assert(bs.subrange(0, 4) =~= spd_lit());
    }
    let ghost r1 = bs.skip(4);
    proof {
        assert(forall|j: int| 0 <= j < r1.len() ==> #[trigger] r1[j] == bs[4 + j]);
    }
    let a1 = scan_digits(&bytes, 4);
    proof {
        assert(r1.take(a1 - 4) =~= bs.subrange(4, a1 as int));
        assert(bs.subrange(4, bs.len() as int) =~= r1);
    }
    if a1 == 4 {
        let t = ascii_to_string(subvec(&bytes, 4, bytes.len()));
        return Err(SpaydError::ParseError(ParseFault::BadVersion, t));
    }
    let major = match parse_u32_dec(&bytes, 4, a1) {
        Some(m) => m,
        None => {
            let t = ascii_to_string(subvec(&bytes, 4, bytes.len()));
            return Err(SpaydError::ParseError(ParseFault::BadVersion, t));
        },
    };
    if a1 == bytes.len() || bytes[a1] != 0x2e {
        let t = ascii_to_string(subvec(&bytes, 4, bytes.len()));
        return Err(SpaydError::ParseError(ParseFault::BadVersion, t));
    }
    let ghost d1 = a1 - 4int;
    let ghost r2 = r1.skip(d1 + 1);
    proof {
        assert(r2 =~= bs.skip(a1 as int + 1));
        assert(forall|j: int| 0 <= j < r2.len() ==> #[trigger] r2[j] == bs[a1 as int + 1 + j]);
        assert(bs.subrange(a1 as int + 1, bs.len() as int) =~= r2);
    }
    let a2 = scan_digits(&bytes, a1 + 1);
    proof {
        assert(digits_prefix_len(r2) == a2 - (a1 + 1)) by {
            assert(r2 =~= bytes@.skip(a1 as int + 1));
        }
        assert(r2.take(a2 - (a1 + 1)) =~= bs.subrange(a1 as int + 1, a2 as int));
    }
    if a2 == a1 + 1 {
        let t = ascii_to_string(subvec(&bytes, a1 + 1, bytes.len()));
        return Err(SpaydError::ParseError(ParseFault::BadVersion, t));
    }
    let minor = match parse_u32_dec(&bytes, a1 + 1, a2) {
        Some(m) => m,
        None => {
            let t = ascii_to_string(subvec(&bytes, a1 + 1, bytes.len()));
            return Err(SpaydError::ParseError(ParseFault::BadVersion, t));
        },
    };
    if a2 == bytes.len() || bytes[a2] != 0x2a {
        proof {
            assert(r2.skip(a2 - (a1 + 1)) =~= bs.subrange(a2 as int, bs.len() as int));
        }
        let t = ascii_to_string(subvec(&bytes, a2, bytes.len()));
        return Err(SpaydError::ParseError(ParseFault::BadHeader, t));
    }
    let ghost d2 = a2 - (a1 as int + 1);
    let ghost body = r2.skip(d2 + 1);
    proof {
        assert(body =~= bs.skip(a2 as int + 1));
    }
    if a2 + 1 == bytes.len() {
        proof {
            assert(body.len() == 0);
            assert(body =~= Seq::<u8>::empty());
            assert(encode_utf8(Seq::<char>::empty()) =~= Seq::<u8>::empty());
        }
        return Err(SpaydError::ParseError(ParseFault::EmptyFieldList, String::new()));
    }
    let version = SpaydVersion { major, minor };
    let ghost segs = split_on(body, STAR);
    proof {
        assert(spec_parse(bs) == spec_parse_fields(
            segs,
            version,
            Seq::<(Seq<char>, Seq<char>)>::empty(),
        ));
        assert(all_printable(body)) by {
            assert(forall|j: int| 0 <= j < body.len() ==> #[trigger] body[j] == bs[a2 as int + 1
                + j]);
        }
        lemma_split_on_printable(body, STAR);
    }
    let segments = split_star(&bytes, a2 + 1);
    proof {
        assert(views_of(segments@) == segs) by {
            assert(bytes@.skip(a2 as int + 1) =~= body);
        }
    }
    let mut d = Spayd::new(version, Vec::new());
    proof {
        assert(d.pairs() =~= Seq::<(Seq<char>, Seq<char>)>::empty());
        assert(segs.skip(0) =~= segs);
    }
    let mut k: usize = 0;
    while k < segments.len()
        invariant
            0 <= k <= segments@.len(),
            segs == views_of(segments@),
            forall|t: int| 0 <= t < segs.len() ==> all_printable(#[trigger] segs[t]),
            d.wf(),
            d.spec_version() == version,
            spec_parse_fields(segs.skip(k as int), version, d.pairs()) == spec_parse_fields(
                segs,
                version,
                Seq::<(Seq<char>, Seq<char>)>::empty(),
            ),
        decreases segments@.len() - k,
    {
        let ghost seg_s = segs[k as int];
        let seg = &segments[k];
        proof {
            assert(seg@ == seg_s);
            assert(all_printable(seg_s));
            assert(segs.skip(k as int)[0] == seg_s);
            assert(segs.skip(k as int).drop_first() =~= segs.skip(k as int + 1));
        }
        let mut c: usize = 0;
        while c < seg.len() && seg[c] != COLON
            invariant
                0 <= c <= seg@.len(),
                seg@ == seg_s,
                forall|t: int| 0 <= t < c ==> seg_s[t] != COLON,
            decreases seg@.len() - c,
        {
            c = c + 1;
        }
        if c == seg.len() || c == 0 {
            proof {
                if c == seg.len() {
                    lemma_find_first_none(seg_s, COLON);
                } else {
                    lemma_find_first_is(seg_s, COLON, 0);
                }
            }
            let t = ascii_to_string(subvec(seg, 0, seg.len()));
            proof {
                assert(seg_s.subrange(0, seg_s.len() as int) =~= seg_s);
            }
            return Err(SpaydError::ParseError(ParseFault::MalformedField, t));
        }
        proof {
            lemma_find_first_is(seg_s, COLON, c as int);
        }
        let name_b = subvec(seg, 0, c);
        let val_b = subvec(seg, c + 1, seg.len());
        proof {
            assert(name_b@ =~= seg_s.take(c as int));
            assert(val_b@ =~= seg_s.skip(c as int + 1));
            assert(forall|j: int| 0 <= j < name_b@.len() ==> #[trigger] name_b@[j] == seg_s[j]);
            assert(forall|j: int|
                0 <= j < val_b@.len() ==> #[trigger] val_b@[j] == seg_s[j + c + 1]);
        }
        let nd = pct_decode_exec(&name_b);
        let ks = match string_from_utf8(nd) {
            Some(s) => s,
            None => {
                let t = ascii_to_string(name_b);
                return Err(SpaydError::EncodingError(t));
            },
        };
        let vd = pct_decode_exec(&val_b);
        let vs2 = match string_from_utf8(vd) {
            Some(s) => s,
            None => {
                let t = ascii_to_string(val_b);
                return Err(SpaydError::EncodingError(t));
            },
        };
        let ghost pre = d.pairs();
        d.set_field(ks.as_str(), vs2.as_str());
        proof {
            assert(ks@ == decode_utf8(pct_decode(seg_s.take(c as int))));
            assert(vs2@ == decode_utf8(pct_decode(seg_s.skip(c as int + 1))));
            assert(spec_parse_fields(segs.skip(k as int), version, pre) == spec_parse_fields(
                segs.skip(k as int + 1),
                version,
                spec_insert(pre, ks@, vs2@),
            ));
        }
        k = k + 1;
    }
    proof {
        assert(segs.skip(segs.len() as int) =~= Seq::<Seq<u8>>::empty());
    }
    Ok(d)
}

} // verus!
