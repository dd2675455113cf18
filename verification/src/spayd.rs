//! The Short Payment Descriptor value: a version number and an ordered,
//! unique-key mapping from field names to field values.

use crate::codec::{pct_encode, pct_encode_exec, COLON, STAR};
use crate::numbers::{dec_bytes, lemma_dec_bytes_props, push_dec};
use crate::store::{
    crc_key, crc_key_bytes, key_lt, lemma_crc_key_bytes, lemma_insert_at, lemma_insert_props,
    lemma_key_lt_trichotomy, lemma_seq_get_at, lemma_seq_get_none, lemma_sorted_unique_ext,
    seq_get, sorted_pairs, spec_insert, spec_insert_all, strip_crc,
};
use crate::text::{
    all_printable, ascii_to_string, ascii_view, bytes_cmp, lemma_byte_lt_trichotomy,
    lemma_encode_utf8_injective, printable_byte, KeyOrder,
};
use vstd::prelude::*;
use vstd::string::StrSliceExecFns;
use vstd::utf8::encode_utf8;

verus! {

/// Version number of a Short Payment Descriptor.
///
/// Currently there is only a standard for version 1.0. Equality and ordering
/// are lexicographic on (major, minor).
#[derive(Clone, Copy, PartialEq, Eq, PartialOrd, Ord, Structural, Debug)]
pub struct SpaydVersion {
    pub major: u32,
    pub minor: u32,
}

impl SpaydVersion {
    pub fn new(major: u32, minor: u32) -> (r: Self)
        ensures
            r == (SpaydVersion { major, minor }),
    {
        Self { major, minor }
    }
}

/// The header of the wire text: `SPD*<major>.<minor>`.
pub open spec fn header_bytes(v: SpaydVersion) -> Seq<u8> {
    seq![0x53u8, 0x50u8, 0x44u8, 0x2au8] + dec_bytes(v.major as nat) + seq![0x2eu8] + dec_bytes(
        v.minor as nat,
    )
}

/// One encoded field: `<name>:<value>`, both percent-encoded.
pub open spec fn segment_bytes(p: (Seq<char>, Seq<char>)) -> Seq<u8> {
    pct_encode(encode_utf8(p.0)) + seq![COLON] + pct_encode(encode_utf8(p.1))
}

/// The encoded fields, each preceded by the `*` separator.
pub open spec fn fields_bytes(ps: Seq<(Seq<char>, Seq<char>)>) -> Seq<u8>
    decreases ps.len(),
{
    if ps.len() == 0 {
        seq![]
    } else {
        seq![STAR] + segment_bytes(ps[0]) + fields_bytes(ps.drop_first())
    }
}

/// The wire text of a descriptor, all stored fields included.
pub open spec fn display_bytes(v: SpaydVersion, ps: Seq<(Seq<char>, Seq<char>)>) -> Seq<u8> {
    header_bytes(v) + fields_bytes(ps)
}

/// The canonical text: ascending-key order, the checksum field left out. It
/// is the input of the checksum computation.
pub open spec fn canonic_bytes(v: SpaydVersion, ps: Seq<(Seq<char>, Seq<char>)>) -> Seq<u8> {
    header_bytes(v) + fields_bytes(strip_crc(ps))
}

pub proof fn lemma_all_printable_concat(a: Seq<u8>, b: Seq<u8>)
    requires
        all_printable(a),
        all_printable(b),
    ensures
        all_printable(a + b),
{
    assert forall|i: int| 0 <= i < (a + b).len() implies printable_byte(#[trigger] (a + b)[i]) by {
        if i < a.len() {
            assert((a + b)[i] == a[i]);
        } else {
            assert((a + b)[i] == b[i - a.len()]);
        }
    }
}

pub proof fn lemma_header_bytes_printable(v: SpaydVersion)
    ensures
        all_printable(header_bytes(v)),
{
    lemma_dec_bytes_props(v.major as nat);
    lemma_dec_bytes_props(v.minor as nat);
    lemma_all_printable_concat(seq![0x53u8, 0x50u8, 0x44u8, 0x2au8], dec_bytes(v.major as nat));
    lemma_all_printable_concat(
        seq![0x53u8, 0x50u8, 0x44u8, 0x2au8] + dec_bytes(v.major as nat),
        seq![0x2eu8],
    );
    lemma_all_printable_concat(
        seq![0x53u8, 0x50u8, 0x44u8, 0x2au8] + dec_bytes(v.major as nat) + seq![0x2eu8],
        dec_bytes(v.minor as nat),
    );
}

pub proof fn lemma_segment_bytes_printable(p: (Seq<char>, Seq<char>))
    ensures
        all_printable(segment_bytes(p)),
{
    crate::codec::lemma_pct_encode_shape(encode_utf8(p.0));
    crate::codec::lemma_pct_encode_shape(encode_utf8(p.1));
    lemma_all_printable_concat(pct_encode(encode_utf8(p.0)), seq![COLON]);
    lemma_all_printable_concat(
        pct_encode(encode_utf8(p.0)) + seq![COLON],
        pct_encode(encode_utf8(p.1)),
    );
}

pub proof fn lemma_fields_bytes_printable(ps: Seq<(Seq<char>, Seq<char>)>)
    ensures
        all_printable(fields_bytes(ps)),
    decreases ps.len(),
{
    if ps.len() > 0 {
        lemma_fields_bytes_printable(ps.drop_first());
        lemma_segment_bytes_printable(ps[0]);
        lemma_all_printable_concat(seq![STAR], segment_bytes(ps[0]));
        lemma_all_printable_concat(
            seq![STAR] + segment_bytes(ps[0]),
            fields_bytes(ps.drop_first()),
        );
    }
}

/// A Short Payment Descriptor holding the details of a requested payment.
#[derive(Clone, PartialEq, Eq, Debug)]
pub struct Spayd {
    version: SpaydVersion,
    fields: Vec<(String, String)>,
}

impl Spayd {
    /// The stored (name, value) pairs as mathematical text.
    pub closed spec fn pairs(self) -> Seq<(Seq<char>, Seq<char>)> {
        Seq::new(self.fields@.len(), |i: int| (self.fields@[i].0@, self.fields@[i].1@))
    }

    pub closed spec fn spec_version(self) -> SpaydVersion {
        self.version
    }

    /// Well-formed: the pairs stand in strictly ascending key order.
    pub open spec fn wf(self) -> bool {
        sorted_pairs(self.pairs())
    }

    /// Create a new descriptor with the given version number and field
    /// values; a name that repeats keeps its last value. Using `new_v1_0` or
    /// `empty_v1_0` is preferable for most situations.
    pub fn new(version: SpaydVersion, fields: Vec<(&str, &str)>) -> (r: Self)
        ensures
            r.wf(),
            r.spec_version() == version,
            r.pairs() == spec_insert_all(
                Seq::<(Seq<char>, Seq<char>)>::empty(),
                Seq::new(fields@.len(), |i: int| (fields@[i].0@, fields@[i].1@)),
            ),
    {
        let ghost vs = Seq::new(fields@.len(), |i: int| (fields@[i].0@, fields@[i].1@));
        let mut r = Spayd { version, fields: Vec::new() };
        proof {
            assert(r.pairs() =~= Seq::<(Seq<char>, Seq<char>)>::empty());
            assert(vs.skip(0) =~= vs);
        }
        let mut i: usize = 0;
        while i < fields.len()
            invariant
                0 <= i <= fields@.len(),
                vs == Seq::new(fields@.len(), |j: int| (fields@[j].0@, fields@[j].1@)),
                r.wf(),
                r.spec_version() == version,
                spec_insert_all(r.pairs(), vs.skip(i as int)) == spec_insert_all(
                    Seq::<(Seq<char>, Seq<char>)>::empty(),
                    vs,
                ),
            decreases fields@.len() - i,
        {
            let ghost pre = r.pairs();
            let (k, v) = fields[i];
            r.set_field(k, v);
            proof {
                assert(vs.skip(i as int)[0] == vs[i as int]);
                assert(vs.skip(i as int).drop_first() =~= vs.skip(i as int + 1));
                assert(spec_insert_all(pre, vs.skip(i as int)) == spec_insert_all(
                    spec_insert(pre, k@, v@),
                    vs.skip(i as int + 1),
                ));
            }
            i = i + 1;
        }
        proof {
            assert(vs.skip(vs.len() as int) =~= Seq::<(Seq<char>, Seq<char>)>::empty());
        }
        r
    }

    /// Create a version 1.0 descriptor with the given field values.
    pub fn new_v1_0(fields: Vec<(&str, &str)>) -> (r: Self)
        ensures
            r.wf(),
            r.spec_version() == (SpaydVersion { major: 1, minor: 0 }),
            r.pairs() == spec_insert_all(
                Seq::<(Seq<char>, Seq<char>)>::empty(),
                Seq::new(fields@.len(), |i: int| (fields@[i].0@, fields@[i].1@)),
            ),
    {
        Self::new(SpaydVersion { major: 1, minor: 0 }, fields)
    }

    /// Create an empty version 1.0 descriptor.
    pub fn empty_v1_0() -> (r: Self)
        ensures
            r.wf(),
            r.spec_version() == (SpaydVersion { major: 1, minor: 0 }),
            r.pairs() == Seq::<(Seq<char>, Seq<char>)>::empty(),
    {
        let r = Spayd { version: SpaydVersion { major: 1, minor: 0 }, fields: Vec::new() };
        proof {
            assert(r.pairs() =~= Seq::<(Seq<char>, Seq<char>)>::empty());
        }
        r
    }

    /// The version number.
    pub fn version(&self) -> (r: SpaydVersion)
        ensures
            r == self.spec_version(),
    {
        self.version
    }

    /// The value of the given field, if it is present.
    pub fn field(&self, key: &str) -> (r: Option<&str>)
        ensures
            match r {
                Some(v) => seq_get(self.pairs(), key@) == Some(v@),
                None => seq_get(self.pairs(), key@) == None::<Seq<char>>,
            },
    {
        let kb = key.as_bytes_vec();
        let mut i: usize = 0;
        while i < self.fields.len()
            invariant
                0 <= i <= self.fields@.len(),
                kb@ == encode_utf8(key@),
                forall|j: int| 0 <= j < i ==> (#[trigger] self.pairs()[j]).0 != key@,
            decreases self.fields@.len() - i,
        {
            let sb = self.fields[i].0.as_str().as_bytes_vec();
            match bytes_cmp(&sb, &kb) {
                KeyOrder::Equal => {
                    proof {
                        lemma_encode_utf8_injective(self.fields@[i as int].0@, key@);
                        lemma_seq_get_at(self.pairs(), key@, i as int);
                    }
                    return Some(self.fields[i].1.as_str());
                },
                _ => {
                    proof {
                        lemma_byte_lt_trichotomy(sb@, kb@);
                        assert(encode_utf8(self.pairs()[i as int].0) != encode_utf8(key@));
                    }
                },
            }
            i = i + 1;
        }
        proof {
            lemma_seq_get_none(self.pairs(), key@);
        }
        None
    }

    /// Set the value of the given field, inserting it or overwriting the
    /// value it had.
    pub fn set_field(&mut self, key: &str, value: &str)
        requires
            old(self).wf(),
        ensures
            final(self).wf(),
            final(self).spec_version() == old(self).spec_version(),
            final(self).pairs() == spec_insert(old(self).pairs(), key@, value@),
    {
        let ghost ps = self.pairs();
        let kb = key.as_bytes_vec();
        let mut i: usize = 0;
        let mut found = false;
        while i < self.fields.len() && !found
            invariant
                0 <= i <= self.fields@.len(),
                kb@ == encode_utf8(key@),
                ps == self.pairs(),
                forall|j: int| 0 <= j < i ==> key_lt((#[trigger] ps[j]).0, key@),
                found ==> i < self.fields@.len() && !key_lt(ps[i as int].0, key@),
            decreases self.fields@.len() - i + (if found { 0int } else { 1int }),
    {
            let sb = self.fields[i].0.as_str().as_bytes_vec();
            match bytes_cmp(&sb, &kb) {
                KeyOrder::Less => {
                    i = i + 1;
                },
                KeyOrder::Equal => {
                    proof {
                        lemma_encode_utf8_injective(self.fields@[i as int].0@, key@);
                        lemma_key_lt_trichotomy(ps[i as int].0, key@);
                    }
                    found = true;
                },
                KeyOrder::Greater => {
                    proof {
                        lemma_key_lt_trichotomy(ps[i as int].0, key@);
                    }
                    found = true;
                },
            }
        }
        proof {
            lemma_insert_at(ps, key@, value@, i as int);
            lemma_insert_props(ps, key@, value@);
        }
        if i < self.fields.len() {
            let sb = self.fields[i].0.as_str().as_bytes_vec();
            match bytes_cmp(&sb, &kb) {
                KeyOrder::Equal => {
                    proof {
                        lemma_encode_utf8_injective(self.fields@[i as int].0@, key@);
                    }
                    self.fields.remove(i);
                    self.fields.insert(i, (key.to_owned(), value.to_owned()));
                    proof {
                        assert(self.fields@ =~= old(self).fields@.update(
                            i as int,
                            (self.fields@[i as int].0, self.fields@[i as int].1),
                        ));
                        assert(self.pairs() =~= ps.update(i as int, (key@, value@)));
                    }
                    return ;
                },
                _ => {
                    proof {
                        lemma_byte_lt_trichotomy(sb@, kb@);
                    }
                },
            }
        }
        self.fields.insert(i, (key.to_owned(), value.to_owned()));
        proof {
            assert(self.pairs() =~= ps.insert(i as int, (key@, value@)));
        }
    }

    /// All stored fields, in ascending name order.
    pub fn iter(&self) -> (r: Vec<(String, String)>)
        ensures
            r@.len() == self.pairs().len(),
            forall|i: int|
                0 <= i < r@.len() ==> ((#[trigger] r@[i]).0@, r@[i].1@) == self.pairs()[i],
    {
        let mut r: Vec<(String, String)> = Vec::new();
        let mut i: usize = 0;
        while i < self.fields.len()
            invariant
                0 <= i <= self.fields@.len(),
                r@.len() == i,
                forall|j: int|
                    0 <= j < r@.len() ==> ((#[trigger] r@[j]).0@, r@[j].1@) == self.pairs()[j],
            decreases self.fields@.len() - i,
        {
            let k = self.fields[i].0.clone();
            let v = self.fields[i].1.clone();
            r.push((k, v));
            i = i + 1;
        }
        r
    }

    /// The stored fields in canonical order: ascending names, the reserved
    /// checksum field left out.
    pub fn iter_canonic(&self) -> (r: Vec<(String, String)>)
        ensures
            Seq::new(r@.len(), |i: int| (r@[i].0@, r@[i].1@)) == strip_crc(self.pairs()),
    {
        let ghost ps = self.pairs();
        let mut r: Vec<(String, String)> = Vec::new();
        let mut i: usize = 0;
        proof {
            assert(ps.skip(0) =~= ps);
            assert(Seq::new(r@.len(), |j: int| (r@[j].0@, r@[j].1@)) =~= Seq::<(
                Seq<char>,
                Seq<char>,
            )>::empty());
        }
        while i < self.fields.len()
            invariant
                0 <= i <= self.fields@.len(),
                ps == self.pairs(),
                Seq::new(r@.len(), |j: int| (r@[j].0@, r@[j].1@)) + strip_crc(ps.skip(i as int))
                    == strip_crc(ps),
            decreases self.fields@.len() - i,
        {
            let ghost pre = Seq::new(r@.len(), |j: int| (r@[j].0@, r@[j].1@));
            proof {
                assert(ps.skip(i as int)[0] == ps[i as int]);
                assert(ps.skip(i as int).drop_first() =~= ps.skip(i as int + 1));
            }
            if !self.is_crc_field(i) {
                let k = self.fields[i].0.clone();
                let v = self.fields[i].1.clone();
                r.push((k, v));
                proof {
                    assert(Seq::new(r@.len(), |j: int| (r@[j].0@, r@[j].1@)) =~= pre + seq![
                        ps[i as int],
                    ]);
                    assert(strip_crc(ps.skip(i as int)) == seq![ps[i as int]] + strip_crc(
                        ps.skip(i as int + 1),
                    ));
                    assert(pre + (seq![ps[i as int]] + strip_crc(ps.skip(i as int + 1))) =~= (pre
                        + seq![ps[i as int]]) + strip_crc(ps.skip(i as int + 1)));
                }
            } else {
                proof {
                    assert(strip_crc(ps.skip(i as int)) == strip_crc(ps.skip(i as int + 1)));
                }
            }
            i = i + 1;
        }
        proof {
            assert(ps.skip(ps.len() as int) =~= Seq::<(Seq<char>, Seq<char>)>::empty());
            assert(strip_crc(Seq::<(Seq<char>, Seq<char>)>::empty()) == Seq::<(
                Seq<char>,
                Seq<char>,
            )>::empty());
            let fin = Seq::new(r@.len(), |j: int| (r@[j].0@, r@[j].1@));
            assert(fin =~= fin + strip_crc(ps.skip(ps.len() as int)));
        }
        r
    }

    /// Whether the field at index `i` is the reserved checksum field.
    fn is_crc_field(&self, i: usize) -> (r: bool)
        requires
            i < self.fields@.len(),
        ensures
            r == (self.pairs()[i as int].0 == crc_key()),
    {
        let sb = self.fields[i].0.as_str().as_bytes_vec();
        let lit: Vec<u8> = vec![0x43u8, 0x52u8, 0x43u8, 0x33u8, 0x32u8];
        proof {
            lemma_crc_key_bytes();
            assert(lit@ =~= crc_key_bytes());
        }
        match bytes_cmp(&sb, &lit) {
            KeyOrder::Equal => {
                proof {
                    lemma_encode_utf8_injective(self.fields@[i as int].0@, crc_key());
                }
                true
            },
            _ => {
                proof {
                    lemma_byte_lt_trichotomy(sb@, lit@);
                }
                false
            },
        }
    }

    /// The wire bytes: header, then every selected field as
    /// `*<name>:<value>`, percent-encoded.
    fn to_bytes(&self, canonical: bool) -> (r: Vec<u8>)
        ensures
            canonical ==> r@ == canonic_bytes(self.spec_version(), self.pairs()),
            !canonical ==> r@ == display_bytes(self.spec_version(), self.pairs()),
    {
        let ghost ps = self.pairs();
        let mut r: Vec<u8> = Vec::new();
        r.push(0x53);
        r.push(0x50);
        r.push(0x44);
        r.push(0x2a);
        push_dec(self.version.major, &mut r);
        r.push(0x2e);
        push_dec(self.version.minor, &mut r);
        proof {
            assert(r@ =~= header_bytes(self.spec_version()));
            assert(ps.skip(0) =~= ps);
        }
        let ghost header = r@;
        let mut i: usize = 0;
        while i < self.fields.len()
            invariant
                0 <= i <= self.fields@.len(),
                ps == self.pairs(),
                header == header_bytes(self.spec_version()),
                canonical ==> r@ + fields_bytes(strip_crc(ps.skip(i as int))) == header
                    + fields_bytes(strip_crc(ps)),
                !canonical ==> r@ + fields_bytes(ps.skip(i as int)) == header + fields_bytes(ps),
            decreases self.fields@.len() - i,
        {
            proof {
                assert(ps.skip(i as int)[0] == ps[i as int]);
                assert(ps.skip(i as int).drop_first() =~= ps.skip(i as int + 1));
            }
            if canonical && self.is_crc_field(i) {
                proof {
                    assert(strip_crc(ps.skip(i as int)) == strip_crc(ps.skip(i as int + 1)));
                }
            } else {
                let ghost pre = r@;
                let kb = self.fields[i].0.as_str().as_bytes_vec();
                let vb = self.fields[i].1.as_str().as_bytes_vec();
                let mut ke = pct_encode_exec(&kb);
                let mut ve = pct_encode_exec(&vb);
                r.push(STAR);
                r.append(&mut ke);
                r.push(COLON);
                r.append(&mut ve);
                proof {
                    assert(r@ =~= pre + (seq![STAR] + segment_bytes(ps[i as int])));
                    if canonical {
                        assert(strip_crc(ps.skip(i as int)) == seq![ps[i as int]] + strip_crc(
                            ps.skip(i as int + 1),
                        ));
                        assert(fields_bytes(strip_crc(ps.skip(i as int))) == seq![STAR]
                            + segment_bytes(ps[i as int]) + fields_bytes(
                            strip_crc(ps.skip(i as int + 1)),
                        )) by {
                            let t = strip_crc(ps.skip(i as int));
                            assert(t[0] == ps[i as int]);
                            assert(t.drop_first() =~= strip_crc(ps.skip(i as int + 1)));
                        }
                        assert(pre + (seq![STAR] + segment_bytes(ps[i as int]) + fields_bytes(
                            strip_crc(ps.skip(i as int + 1)),
                        )) =~= (pre + (seq![STAR] + segment_bytes(ps[i as int]))) + fields_bytes(
                            strip_crc(ps.skip(i as int + 1)),
                        ));
                    } else {
                        assert(fields_bytes(ps.skip(i as int)) == seq![STAR] + segment_bytes(
                            ps[i as int],
                        ) + fields_bytes(ps.skip(i as int + 1)));
                        assert(pre + (seq![STAR] + segment_bytes(ps[i as int]) + fields_bytes(
                            ps.skip(i as int + 1),
                        )) =~= (pre + (seq![STAR] + segment_bytes(ps[i as int]))) + fields_bytes(
                            ps.skip(i as int + 1),
                        ));
                    }
                }
            }
            i = i + 1;
        }
        proof {
            assert(ps.skip(ps.len() as int) =~= Seq::<(Seq<char>, Seq<char>)>::empty());
            assert(strip_crc(Seq::<(Seq<char>, Seq<char>)>::empty()) == Seq::<(
                Seq<char>,
                Seq<char>,
            )>::empty());
            if canonical {
                assert(r@ =~= r@ + fields_bytes(strip_crc(ps.skip(ps.len() as int))));
            } else {
                assert(r@ =~= r@ + fields_bytes(ps.skip(ps.len() as int)));
            }
        }
        r
    }

    /// The full wire text of the descriptor, all fields included.
    pub fn to_string(&self) -> (r: String)
        ensures
            encode_utf8(r@) == display_bytes(self.spec_version(), self.pairs()),
            r@ == ascii_view(display_bytes(self.spec_version(), self.pairs())),
    {
        let b = self.to_bytes(false);
        proof {
            lemma_header_bytes_printable(self.spec_version());
            lemma_fields_bytes_printable(self.pairs());
            lemma_all_printable_concat(
                header_bytes(self.spec_version()),
                fields_bytes(self.pairs()),
            );
        }
        ascii_to_string(b)
    }

    /// The canonical text, the input of checksum computation: fields in
    /// ascending name order, the reserved checksum field left out.
    pub fn canonic_representation(&self) -> (r: String)
        ensures
            encode_utf8(r@) == canonic_bytes(self.spec_version(), self.pairs()),
            r@ == ascii_view(canonic_bytes(self.spec_version(), self.pairs())),
    {
        let b = self.to_bytes(true);
        proof {
            lemma_header_bytes_printable(self.spec_version());
            lemma_fields_bytes_printable(strip_crc(self.pairs()));
            lemma_all_printable_concat(
                header_bytes(self.spec_version()),
                fields_bytes(strip_crc(self.pairs())),
            );
        }
        ascii_to_string(b)
    }
}

/// Canonical determinism: two well-formed descriptors of one version that
/// answer every field lookup alike render byte-identical canonical text --
/// and byte-identical display text -- whatever order their fields were
/// inserted in.
pub proof fn lemma_canonical_deterministic(d1: Spayd, d2: Spayd)
    requires
        d1.wf(),
        d2.wf(),
        d1.spec_version() == d2.spec_version(),
        forall|k: Seq<char>| #[trigger] seq_get(d1.pairs(), k) == seq_get(d2.pairs(), k),
    ensures
        canonic_bytes(d1.spec_version(), d1.pairs()) == canonic_bytes(
            d2.spec_version(),
            d2.pairs(),
        ),
        display_bytes(d1.spec_version(), d1.pairs()) == display_bytes(
            d2.spec_version(),
            d2.pairs(),
        ),
{
    lemma_sorted_unique_ext(d1.pairs(), d2.pairs());
}

} // verus!
