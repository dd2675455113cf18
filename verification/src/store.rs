//! The mathematical model of the field store: a sequence of (name, value)
//! pairs of text, kept strictly ascending by the byte order of the UTF-8
//! encoded name. Ascending-key order is load-bearing: the canonical rendering
//! and the checksum both depend on it.

use crate::text::{byte_lt, lemma_byte_lt_trichotomy, lemma_byte_lt_trans, lemma_encode_utf8_injective};
use vstd::prelude::*;
use vstd::utf8::{encode_utf8, is_ascii_chars, is_ascii_chars_encode_utf8};

verus! {

/// Strict order on field names: lexicographic on their UTF-8 bytes.
pub open spec fn key_lt(a: Seq<char>, b: Seq<char>) -> bool {
    byte_lt(encode_utf8(a), encode_utf8(b))
}

pub proof fn lemma_key_lt_trichotomy(a: Seq<char>, b: Seq<char>)
    ensures
        key_lt(a, b) || key_lt(b, a) || a == b,
        key_lt(a, b) ==> !key_lt(b, a) && a != b,
        key_lt(b, a) ==> !key_lt(a, b) && a != b,
{
    lemma_byte_lt_trichotomy(encode_utf8(a), encode_utf8(b));
    if encode_utf8(a) == encode_utf8(b) {
        lemma_encode_utf8_injective(a, b);
    }
}

pub proof fn lemma_key_lt_trans(a: Seq<char>, b: Seq<char>, c: Seq<char>)
    requires
        key_lt(a, b),
        key_lt(b, c),
    ensures
        key_lt(a, c),
{
    lemma_byte_lt_trans(encode_utf8(a), encode_utf8(b), encode_utf8(c));
}

/// Pairs stand in strictly ascending key order (so keys are unique).
pub open spec fn sorted_pairs(ps: Seq<(Seq<char>, Seq<char>)>) -> bool {
    forall|i: int, j: int| 0 <= i < j < ps.len() ==> key_lt(#[trigger] ps[i].0, #[trigger] ps[j].0)
}

/// The value stored under `k`, if any.
pub open spec fn seq_get(ps: Seq<(Seq<char>, Seq<char>)>, k: Seq<char>) -> Option<Seq<char>>
    decreases ps.len(),
{
    if ps.len() == 0 {
        None
    } else if ps[0].0 == k {
        Some(ps[0].1)
    } else {
        seq_get(ps.drop_first(), k)
    }
}

pub proof fn lemma_seq_get_none(ps: Seq<(Seq<char>, Seq<char>)>, k: Seq<char>)
    requires
        forall|i: int| 0 <= i < ps.len() ==> (#[trigger] ps[i]).0 != k,
    ensures
        seq_get(ps, k) == None::<Seq<char>>,
    decreases ps.len(),
{
    if ps.len() > 0 {
        lemma_seq_get_none(ps.drop_first(), k);
    }
}

pub proof fn lemma_seq_get_at(ps: Seq<(Seq<char>, Seq<char>)>, k: Seq<char>, i: int)
    requires
        0 <= i < ps.len(),
        ps[i].0 == k,
        forall|j: int| 0 <= j < i ==> (#[trigger] ps[j]).0 != k,
    ensures
        seq_get(ps, k) == Some(ps[i].1),
    decreases ps.len(),
{
    if i > 0 {
        lemma_seq_get_at(ps.drop_first(), k, i - 1);
    }
}

/// Insert or overwrite: the result again stands in ascending key order.
pub open spec fn spec_insert(
    ps: Seq<(Seq<char>, Seq<char>)>,
    k: Seq<char>,
    v: Seq<char>,
) -> Seq<(Seq<char>, Seq<char>)>
    decreases ps.len(),
{
    if ps.len() == 0 {
        seq![(k, v)]
    } else if ps[0].0 == k {
        seq![(k, v)] + ps.drop_first()
    } else if key_lt(k, ps[0].0) {
        seq![(k, v)] + ps
    } else {
        seq![ps[0]] + spec_insert(ps.drop_first(), k, v)
    }
}

/// What `spec_insert` does: it keeps the order, its keys are the old keys and
/// `k`, and lookups read through it.
pub proof fn lemma_insert_props(ps: Seq<(Seq<char>, Seq<char>)>, k: Seq<char>, v: Seq<char>)
    requires
        sorted_pairs(ps),
    ensures
        sorted_pairs(spec_insert(ps, k, v)),
        forall|i: int|
            0 <= i < spec_insert(ps, k, v).len() ==> ((#[trigger] spec_insert(ps, k, v)[i]).0 == k
                || exists|j: int| 0 <= j < ps.len() && (#[trigger] ps[j]).0 == spec_insert(
                ps,
                k,
                v,
            )[i].0),
        forall|q: Seq<char>|
            #[trigger] seq_get(spec_insert(ps, k, v), q) == if q == k {
                Some(v)
            } else {
                seq_get(ps, q)
            },
    decreases ps.len(),
{
    let r = spec_insert(ps, k, v);
    if ps.len() == 0 {
        assert forall|q: Seq<char>| true implies #[trigger] seq_get(r, q) == if q == k {
            Some(v)
        } else {
            seq_get(ps, q)
        } by {
            assert(r.drop_first() =~= Seq::<(Seq<char>, Seq<char>)>::empty());
            assert(seq_get(Seq::<(Seq<char>, Seq<char>)>::empty(), q) == None::<Seq<char>>);
        }
    } else if ps[0].0 == k {
        let rest = ps.drop_first();
        assert(r.drop_first() =~= rest);
        assert forall|i: int, j: int| 0 <= i < j < r.len() implies key_lt(
            #[trigger] r[i].0,
            #[trigger] r[j].0,
        ) by {
            assert(r[j] == ps[j]);
            if i > 0 {
                assert(r[i] == ps[i]);
            } else {
                assert(key_lt(ps[0].0, ps[j].0));
            }
        }
        assert forall|i: int| 0 <= i < r.len() implies ((#[trigger] r[i]).0 == k || exists|j: int|
            0 <= j < ps.len() && (#[trigger] ps[j]).0 == r[i].0) by {
            if i > 0 {
                assert(ps[i].0 == r[i].0);
            }
        }
    } else if key_lt(k, ps[0].0) {
        assert(r.drop_first() =~= ps);
        assert forall|i: int, j: int| 0 <= i < j < r.len() implies key_lt(
            #[trigger] r[i].0,
            #[trigger] r[j].0,
        ) by {
            assert(r[j] == ps[j - 1]);
            if i > 0 {
                assert(r[i] == ps[i - 1]);
            } else {
                if j > 1 {
                    lemma_key_lt_trans(k, ps[0].0, ps[j - 1].0);
                }
            }
        }
        assert forall|i: int| 0 <= i < r.len() implies ((#[trigger] r[i]).0 == k || exists|j: int|
            0 <= j < ps.len() && (#[trigger] ps[j]).0 == r[i].0) by {
            if i > 0 {
                assert(ps[i - 1].0 == r[i].0);
            }
        }
        assert forall|q: Seq<char>| true implies #[trigger] seq_get(r, q) == if q == k {
            Some(v)
        } else {
            seq_get(ps, q)
        } by {
            lemma_key_lt_trichotomy(k, ps[0].0);
        }
    } else {
        let rest = ps.drop_first();
        assert(sorted_pairs(rest)) by {
            assert(forall|i: int| 0 <= i < rest.len() ==> rest[i] == ps[i + 1]);
        }
        lemma_insert_props(rest, k, v);
        lemma_key_lt_trichotomy(k, ps[0].0);
        let ri = spec_insert(rest, k, v);
        assert(r.drop_first() =~= ri);
        assert(r[0] == ps[0]);
        assert forall|i: int, j: int| 0 <= i < j < r.len() implies key_lt(
            #[trigger] r[i].0,
            #[trigger] r[j].0,
        ) by {
            if i > 0 {
                assert(r[i] == ri[i - 1] && r[j] == ri[j - 1]);
            } else {
                assert(r[j] == ri[j - 1]);
                if ri[j - 1].0 == k {
                    assert(key_lt(ps[0].0, k));
                } else {
                    let w = choose|w: int|
                        0 <= w < rest.len() && (#[trigger] rest[w]).0 == ri[j - 1].0;
                    assert(rest[w] == ps[w + 1]);
                    assert(key_lt(ps[0].0, ps[w + 1].0));
                }
            }
        }
        assert forall|i: int| 0 <= i < r.len() implies ((#[trigger] r[i]).0 == k || exists|j: int|
            0 <= j < ps.len() && (#[trigger] ps[j]).0 == r[i].0) by {
            if i == 0 {
                assert(ps[0].0 == r[0].0);
            } else {
                if ri[i - 1].0 != k {
                    let w = choose|w: int|
                        0 <= w < rest.len() && (#[trigger] rest[w]).0 == ri[i - 1].0;
                    assert(ps[w + 1].0 == r[i].0);
                }
            }
        }
        assert forall|q: Seq<char>| true implies #[trigger] seq_get(r, q) == if q == k {
            Some(v)
        } else {
            seq_get(ps, q)
        } by {
            if q == ps[0].0 {
                assert(seq_get(r, q) == Some(ps[0].1));
            } else {
                assert(seq_get(r, q) == seq_get(ri, q));
            }
        }
    }
}

/// Where every present key is smaller, inserting appends.
pub proof fn lemma_insert_append(ps: Seq<(Seq<char>, Seq<char>)>, k: Seq<char>, v: Seq<char>)
    requires
        forall|i: int| 0 <= i < ps.len() ==> key_lt((#[trigger] ps[i]).0, k),
    ensures
        spec_insert(ps, k, v) == ps.push((k, v)),
    decreases ps.len(),
{
    if ps.len() == 0 {
        assert(spec_insert(ps, k, v) =~= ps.push((k, v)));
    } else {
        lemma_key_lt_trichotomy(k, ps[0].0);
        let rest = ps.drop_first();
        assert(forall|i: int| 0 <= i < rest.len() ==> rest[i] == ps[i + 1]);
        lemma_insert_append(rest, k, v);
        assert(spec_insert(ps, k, v) =~= ps.push((k, v)));
    }
}

/// Where the insertion point `i` is known, `spec_insert` is an update or an
/// insertion at `i`.
pub proof fn lemma_insert_at(
    ps: Seq<(Seq<char>, Seq<char>)>,
    k: Seq<char>,
    v: Seq<char>,
    i: int,
)
    requires
        sorted_pairs(ps),
        0 <= i <= ps.len(),
        forall|j: int| 0 <= j < i ==> key_lt((#[trigger] ps[j]).0, k),
        i < ps.len() ==> !key_lt(ps[i].0, k),
    ensures
        i < ps.len() && ps[i].0 == k ==> spec_insert(ps, k, v) == ps.update(i, (k, v)),
        !(i < ps.len() && ps[i].0 == k) ==> spec_insert(ps, k, v) == ps.insert(i, (k, v)),
    decreases ps.len(),
{
    if ps.len() == 0 {
        assert(spec_insert(ps, k, v) =~= ps.insert(0, (k, v)));
    } else if i == 0 {
        lemma_key_lt_trichotomy(k, ps[0].0);
        if ps[0].0 == k {
            assert(spec_insert(ps, k, v) =~= ps.update(0, (k, v)));
        } else {
            assert(key_lt(k, ps[0].0));
            assert(spec_insert(ps, k, v) =~= ps.insert(0, (k, v)));
        }
    } else {
        let rest = ps.drop_first();
        assert(forall|j: int| 0 <= j < rest.len() ==> rest[j] == ps[j + 1]);
        lemma_key_lt_trichotomy(k, ps[0].0);
        lemma_insert_at(rest, k, v, i - 1);
        if i < ps.len() && ps[i].0 == k {
            assert(spec_insert(ps, k, v) =~= ps.update(i, (k, v)));
        } else {
            assert(spec_insert(ps, k, v) =~= ps.insert(i, (k, v)));
        }
    }
}

/// Two stores in ascending key order that answer every lookup alike are the
/// same sequence.
pub proof fn lemma_sorted_unique_ext(
    ps1: Seq<(Seq<char>, Seq<char>)>,
    ps2: Seq<(Seq<char>, Seq<char>)>,
)
    requires
        sorted_pairs(ps1),
        sorted_pairs(ps2),
        forall|k: Seq<char>| #[trigger] seq_get(ps1, k) == seq_get(ps2, k),
    ensures
        ps1 == ps2,
    decreases ps1.len() + ps2.len(),
{
    if ps1.len() == 0 && ps2.len() == 0 {
        assert(ps1 =~= ps2);
    } else if ps1.len() == 0 {
        assert(seq_get(ps1, ps2[0].0) == None::<Seq<char>>);
        assert(seq_get(ps2, ps2[0].0) == Some(ps2[0].1));
    } else if ps2.len() == 0 {
        assert(seq_get(ps2, ps1[0].0) == None::<Seq<char>>);
        assert(seq_get(ps1, ps1[0].0) == Some(ps1[0].1));
    } else {
        let k1 = ps1[0].0;
        let k2 = ps2[0].0;
        lemma_key_lt_trichotomy(k1, k2);
        if key_lt(k1, k2) {
            assert forall|i: int| 0 <= i < ps2.len() implies (#[trigger] ps2[i]).0 != k1 by {
                if i > 0 {
                    lemma_key_lt_trans(k1, k2, ps2[i].0);
                    lemma_key_lt_trichotomy(k1, ps2[i].0);
                } else {
                    lemma_key_lt_trichotomy(k1, k2);
                }
            }
            lemma_seq_get_none(ps2, k1);
            assert(seq_get(ps1, k1) == Some(ps1[0].1));
        } else if key_lt(k2, k1) {
            assert forall|i: int| 0 <= i < ps1.len() implies (#[trigger] ps1[i]).0 != k2 by {
                if i > 0 {
                    lemma_key_lt_trans(k2, k1, ps1[i].0);
                    lemma_key_lt_trichotomy(k2, ps1[i].0);
                } else {
                    lemma_key_lt_trichotomy(k2, k1);
                }
            }
            lemma_seq_get_none(ps1, k2);
            assert(seq_get(ps2, k2) == Some(ps2[0].1));
        } else {
            assert(k1 == k2);
            assert(seq_get(ps1, k1) == Some(ps1[0].1));
            assert(seq_get(ps2, k1) == Some(ps2[0].1));
            let r1 = ps1.drop_first();
            let r2 = ps2.drop_first();
            assert(forall|i: int| 0 <= i < r1.len() ==> r1[i] == ps1[i + 1]);
            assert(forall|i: int| 0 <= i < r2.len() ==> r2[i] == ps2[i + 1]);
            assert(sorted_pairs(r1));
            assert(sorted_pairs(r2));
            assert forall|k: Seq<char>| true implies #[trigger] seq_get(r1, k) == seq_get(
                r2,
                k,
            ) by {
                if k == k1 {
                    assert forall|i: int| 0 <= i < r1.len() implies (#[trigger] r1[i]).0 != k by {
                        assert(key_lt(ps1[0].0, ps1[i + 1].0));
                        lemma_key_lt_trichotomy(k, r1[i].0);
                    }
                    assert forall|i: int| 0 <= i < r2.len() implies (#[trigger] r2[i]).0 != k by {
                        assert(key_lt(ps2[0].0, ps2[i + 1].0));
                        lemma_key_lt_trichotomy(k, r2[i].0);
                    }
                    lemma_seq_get_none(r1, k);
                    lemma_seq_get_none(r2, k);
                } else {
                    assert(seq_get(ps1, k) == seq_get(r1, k));
                    assert(seq_get(ps2, k) == seq_get(r2, k));
                }
            }
            lemma_sorted_unique_ext(r1, r2);
            assert(ps1.len() == ps2.len());
            assert forall|i: int| 0 <= i < ps1.len() implies ps1[i] == ps2[i] by {
                if i == 0 {
                    assert(ps1[0].0 == ps2[0].0 && ps1[0].1 == ps2[0].1);
                } else {
                    assert(ps1[i] == r1[i - 1]);
                    assert(ps2[i] == r2[i - 1]);
                }
            }
            assert(ps1 =~= ps2);
        }
    }
}

/// The field name of the destination account, required in version 1.0.
pub open spec fn acc_key() -> Seq<char> {
    seq!['A', 'C', 'C']
}

/// The reserved checksum field name.
pub open spec fn crc_key() -> Seq<char> {
    seq!['C', 'R', 'C', '3', '2']
}

/// The UTF-8 bytes spelling the reserved checksum field name.
pub open spec fn crc_key_bytes() -> Seq<u8> {
    seq![0x43u8, 0x52u8, 0x43u8, 0x33u8, 0x32u8]
}

pub proof fn lemma_crc_key_bytes()
    ensures
        encode_utf8(crc_key()) == crc_key_bytes(),
{
    let cs = crc_key();
    assert(is_ascii_chars(cs)) by {
        assert forall|i: int| 0 <= i < cs.len() implies '\0' <= #[trigger] cs[i] <= '\u{7f}' by {
            assert(cs[i] == 'C' || cs[i] == 'R' || cs[i] == '3' || cs[i] == '2');
        }
    }
    is_ascii_chars_encode_utf8(cs);
    assert(encode_utf8(cs) =~= crc_key_bytes());
}

/// The pairs without the reserved checksum field, in unchanged order.
pub open spec fn strip_crc(ps: Seq<(Seq<char>, Seq<char>)>) -> Seq<(Seq<char>, Seq<char>)>
    decreases ps.len(),
{
    if ps.len() == 0 {
        seq![]
    } else if ps[0].0 == crc_key() {
        strip_crc(ps.drop_first())
    } else {
        seq![ps[0]] + strip_crc(ps.drop_first())
    }
}

/// Writing the checksum field does not change what the checksum is computed
/// over.
pub proof fn lemma_strip_crc_insert(ps: Seq<(Seq<char>, Seq<char>)>, v: Seq<char>)
    ensures
        strip_crc(spec_insert(ps, crc_key(), v)) == strip_crc(ps),
    decreases ps.len(),
{
    let k = crc_key();
    let r = spec_insert(ps, k, v);
    if ps.len() == 0 {
        assert(r.drop_first() =~= Seq::<(Seq<char>, Seq<char>)>::empty());
        assert(ps =~= Seq::<(Seq<char>, Seq<char>)>::empty());
        assert(strip_crc(Seq::<(Seq<char>, Seq<char>)>::empty()) == Seq::<(
            Seq<char>,
            Seq<char>,
        )>::empty());
        assert(strip_crc(r) == strip_crc(r.drop_first()));
    } else if ps[0].0 == k {
        assert(r.drop_first() =~= ps.drop_first());
    } else if key_lt(k, ps[0].0) {
        assert(r.drop_first() =~= ps);
    } else {
        lemma_key_lt_trichotomy(k, ps[0].0);
        lemma_strip_crc_insert(ps.drop_first(), v);
        assert(r.drop_first() =~= spec_insert(ps.drop_first(), k, v));
        assert(r[0] == ps[0] && ps[0].0 != k);
        assert(strip_crc(r) == seq![ps[0]] + strip_crc(spec_insert(ps.drop_first(), k, v)));
        assert(strip_crc(ps) == seq![ps[0]] + strip_crc(ps.drop_first()));
    }
}

/// Fold a run of insertions, first to last.
pub open spec fn spec_insert_all(
    acc: Seq<(Seq<char>, Seq<char>)>,
    items: Seq<(Seq<char>, Seq<char>)>,
) -> Seq<(Seq<char>, Seq<char>)>
    decreases items.len(),
{
    if items.len() == 0 {
        acc
    } else {
        spec_insert_all(spec_insert(acc, items[0].0, items[0].1), items.drop_first())
    }
}

} // verus!
