//! Parsers for the on-disk record formats.
//!
//! Each parser is a total spec function over byte strings; the exec
//! parsers refine them exactly. The parsers accept precisely the canonical
//! encodings produced by `codec`, which the round-trip lemmas here state.

use crate::codec::enc_manifest;
use crate::codec::enc_payload;
use crate::codec::enc_records;
use crate::codec::enc_sst;
use crate::codec::enc_sst_record;
use crate::codec::enc_sst_record_of;
use crate::codec::enc_wal;
use crate::codec::enc_wal_line;
use crate::codec::enc_wal_line_of;
use crate::codec::lit_path_prefix;
use crate::codec::lit_path_suffix;
use crate::codec::path_spec;
use crate::memtable::ID_LIMIT;
use crate::wal::Entry;
use crate::wal::key_of;
use crate::wal::models_of;
use crate::wal::val_of;
use crate::codec::esc;
use crate::codec::esc_byte;
use crate::codec::lit_del_prefix;
use crate::codec::lit_entry_mid;
use crate::codec::lit_put_prefix;
use crate::codec::lit_sst_prefix;
use crate::codec::lit_deleted_tail;
use crate::codec::lit_val_mid;
use crate::codec::lit_wal_prefix;
use crate::checksum::crc32_spec;
use crate::num::dec_spec;
use crate::num::parse_dec_spec;
use vstd::prelude::*;

verus! {

/// Match a fixed fragment at position `i`; result is the position past it.
pub open spec fn parse_lit(s: Seq<u8>, i: nat, lit: Seq<u8>) -> Option<nat> {
    if i + lit.len() <= s.len() && s.subrange(i as int, i + lit.len() as int) == lit {
        Some((i + lit.len()) as nat)
    } else {
        None
    }
}

pub proof fn lemma_parse_lit_at(s: Seq<u8>, lit: Seq<u8>, i: nat)
    requires
        i + lit.len() <= s.len(),
        forall|m: int| 0 <= m < lit.len() ==> s[i + m] == #[trigger] lit[m],
    ensures
        parse_lit(s, i, lit) == Some((i + lit.len()) as nat),
{
    assert(s.subrange(i as int, i + lit.len() as int) =~= lit);
}

/// The byte named by a JSON escape, if the escape is one the encoder emits.
pub open spec fn unesc_byte(b: u8) -> Option<u8> {
    if b == 34 {
        Some(34u8)
    } else if b == 92 {
        Some(92u8)
    } else if b == 110 {
        Some(10u8)
    } else if b == 114 {
        Some(13u8)
    } else if b == 116 {
        Some(9u8)
    } else {
        None
    }
}

/// May a key byte appear unescaped?
pub open spec fn raw_ok(b: u8) -> bool {
    b != 34 && b != 92 && b != 10 && b != 13 && b != 9
}

/// Parse a string body up to and including its closing quote.
/// Only the canonical escapes are accepted, so each key has exactly one
/// accepted spelling.
pub open spec fn parse_str(s: Seq<u8>, i: nat) -> Option<(Seq<u8>, nat)>
    decreases s.len() - i,
{
    if i >= s.len() {
        None
    } else if s[i as int] == 34 {
        Some((Seq::empty(), (i + 1) as nat))
    } else if s[i as int] == 92 {
        if i + 1 < s.len() && unesc_byte(s[(i + 1) as int]) is Some {
            match parse_str(s, i + 2) {
                Some((t, j)) => Some((seq![unesc_byte(s[(i + 1) as int]).unwrap()] + t, j)),
                None => None,
            }
        } else {
            None
        }
    } else if raw_ok(s[i as int]) {
        match parse_str(s, i + 1) {
            Some((t, j)) => Some((seq![s[i as int]] + t, j)),
            None => None,
        }
    } else {
        None
    }
}

/// Soundness: whatever the string parser accepts is the canonical escape
/// of the key it returns, followed by the closing quote.
pub proof fn lemma_parse_str_sound(s: Seq<u8>, i: nat)
    requires
        parse_str(s, i) is Some,
    ensures
        ({
            let (k, j) = parse_str(s, i).unwrap();
            &&& i < j <= s.len()
            &&& j - 1 - i == esc(k).len()
            &&& s.subrange(i as int, j - 1) == esc(k)
            &&& s[j - 1] == 34
        }),
    decreases s.len() - i,
{
    let (k, j) = parse_str(s, i).unwrap();
    if s[i as int] == 34 {
        assert(esc(k) =~= Seq::<u8>::empty());
        assert(s.subrange(i as int, j - 1) =~= esc(k));
    } else if s[i as int] == 92 {
        let (t, j2) = parse_str(s, i + 2).unwrap();
        lemma_parse_str_sound(s, i + 2);
        let b = unesc_byte(s[(i + 1) as int]).unwrap();
        assert(esc_byte(b) =~= seq![s[i as int], s[(i + 1) as int]]);
        assert(k == seq![b] + t);
        assert(k[0] == b);
        assert(k.drop_first() =~= t);
        crate::codec::lemma_esc_append(seq![b], t);
        assert(seq![b].drop_first() =~= Seq::<u8>::empty());
        assert(esc(Seq::<u8>::empty()) == Seq::<u8>::empty());
        assert(esc(seq![b]) =~= esc_byte(b));
        assert(esc(seq![b] + t) == esc(seq![b]) + esc(t));
        assert(esc(k) == esc_byte(b) + esc(t));
        assert(s.subrange(i as int, j - 1) =~= esc(k));
    } else {
        let (t, j2) = parse_str(s, i + 1).unwrap();
        lemma_parse_str_sound(s, i + 1);
        let b = s[i as int];
        assert(esc_byte(b) =~= seq![b]);
        assert(k == seq![b] + t);
        assert(k.drop_first() =~= t);
        crate::codec::lemma_esc_append(seq![b], t);
        assert(seq![b].drop_first() =~= Seq::<u8>::empty());
        assert(esc(Seq::<u8>::empty()) == Seq::<u8>::empty());
        assert(esc(seq![b]) =~= esc_byte(b));
        assert(esc(k) == esc_byte(b) + esc(t));
        assert(s.subrange(i as int, j - 1) =~= esc(k));
    }
}

/// Completeness: the canonical escape of any key, followed by the closing
/// quote, parses back to that key.
pub proof fn lemma_parse_str_complete(s: Seq<u8>, i: nat, k: Seq<u8>)
    requires
        i + esc(k).len() + 1 <= s.len(),
        forall|m: int| 0 <= m < esc(k).len() ==> s[i + m] == #[trigger] esc(k)[m],
        s[(i + esc(k).len()) as int] == 34,
    ensures
        parse_str(s, i) == Some((k, (i + esc(k).len() + 1) as nat)),
    decreases k.len(),
{
    if k.len() == 0 {
        assert(esc(k).len() == 0);
        assert(s[i as int] == 34);
    } else {
        let b = k[0];
        let t = k.drop_first();
        assert(esc(k) == esc_byte(b) + esc(t));
        assert(forall|m: int|
            0 <= m < esc_byte(b).len() ==> esc(k)[m] == #[trigger] esc_byte(b)[m]);
        assert(forall|m: int|
            0 <= m < esc(t).len() ==> esc(k)[esc_byte(b).len() + m] == #[trigger] esc(
                t,
            )[m]);
        if b == 34 || b == 92 || b == 10 || b == 13 || b == 9 {
            assert(esc_byte(b).len() == 2);
            assert(s[i as int] == esc_byte(b)[0]);
            assert(s[(i + 1) as int] == esc_byte(b)[1]);
            assert(esc_byte(b)[0] == 92);
            assert(unesc_byte(esc_byte(b)[1]) == Some(b));
            assert(forall|m: int|
                0 <= m < esc(t).len() ==> s[i + 2 + m] == #[trigger] esc(t)[m]);
            lemma_parse_str_complete(s, i + 2, t);
            assert(seq![b] + t =~= k);
        } else {
            assert(esc_byte(b) =~= seq![b]);
            assert(esc(k).len() > 0);
            assert(esc(k)[0] == b);
            assert(s[i + 0 as int] == esc(k)[0]);
            assert(s[i as int] == b);
            assert(raw_ok(b));
            assert(forall|m: int|
                0 <= m < esc(t).len() ==> s[i + 1 + m] == #[trigger] esc(t)[m]);
            lemma_parse_str_complete(s, i + 1, t);
            assert(seq![b] + t =~= k);
        }
    }
}

/// Parse the checksummed entry payload.
pub open spec fn parse_payload(s: Seq<u8>, i: nat) -> Option<((Seq<u8>, Option<u32>), nat)> {
    match parse_lit(s, i, lit_put_prefix()) {
        Some(i1) => match parse_str(s, i1) {
            Some((k, i2)) => match parse_lit(s, i2, lit_val_mid()) {
                Some(i3) => match parse_dec_spec(s, i3, 0xFFFFFFFFu64) {
                    Some((v, i4)) => match parse_lit(s, i4, seq![125u8]) {
                        Some(i5) => Some(((k, Some(v as u32)), i5)),
                        None => None,
                    },
                    None => None,
                },
                None => None,
            },
            None => None,
        },
        None => match parse_lit(s, i, lit_del_prefix()) {
            Some(i1) => match parse_str(s, i1) {
                Some((k, i2)) => match parse_lit(s, i2, seq![125u8]) {
                    Some(i3) => Some(((k, None), i3)),
                    None => None,
                },
                None => None,
            },
            None => None,
        },
    }
}

/// Soundness: an accepted payload region is the canonical payload encoding.
pub proof fn lemma_parse_payload_sound(s: Seq<u8>, i: nat)
    requires
        parse_payload(s, i) is Some,
    ensures
        ({
            let ((k, v), j) = parse_payload(s, i).unwrap();
            &&& i < j <= s.len()
            &&& s.subrange(i as int, j as int) == enc_payload(k, v)
        }),
{
    let ((k, v), j) = parse_payload(s, i).unwrap();
    if parse_lit(s, i, lit_put_prefix()) is Some {
        let i1 = (i + lit_put_prefix().len()) as nat;
        let (k0, i2) = parse_str(s, i1).unwrap();
        lemma_parse_str_sound(s, i1);
        let i3 = (i2 + lit_val_mid().len()) as nat;
        let (v0, i4) = parse_dec_spec(s, i3, 0xFFFFFFFFu64).unwrap();
        crate::num::lemma_parse_dec_sound(s, i3, 0xFFFFFFFFu64, v0, i4);
        let i5 = (i4 + 1) as nat;
        assert(s.subrange(i2 - 1, i2 as int) =~= seq![34u8]);
        assert(s.subrange(i4 as int, i5 as int) =~= seq![125u8]) by {
            assert(s.subrange(i4 as int, i4 + 1 as int) == seq![125u8]);
        }
        assert(s.subrange(i as int, j as int) =~= s.subrange(i as int, i1 as int)
            + s.subrange(i1 as int, i2 - 1) + s.subrange(i2 - 1, i2 as int) + s.subrange(
            i2 as int,
            i3 as int,
        ) + s.subrange(i3 as int, i4 as int) + s.subrange(i4 as int, i5 as int));
        assert(s.subrange(i as int, j as int) == enc_payload(k, v));
    } else {
        let i1 = (i + lit_del_prefix().len()) as nat;
        let (k0, i2) = parse_str(s, i1).unwrap();
        lemma_parse_str_sound(s, i1);
        let i3 = (i2 + 1) as nat;
        assert(s.subrange(i2 - 1, i2 as int) =~= seq![34u8]);
        assert(s.subrange(i2 as int, i3 as int) =~= seq![125u8]) by {
            assert(s.subrange(i2 as int, i2 + 1 as int) == seq![125u8]);
        }
        assert(s.subrange(i as int, j as int) =~= s.subrange(i as int, i1 as int)
            + s.subrange(i1 as int, i2 - 1) + s.subrange(i2 - 1, i2 as int) + s.subrange(
            i2 as int,
            i3 as int,
        ));
        assert(s.subrange(i as int, j as int) == enc_payload(k, v));
    }
}

/// Completeness: a canonical payload sitting at `i` parses back exactly.
pub proof fn lemma_parse_payload_complete(s: Seq<u8>, i: nat, k: Seq<u8>, v: Option<u32>)
    requires
        i + enc_payload(k, v).len() <= s.len(),
        s.subrange(i as int, i + enc_payload(k, v).len() as int) == enc_payload(k, v),
    ensures
        parse_payload(s, i) == Some(((k, v), (i + enc_payload(k, v).len()) as nat)),
{
    let p = enc_payload(k, v);
    assert(forall|m: int| 0 <= m < p.len() ==> s[i + m] == #[trigger] p[m]) by {
        assert(forall|m: int|
            0 <= m < p.len() ==> #[trigger] s.subrange(i as int, i + p.len() as int)[m]
                == s[i + m]);
    }
    match v {
        Some(val) => {
            let a = lit_put_prefix();
            let b = esc(k);
            let d = lit_val_mid();
            let e = dec_spec(val as nat);
            assert(p == a + b + seq![34u8] + d + e + seq![125u8]);
            let i1 = (i + a.len()) as nat;
            let i2 = (i1 + b.len() + 1) as nat;
            let i3 = (i2 + d.len()) as nat;
            let i4 = (i3 + e.len()) as nat;
            let i5 = (i4 + 1) as nat;
            assert(p.len() == a.len() + b.len() + 1 + d.len() + e.len() + 1);
            assert(forall|m: int| 0 <= m < a.len() ==> p[m] == #[trigger] a[m]);
            assert(forall|m: int|
                0 <= m < b.len() ==> p[a.len() + m] == #[trigger] b[m]);
            assert(p[(a.len() + b.len()) as int] == 34u8);
            assert(forall|m: int|
                0 <= m < d.len() ==> p[a.len() + b.len() + 1 + m] == #[trigger] d[m]);
            assert(forall|m: int|
                0 <= m < e.len() ==> p[a.len() + b.len() + 1 + d.len() + m]
                    == #[trigger] e[m]);
            assert(p[p.len() - 1] == 125u8);
            lemma_parse_lit_at(s, a, i);
            assert(forall|m: int| 0 <= m < b.len() ==> s[i1 + m] == #[trigger] b[m]);
            assert(s[(i1 + b.len()) as int] == 34u8);
            lemma_parse_str_complete(s, i1, k);
            lemma_parse_lit_at(s, d, i2);
            assert(s.subrange(i3 as int, i3 + e.len() as int) =~= e) by {
                assert(forall|m: int|
                    0 <= m < e.len() ==> s[i3 + m] == #[trigger] e[m]);
            }
            assert(s[(i3 + e.len()) as int] == 125u8);
            assert(!crate::num::is_digit(125u8));
            crate::num::lemma_parse_dec_complete(s, i3, 0xFFFFFFFFu64, val as u64);
            assert(s[i4 as int] == 125u8);
            lemma_parse_lit_at(s, seq![125u8], i4);
            assert(parse_payload(s, i) == Some(((k, Some(val)), i5)));
        },
        None => {
            let a = lit_del_prefix();
            let b = esc(k);
            assert(p == a + b + seq![34u8] + seq![125u8]);
            let i1 = (i + a.len()) as nat;
            let i2 = (i1 + b.len() + 1) as nat;
            let i3 = (i2 + 1) as nat;
            assert(p.len() == a.len() + b.len() + 2);
            assert(forall|m: int| 0 <= m < a.len() ==> p[m] == #[trigger] a[m]);
            assert(forall|m: int|
                0 <= m < b.len() ==> p[a.len() + m] == #[trigger] b[m]);
            assert(p[(a.len() + b.len()) as int] == 34u8);
            assert(p[p.len() - 1] == 125u8);
            // the delete prefix does not begin with the put prefix
            assert(a[6] == 34u8 && a[7] == 100u8);
            assert(lit_put_prefix()[7] == 112u8);
            assert(parse_lit(s, i, lit_put_prefix()) is None) by {
                if parse_lit(s, i, lit_put_prefix()) is Some {
                    assert(s.subrange(i as int, i + lit_put_prefix().len() as int)[7]
                        == s[i + 7 as int]);
                    assert(s[i + 7 as int] == 112u8);
                    assert(s[i + 7 as int] == p[7]);
                    assert(p[7] == a[7]);
                }
            }
            lemma_parse_lit_at(s, a, i);
            assert(forall|m: int| 0 <= m < b.len() ==> s[i1 + m] == #[trigger] b[m]);
            assert(s[(i1 + b.len()) as int] == 34u8);
            lemma_parse_str_complete(s, i1, k);
            assert(s[i2 as int] == 125u8);
            lemma_parse_lit_at(s, seq![125u8], i2);
            assert(parse_payload(s, i) == Some(((k, None::<u32>), i3)));
        },
    }
}

/// Parse one whole WAL line into its payload model and framed checksum.
pub open spec fn parse_wal_frame(s: Seq<u8>) -> Option<((Seq<u8>, Option<u32>), u64)> {
    match parse_lit(s, 0, lit_wal_prefix()) {
        Some(i1) => match parse_dec_spec(s, i1, 0xFFFFFFFFu64) {
            Some((h, i2)) => match parse_lit(s, i2, lit_entry_mid()) {
                Some(i3) => match parse_payload(s, i3) {
                    Some(((k, v), i4)) => match parse_lit(s, i4, seq![125u8]) {
                        Some(i5) => if i5 == s.len() {
                            Some(((k, v), h))
                        } else {
                            None
                        },
                        None => None,
                    },
                    None => None,
                },
                None => None,
            },
            None => None,
        },
        None => None,
    }
}

/// A WAL line is valid when its frame parses and the checksum matches the
/// canonical serialization of the entry it carries.
pub open spec fn parse_wal_line_ok(s: Seq<u8>) -> Option<(Seq<u8>, Option<u32>)> {
    match parse_wal_frame(s) {
        Some(((k, v), h)) => if h == crc32_spec(enc_payload(k, v)) {
            Some((k, v))
        } else {
            None
        },
        None => None,
    }
}

/// Soundness: an accepted WAL line is the canonical line encoding.
pub proof fn lemma_parse_wal_line_sound(s: Seq<u8>)
    requires
        parse_wal_line_ok(s) is Some,
    ensures
        ({
            let (k, v) = parse_wal_line_ok(s).unwrap();
            s == enc_wal_line(k, v)
        }),
{
    let (k, v) = parse_wal_line_ok(s).unwrap();
    let i1 = lit_wal_prefix().len() as nat;
    let (h, i2) = parse_dec_spec(s, i1, 0xFFFFFFFFu64).unwrap();
    crate::num::lemma_parse_dec_sound(s, i1, 0xFFFFFFFFu64, h, i2);
    let i3 = (i2 + lit_entry_mid().len()) as nat;
    let ((k0, v0), i4) = parse_payload(s, i3).unwrap();
    lemma_parse_payload_sound(s, i3);
    let i5 = (i4 + 1) as nat;
    assert(s.subrange(i4 as int, i5 as int) =~= seq![125u8]) by {
        assert(s.subrange(i4 as int, i4 + 1 as int) == seq![125u8]);
    }
    assert(h == crc32_spec(enc_payload(k, v)));
    assert(s =~= s.subrange(0, i1 as int) + s.subrange(i1 as int, i2 as int) + s.subrange(
        i2 as int,
        i3 as int,
    ) + s.subrange(i3 as int, i4 as int) + s.subrange(i4 as int, i5 as int));
    assert(crate::num::dec_spec(h as nat) == crate::num::dec_spec(
        crc32_spec(enc_payload(k, v)) as nat,
    ));
    assert(s == enc_wal_line(k, v));
}

/// Completeness: every canonical WAL line parses back to its entry.
pub proof fn lemma_parse_wal_line_complete(k: Seq<u8>, v: Option<u32>)
    ensures
        parse_wal_line_ok(enc_wal_line(k, v)) == Some((k, v)),
{
    let s = enc_wal_line(k, v);
    let a = lit_wal_prefix();
    let h = crc32_spec(enc_payload(k, v));
    let b = crate::num::dec_spec(h as nat);
    let c = lit_entry_mid();
    let p = enc_payload(k, v);
    assert(s == a + b + c + p + seq![125u8]);
    let i1 = a.len() as nat;
    let i2 = (i1 + b.len()) as nat;
    let i3 = (i2 + c.len()) as nat;
    let i4 = (i3 + p.len()) as nat;
    let i5 = (i4 + 1) as nat;
    assert(s.len() == i5);
    assert(forall|m: int| 0 <= m < a.len() ==> s[m] == #[trigger] a[m]);
    assert(forall|m: int| 0 <= m < b.len() ==> s[i1 + m] == #[trigger] b[m]);
    assert(forall|m: int| 0 <= m < c.len() ==> s[i2 + m] == #[trigger] c[m]);
    assert(forall|m: int| 0 <= m < p.len() ==> s[i3 + m] == #[trigger] p[m]);
    assert(s[i4 as int] == 125u8);
    lemma_parse_lit_at(s, a, 0);
    assert(s.subrange(i1 as int, i1 + b.len() as int) =~= b);
    assert(s[(i1 + b.len()) as int] == c[0]);
    assert(c[0] == 44u8);
    assert(!crate::num::is_digit(44u8));
    crate::num::lemma_parse_dec_complete(s, i1, 0xFFFFFFFFu64, h as u64);
    lemma_parse_lit_at(s, c, i2);
    assert(s.subrange(i3 as int, i3 + p.len() as int) =~= p);
    lemma_parse_payload_complete(s, i3, k, v);
    lemma_parse_lit_at(s, seq![125u8], i4);
    assert(parse_wal_frame(s) == Some(((k, v), h as u64)));
}

/// Parse one SST record.
pub open spec fn parse_sst_record(s: Seq<u8>, i: nat) -> Option<((Seq<u8>, Option<u32>), nat)> {
    match parse_lit(s, i, lit_sst_prefix()) {
        Some(i1) => match parse_str(s, i1) {
            Some((k, i2)) => match parse_lit(s, i2, lit_val_mid()) {
                Some(i3) => match parse_dec_spec(s, i3, 0xFFFFFFFFu64) {
                    Some((v, i4)) => match parse_lit(s, i4, seq![125u8]) {
                        Some(i5) => Some(((k, Some(v as u32)), i5)),
                        None => None,
                    },
                    None => None,
                },
                None => match parse_lit(s, i2, lit_deleted_tail()) {
                    Some(i3) => Some(((k, None), i3)),
                    None => None,
                },
            },
            None => None,
        },
        None => None,
    }
}

/// A record with a value field and one with a tombstone marker is all the
/// record parser accepts: anything with neither is rejected.
pub proof fn lemma_parse_sst_record_complete(s: Seq<u8>, i: nat, k: Seq<u8>, v: Option<u32>)
    requires
        i + enc_sst_record(k, v).len() <= s.len(),
        forall|m: int|
            0 <= m < enc_sst_record(k, v).len() ==> s[i + m] == #[trigger] enc_sst_record(
                k,
                v,
            )[m],
    ensures
        parse_sst_record(s, i) == Some(((k, v), (i + enc_sst_record(k, v).len()) as nat)),
{
    let p = enc_sst_record(k, v);
    let a = lit_sst_prefix();
    let b = esc(k);
    let i1 = (i + a.len()) as nat;
    let i2 = (i1 + b.len() + 1) as nat;
    assert(forall|m: int| 0 <= m < a.len() ==> p[m] == #[trigger] a[m]);
    assert(forall|m: int| 0 <= m < b.len() ==> p[a.len() + m] == #[trigger] b[m]);
    assert(p[(a.len() + b.len()) as int] == 34u8);
    lemma_parse_lit_at(s, a, i);
    assert(forall|m: int| 0 <= m < b.len() ==> s[i1 + m] == #[trigger] b[m]);
    assert(s[(i1 + b.len()) as int] == 34u8);
    lemma_parse_str_complete(s, i1, k);
    match v {
        Some(val) => {
            let d = lit_val_mid();
            let e = dec_spec(val as nat);
            assert(p == a + b + seq![34u8] + d + e + seq![125u8]);
            let i3 = (i2 + d.len()) as nat;
            let i4 = (i3 + e.len()) as nat;
            assert(forall|m: int|
                0 <= m < d.len() ==> p[a.len() + b.len() + 1 + m] == #[trigger] d[m]);
            assert(forall|m: int|
                0 <= m < e.len() ==> p[a.len() + b.len() + 1 + d.len() + m]
                    == #[trigger] e[m]);
            assert(p[p.len() - 1] == 125u8);
            lemma_parse_lit_at(s, d, i2);
            assert(s.subrange(i3 as int, i3 + e.len() as int) =~= e) by {
                assert(forall|m: int|
                    0 <= m < e.len() ==> s[i3 + m] == #[trigger] e[m]);
            }
            assert(s[(i3 + e.len()) as int] == 125u8);
            assert(!crate::num::is_digit(125u8));
            crate::num::lemma_parse_dec_complete(s, i3, 0xFFFFFFFFu64, val as u64);
            assert(s[i4 as int] == 125u8);
            lemma_parse_lit_at(s, seq![125u8], i4);
        },
        None => {
            let d = lit_deleted_tail();
            assert(p == a + b + seq![34u8] + d);
            let i3 = (i2 + d.len()) as nat;
            assert(forall|m: int|
                0 <= m < d.len() ==> p[a.len() + b.len() + 1 + m] == #[trigger] d[m]);
            lemma_parse_lit_at(s, d, i2);
            // the value form cannot also match: its fragment differs at
            // the third byte (`v` vs `d`)
            assert(parse_lit(s, i2, lit_val_mid()) is None) by {
                if parse_lit(s, i2, lit_val_mid()) is Some {
                    assert(s.subrange(i2 as int, i2 + lit_val_mid().len() as int)[2]
                        == s[i2 + 2 as int]);
                    assert(s[i2 + 2 as int] == lit_val_mid()[2]);
                    assert(s[i2 + 2 as int] == d[2]);
                }
            }
        },
    }
}

/// Parse comma-separated records up to and including the closing bracket.
pub open spec fn parse_records(s: Seq<u8>, i: nat) -> Option<
    (Seq<(Seq<u8>, Option<u32>)>, nat),
>
    decreases s.len() - i,
{
    match parse_sst_record(s, i) {
        Some((kv, j)) => if i < j && j < s.len() {
            if s[j as int] == 93 {
                Some((seq![kv], (j + 1) as nat))
            } else if s[j as int] == 44 {
                match parse_records(s, (j + 1) as nat) {
                    Some((rest, j2)) => Some((seq![kv] + rest, j2)),
                    None => None,
                }
            } else {
                None
            }
        } else {
            None
        },
        None => None,
    }
}

pub proof fn lemma_parse_records_complete(s: Seq<u8>, i: nat, es: Seq<Entry>)
    requires
        es.len() > 0,
        i + enc_records(es).len() + 1 <= s.len(),
        forall|m: int|
            0 <= m < enc_records(es).len() ==> s[i + m] == #[trigger] enc_records(es)[m],
        s[(i + enc_records(es).len()) as int] == 93,
    ensures
        parse_records(s, i) == Some(
            (models_of(es), (i + enc_records(es).len() + 1) as nat),
        ),
    decreases es.len(),
{
    let r = enc_records(es);
    let rec0 = enc_sst_record_of(es[0]);
    let k0 = key_of(es[0]);
    let v0 = val_of(es[0]);
    if es.len() == 1 {
        assert(r == rec0);
        assert(forall|m: int| 0 <= m < rec0.len() ==> s[i + m] == #[trigger] rec0[m]);
        lemma_parse_sst_record_complete(s, i, k0, v0);
        let j = (i + rec0.len()) as nat;
        assert(rec0.len() > 0);
        assert(s[j as int] == 93);
        assert(models_of(es) =~= seq![(k0, v0)]);
    } else {
        let rest = es.drop_first();
        assert(r == rec0 + seq![44u8] + enc_records(rest));
        assert(forall|m: int| 0 <= m < rec0.len() ==> r[m] == #[trigger] rec0[m]);
        assert(forall|m: int| 0 <= m < rec0.len() ==> s[i + m] == #[trigger] rec0[m]);
        lemma_parse_sst_record_complete(s, i, k0, v0);
        let j = (i + rec0.len()) as nat;
        assert(r[rec0.len() as int] == 44u8);
        assert(s[j as int] == 44);
        assert(forall|m: int|
            0 <= m < enc_records(rest).len() ==> r[rec0.len() + 1 + m]
                == #[trigger] enc_records(rest)[m]);
        assert(forall|m: int|
            0 <= m < enc_records(rest).len() ==> s[(j + 1) + m] == #[trigger] enc_records(
                rest,
            )[m]);
        assert(s[((j + 1) + enc_records(rest).len()) as int] == 93);
        lemma_parse_records_complete(s, (j + 1) as nat, rest);
        assert(seq![(k0, v0)] + models_of(rest) =~= models_of(es));
    }
}

/// Parse a whole SST file.
pub open spec fn parse_sst_spec(s: Seq<u8>) -> Option<Seq<(Seq<u8>, Option<u32>)>> {
    if s.len() >= 2 && s[0] == 91 {
        if s.len() == 2 && s[1] == 93 {
            Some(Seq::empty())
        } else {
            match parse_records(s, 1) {
                Some((rs, j)) => if j == s.len() {
                    Some(rs)
                } else {
                    None
                },
                None => None,
            }
        }
    } else {
        None
    }
}

/// Every canonical SST file parses back to its entries' models.
pub proof fn lemma_parse_sst_complete(es: Seq<Entry>)
    ensures
        parse_sst_spec(enc_sst(es)) == Some(models_of(es)),
{
    let s = enc_sst(es);
    let r = enc_records(es);
    assert(s == seq![91u8] + r + seq![93u8]);
    assert(s[0] == 91);
    if es.len() == 0 {
        assert(r.len() == 0);
        assert(s.len() == 2 && s[1] == 93);
        assert(models_of(es) =~= Seq::<(Seq<u8>, Option<u32>)>::empty());
    } else {
        assert(r.len() > 0) by {
            if es.len() == 1 {
                assert(r == enc_sst_record_of(es[0]));
            }
        }
        assert(s.len() > 2);
        assert(forall|m: int| 0 <= m < r.len() ==> s[1 + m] == #[trigger] r[m]);
        assert(s[(1 + r.len()) as int] == 93);
        lemma_parse_records_complete(s, 1, es);
    }
}

/// Parse one manifest line (an SST path) and the lines after it.
pub open spec fn parse_manifest_rec(s: Seq<u8>, i: nat) -> Option<(Seq<u64>, nat)>
    decreases s.len() - i,
{
    match parse_lit(s, i, lit_path_prefix()) {
        Some(i1) => match parse_dec_spec(s, i1, ID_LIMIT) {
            Some((id, i2)) => match parse_lit(s, i2, lit_path_suffix()) {
                Some(i3) => if i3 == s.len() {
                    Some((seq![id], i3))
                } else if s[i3 as int] == 10 {
                    if i3 + 1 == s.len() {
                        // a trailing newline is tolerated
                        Some((seq![id], (i3 + 1) as nat))
                    } else if i < i3 {
                        match parse_manifest_rec(s, (i3 + 1) as nat) {
                            Some((rest, j)) => Some((seq![id] + rest, j)),
                            None => None,
                        }
                    } else {
                        None
                    }
                } else {
                    None
                },
                None => None,
            },
            None => None,
        },
        None => None,
    }
}

/// Parse a whole manifest. The empty file is an empty manifest.
pub open spec fn parse_manifest_spec(s: Seq<u8>) -> Option<Seq<u64>> {
    if s.len() == 0 {
        Some(Seq::empty())
    } else {
        match parse_manifest_rec(s, 0) {
            Some((ids, j)) => if j == s.len() {
                Some(ids)
            } else {
                None
            },
            None => None,
        }
    }
}

pub proof fn lemma_parse_manifest_rec_complete(s: Seq<u8>, i: nat, ids: Seq<u64>)
    requires
        ids.len() > 0,
        forall|m: int| 0 <= m < ids.len() ==> #[trigger] ids[m] <= ID_LIMIT,
        i + enc_manifest(ids).len() == s.len(),
        forall|m: int|
            0 <= m < enc_manifest(ids).len() ==> s[i + m] == #[trigger] enc_manifest(
                ids,
            )[m],
    ensures
        parse_manifest_rec(s, i) == Some((ids, s.len() as nat)),
    decreases ids.len(),
{
    let r = enc_manifest(ids);
    let p0 = path_spec(ids[0]);
    let a = lit_path_prefix();
    let b = dec_spec(ids[0] as nat);
    let c = lit_path_suffix();
    assert(p0 == a + b + c);
    let i1 = (i + a.len()) as nat;
    let i2 = (i1 + b.len()) as nat;
    let i3 = (i2 + c.len()) as nat;
    if ids.len() == 1 {
        assert(r == p0);
    } else {
        assert(r == p0 + seq![10u8] + enc_manifest(ids.drop_first()));
    }
    assert(forall|m: int| 0 <= m < p0.len() ==> r[m] == #[trigger] p0[m]);
    assert(forall|m: int| 0 <= m < a.len() ==> p0[m] == #[trigger] a[m]);
    assert(forall|m: int| 0 <= m < b.len() ==> p0[a.len() + m] == #[trigger] b[m]);
    assert(forall|m: int|
        0 <= m < c.len() ==> p0[a.len() + b.len() + m] == #[trigger] c[m]);
    lemma_parse_lit_at(s, a, i);
    assert(s.subrange(i1 as int, i1 + b.len() as int) =~= b) by {
        assert(forall|m: int| 0 <= m < b.len() ==> s[i1 + m] == #[trigger] b[m]);
    }
    assert(s[(i1 + b.len()) as int] == c[0]);
    assert(c[0] == 46u8);
    assert(!crate::num::is_digit(46u8));
    crate::num::lemma_parse_dec_complete(s, i1, ID_LIMIT, ids[0]);
    assert(forall|m: int| 0 <= m < c.len() ==> s[i2 + m] == #[trigger] c[m]);
    lemma_parse_lit_at(s, c, i2);
    if ids.len() == 1 {
        assert(i3 == s.len());
        assert(seq![ids[0]] =~= ids);
    } else {
        let rest = ids.drop_first();
        assert(r[p0.len() as int] == 10u8);
        assert(s[i3 as int] == 10);
        assert(rest.len() > 0);
        assert(enc_manifest(rest).len() > 0) by {
            if rest.len() == 1 {
                assert(enc_manifest(rest) == path_spec(rest[0]));
            }
        }
        assert(i3 + 1 < s.len());
        assert forall|m: int| 0 <= m < enc_manifest(rest).len() implies s[(i3 + 1) + m]
            == #[trigger] enc_manifest(rest)[m] by {
            assert(r[p0.len() + 1 + m] == enc_manifest(rest)[m]);
            assert(s[i + (p0.len() + 1 + m)] == r[p0.len() + 1 + m]);
        }
        lemma_parse_manifest_rec_complete(s, (i3 + 1) as nat, rest);
        assert(seq![ids[0]] + rest =~= ids);
    }
}

/// Every canonical manifest parses back to its ids.
pub proof fn lemma_parse_manifest_complete(ids: Seq<u64>)
    requires
        forall|m: int| 0 <= m < ids.len() ==> #[trigger] ids[m] <= ID_LIMIT,
    ensures
        parse_manifest_spec(enc_manifest(ids)) == Some(ids),
{
    let s = enc_manifest(ids);
    if ids.len() == 0 {
        assert(s.len() == 0);
        assert(ids =~= Seq::<u64>::empty());
    } else {
        assert(s.len() > 0) by {
            if ids.len() == 1 {
                assert(s == path_spec(ids[0]));
            }
        }
        lemma_parse_manifest_rec_complete(s, 0, ids);
    }
}

/// Position of the first newline at or after `i`, or the end of input.
pub open spec fn nl_pos(s: Seq<u8>, i: nat) -> nat
    decreases s.len() - i,
{
    if i < s.len() && s[i as int] != 10 {
        nl_pos(s, i + 1)
    } else {
        i
    }
}

proof fn lemma_nl_pos_at(s: Seq<u8>, i: nat, j: nat)
    requires
        i <= j <= s.len(),
        forall|m: int| i <= m < j ==> #[trigger] s[m] != 10,
        j == s.len() || s[j as int] == 10,
    ensures
        nl_pos(s, i) == j,
    decreases j - i,
{
    if i < j {
        lemma_nl_pos_at(s, i + 1, j);
    }
}

proof fn lemma_nl_pos_bounds(s: Seq<u8>, i: nat)
    requires
        i <= s.len(),
    ensures
        i <= nl_pos(s, i) <= s.len(),
    decreases s.len() - i,
{
    if i < s.len() && s[i as int] != 10 {
        lemma_nl_pos_bounds(s, i + 1);
    }
}

/// Split a byte string into newline-separated lines.
pub open spec fn split_lines(s: Seq<u8>) -> Seq<Seq<u8>>
    decreases s.len(),
{
    let j = nl_pos(s, 0);
    if 0 <= j < s.len() {
        seq![s.subrange(0, j as int)] + split_lines(s.skip(j + 1 as int))
    } else {
        seq![s]
    }
}

/// Replay validated WAL lines in order, stopping at the first line that
/// fails to parse or whose checksum does not match; blank lines are
/// ignored.
pub open spec fn replay_lines(lines: Seq<Seq<u8>>) -> Seq<(Seq<u8>, Option<u32>)>
    decreases lines.len(),
{
    if lines.len() == 0 {
        Seq::empty()
    } else if lines[0].len() == 0 {
        replay_lines(lines.drop_first())
    } else {
        match parse_wal_line_ok(lines[0]) {
            Some(kv) => seq![kv] + replay_lines(lines.drop_first()),
            None => Seq::empty(),
        }
    }
}

/// Replay a WAL file: the entries of its longest validated prefix.
pub open spec fn replay_spec(s: Seq<u8>) -> Seq<(Seq<u8>, Option<u32>)> {
    replay_lines(split_lines(s))
}

/// No byte of a WAL line is a newline, so line framing is unambiguous.
pub proof fn lemma_wal_line_no_nl(k: Seq<u8>, v: Option<u32>)
    ensures
        forall|m: int|
            0 <= m < enc_wal_line(k, v).len() ==> #[trigger] enc_wal_line(k, v)[m] != 10,
{
    let s = enc_wal_line(k, v);
    lemma_esc_no_nl(k);
    crate::num::lemma_dec_spec_digits(crc32_spec(enc_payload(k, v)) as nat);
    match v {
        Some(val) => {
            crate::num::lemma_dec_spec_digits(val as nat);
        },
        None => {},
    }
    assert forall|m: int| 0 <= m < s.len() implies #[trigger] s[m] != 10 by {
        let a = lit_wal_prefix();
        let b = dec_spec(crc32_spec(enc_payload(k, v)) as nat);
        let c = lit_entry_mid();
        let p = enc_payload(k, v);
        assert(s == a + b + c + p + seq![125u8]);
        if m < a.len() {
            assert(s[m] == a[m]);
        } else if m < a.len() + b.len() {
            assert(s[m] == b[m - a.len()]);
            assert(crate::num::is_digit(b[m - a.len()]));
        } else if m < a.len() + b.len() + c.len() {
            assert(s[m] == c[m - a.len() - b.len()]);
        } else if m < a.len() + b.len() + c.len() + p.len() {
            let mp = m - a.len() - b.len() - c.len();
            assert(s[m] == p[mp]);
            lemma_payload_no_nl(k, v);
        } else {
            assert(s[m] == 125u8);
        }
    }
}

proof fn lemma_payload_no_nl(k: Seq<u8>, v: Option<u32>)
    ensures
        forall|m: int|
            0 <= m < enc_payload(k, v).len() ==> #[trigger] enc_payload(k, v)[m] != 10,
{
    let p = enc_payload(k, v);
    lemma_esc_no_nl(k);
    assert forall|m: int| 0 <= m < p.len() implies #[trigger] p[m] != 10 by {
        match v {
            Some(val) => {
                let a = lit_put_prefix();
                let b = esc(k);
                let d = lit_val_mid();
                let e = dec_spec(val as nat);
                crate::num::lemma_dec_spec_digits(val as nat);
                assert(p == a + b + seq![34u8] + d + e + seq![125u8]);
                if m < a.len() {
                    assert(p[m] == a[m]);
                } else if m < a.len() + b.len() {
                    assert(p[m] == b[m - a.len()]);
                } else if m < a.len() + b.len() + 1 {
                    assert(p[m] == 34u8);
                } else if m < a.len() + b.len() + 1 + d.len() {
                    assert(p[m] == d[m - a.len() - b.len() - 1]);
                } else if m < a.len() + b.len() + 1 + d.len() + e.len() {
                    assert(p[m] == e[m - a.len() - b.len() - 1 - d.len()]);
                    assert(crate::num::is_digit(e[m - a.len() - b.len() - 1 - d.len()]));
                } else {
                    assert(p[m] == 125u8);
                }
            },
            None => {
                let a = lit_del_prefix();
                let b = esc(k);
                assert(p == a + b + seq![34u8] + seq![125u8]);
                if m < a.len() {
                    assert(p[m] == a[m]);
                } else if m < a.len() + b.len() {
                    assert(p[m] == b[m - a.len()]);
                } else if m < a.len() + b.len() + 1 {
                    assert(p[m] == 34u8);
                } else {
                    assert(p[m] == 125u8);
                }
            },
        }
    }
}

/// The escaped form of a key never contains a raw newline.
pub proof fn lemma_esc_no_nl(k: Seq<u8>)
    ensures
        forall|m: int| 0 <= m < esc(k).len() ==> #[trigger] esc(k)[m] != 10,
    decreases k.len(),
{
    if k.len() > 0 {
        lemma_esc_no_nl(k.drop_first());
        assert(esc(k) == esc_byte(k[0]) + esc(k.drop_first()));
        assert forall|m: int| 0 <= m < esc(k).len() implies #[trigger] esc(k)[m] != 10 by {
            if m < esc_byte(k[0]).len() {
                assert(esc(k)[m] == esc_byte(k[0])[m]);
            } else {
                assert(esc(k)[m] == esc(k.drop_first())[m - esc_byte(k[0]).len()]);
            }
        }
    }
}

/// Splitting after a newline-free line restores the line.
pub proof fn lemma_split_cons(line: Seq<u8>, rest: Seq<u8>)
    requires
        forall|m: int| 0 <= m < line.len() ==> #[trigger] line[m] != 10,
    ensures
        split_lines(line + seq![10u8] + rest) == seq![line] + split_lines(rest),
{
    let s = line + seq![10u8] + rest;
    assert(forall|m: int| 0 <= m < line.len() ==> s[m] == #[trigger] line[m]);
    assert(s[line.len() as int] == 10);
    lemma_nl_pos_at(s, 0, line.len() as nat);
    assert(s.subrange(0, line.len() as int) =~= line);
    assert(s.skip(line.len() + 1 as int) =~= rest);
}

/// A validated head line contributes its entry; replay continues behind it.
proof fn lemma_replay_lines_cons(line: Seq<u8>, rest: Seq<Seq<u8>>, kv: (Seq<u8>, Option<u32>))
    requires
        line.len() > 0,
        parse_wal_line_ok(line) == Some(kv),
    ensures
        replay_lines(seq![line] + rest) == seq![kv] + replay_lines(rest),
{
    let lines = seq![line] + rest;
    assert(lines[0] == line);
    assert(lines.drop_first() =~= rest);
}

/// One framed line followed by the rest of the log replays as its entry
/// followed by the replay of the rest.
#[verifier::rlimit(100)]
#[verifier::spinoff_prover]
proof fn lemma_replay_step(e0: Entry, restb: Seq<u8>)
    ensures
        replay_spec(enc_wal_line_of(e0) + seq![10u8] + restb) == seq![
            (key_of(e0), val_of(e0)),
        ] + replay_spec(restb),
{
    let kk = key_of(e0);
    let vv = val_of(e0);
    let line = enc_wal_line(kk, vv);
    assert(enc_wal_line_of(e0) == line);
    assert(forall|m: int| 0 <= m < line.len() ==> #[trigger] line[m] != 10) by {
        lemma_wal_line_no_nl(kk, vv);
    }
    assert(split_lines(line + seq![10u8] + restb) == seq![line] + split_lines(restb)) by {
        lemma_split_cons(line, restb);
    }
    assert(line.len() > 0);
    assert(parse_wal_line_ok(line) == Some((kk, vv))) by {
        lemma_parse_wal_line_complete(kk, vv);
    }
    lemma_replay_lines_cons(line, split_lines(restb), (kk, vv));
}

/// Replaying a canonical WAL restores every entry's model, in order.
#[verifier::rlimit(100)]
#[verifier::spinoff_prover]
pub proof fn lemma_replay_complete(es: Seq<Entry>)
    ensures
        replay_spec(enc_wal(es)) == models_of(es),
    decreases es.len(),
{
    if es.len() == 0 {
        assert(enc_wal(es).len() == 0);
        assert(nl_pos(Seq::<u8>::empty(), 0) == 0);
        assert(split_lines(enc_wal(es)) =~= seq![Seq::<u8>::empty()]);
        assert(replay_lines(seq![Seq::<u8>::empty()]) =~= Seq::<
            (Seq<u8>, Option<u32>),
        >::empty()) by {
            assert(seq![Seq::<u8>::empty()][0].len() == 0);
            assert(seq![Seq::<u8>::empty()].drop_first() =~= Seq::<Seq<u8>>::empty());
            assert(replay_lines(Seq::<Seq<u8>>::empty()) == Seq::<
                (Seq<u8>, Option<u32>),
            >::empty());
        }
        assert(models_of(es) =~= Seq::<(Seq<u8>, Option<u32>)>::empty());
    } else {
        let e0 = es[0];
        let rest = es.drop_first();
        assert(enc_wal(es) == enc_wal_line_of(e0) + seq![10u8] + enc_wal(rest));
        lemma_replay_step(e0, enc_wal(rest));
        lemma_replay_complete(rest);
        assert(seq![(key_of(e0), val_of(e0))] + models_of(rest) =~= models_of(es));
    }
}

// ---------------------------------------------------------------------------
// Exec parsers, each refining its spec twin exactly.
// ---------------------------------------------------------------------------
/// Match a fixed fragment at position `i`.
fn match_lit(s: &Vec<u8>, i: usize, lit: &Vec<u8>) -> (r: Option<usize>)
    requires
        i <= s@.len(),
    ensures
        match r {
            Some(j) => parse_lit(s@, i as nat, lit@) == Some(j as nat),
            None => parse_lit(s@, i as nat, lit@) is None,
        },
{
    if s.len() - i < lit.len() {
        return None;
    }
    let mut m: usize = 0;
    while m < lit.len()
        invariant
            0 <= m <= lit@.len(),
            i + lit@.len() <= s@.len(),
            s@.len() <= usize::MAX,
            forall|t: int| 0 <= t < m ==> s@[i + t] == #[trigger] lit@[t],
        decreases lit@.len() - m,
    {
        if s[i + m] != lit[m] {
            proof {
                let sub = s@.subrange(i as int, i + lit@.len() as int);
                assert(sub[m as int] == s@[i + m]);
            }
            return None;
        }
        m = m + 1;
    }
    proof {
        lemma_parse_lit_at(s@, lit@, i as nat);
    }
    Some(i + lit.len())
}

/// Parse a string body up to and including its closing quote.
fn parse_str_exec(s: &Vec<u8>, i: usize) -> (r: Option<(Vec<u8>, usize)>)
    requires
        i <= s@.len(),
    ensures
        match r {
            Some((k, j)) => parse_str(s@, i as nat) == Some((k@, j as nat)) && j
                <= s@.len(),
            None => parse_str(s@, i as nat) is None,
        },
    decreases s@.len() - i,
{
    if i >= s.len() {
        return None;
    }
    let b = s[i];
    if b == 34 {
        let k: Vec<u8> = Vec::new();
        proof {
            assert(k@ =~= Seq::<u8>::empty());
        }
        return Some((k, i + 1));
    }
    if b == 92 {
        if i + 1 >= s.len() {
            return None;
        }
        let e = s[i + 1];
        let u: u8 = if e == 34 {
            34
        } else if e == 92 {
            92
        } else if e == 110 {
            10
        } else if e == 114 {
            13
        } else if e == 116 {
            9
        } else {
            return None;
        };
        proof {
            assert(unesc_byte(s@[(i + 1) as int]) == Some(u));
        }
        match parse_str_exec(s, i + 2) {
            Some((t0, j)) => {
                let ghost tb = t0@;
                let mut t = t0;
                t.insert(0, u);
                proof {
                    assert(t@ =~= seq![u] + tb);
                }
                return Some((t, j));
            },
            None => {
                return None;
            },
        }
    }
    if b == 10 || b == 13 || b == 9 {
        return None;
    }
    match parse_str_exec(s, i + 1) {
        Some((t0, j)) => {
            let ghost tb = t0@;
            let mut t = t0;
            t.insert(0, b);
            proof {
                assert(t@ =~= seq![b] + tb);
            }
            Some((t, j))
        },
        None => None,
    }
}

/// Parse the checksummed entry payload into an entry.
fn parse_payload_exec(s: &Vec<u8>, i: usize) -> (r: Option<(Entry, usize)>)
    requires
        i <= s@.len(),
    ensures
        match r {
            Some((e, j)) => parse_payload(s@, i as nat) == Some(
                ((key_of(e), val_of(e)), j as nat),
            ) && j <= s@.len(),
            None => parse_payload(s@, i as nat) is None,
        },
{
    let put_pre = crate::codec::lit_vec_put_prefix();
    let rb = rbrace_vec();
    match match_lit(s, i, &put_pre) {
        Some(i1) => {
            match parse_str_exec(s, i1) {
                Some((k, i2)) => {
                    let val_mid = crate::codec::lit_vec_val_mid();
                    match match_lit(s, i2, &val_mid) {
                        Some(i3) => {
                            match crate::num::parse_dec(s, i3, 0xFFFFFFFF) {
                                Some((v, i4)) => {
                                    proof {
                                        crate::num::lemma_parse_dec_sound(
                                            s@,
                                            i3 as nat,
                                            0xFFFFFFFFu64,
                                            v,
                                            i4 as nat,
                                        );
                                    }
                                    match match_lit(s, i4, &rb) {
                                        Some(i5) => Some((Entry::put(k, v as u32), i5)),
                                        None => None,
                                    }
                                },
                                None => None,
                            }
                        },
                        None => None,
                    }
                },
                None => None,
            }
        },
        None => {
            let del_pre = crate::codec::lit_vec_del_prefix();
            match match_lit(s, i, &del_pre) {
                Some(i1) => {
                    match parse_str_exec(s, i1) {
                        Some((k, i2)) => {
                            match match_lit(s, i2, &rb) {
                                Some(i3) => Some((Entry::delete(k), i3)),
                                None => None,
                            }
                        },
                        None => None,
                    }
                },
                None => None,
            }
        },
    }
}

/// A one-byte vector holding the closing brace.
fn rbrace_vec() -> (v: Vec<u8>)
    ensures
        v@ == seq![125u8],
{
    let mut v: Vec<u8> = Vec::new();
    v.push(125);
    proof {
        assert(v@ =~= seq![125u8]);
    }
    v
}

/// Decode one WAL line: `Json` if the frame does not parse,
/// `InvalidChecksum` if it parses but the checksum does not match.
pub fn decode_wal_line(line: &Vec<u8>) -> (r: Result<Entry, crate::error::KvError>)
    ensures
        match r {
            Ok(e) => parse_wal_line_ok(line@) == Some((key_of(e), val_of(e))),
            Err(err) => parse_wal_line_ok(line@) is None && (err is InvalidChecksum
                <==> parse_wal_frame(line@) is Some) && !(err is Io),
        },
{
    let wal_pre = crate::codec::lit_vec_wal_prefix();
    let i1 = match match_lit(line, 0, &wal_pre) {
        Some(i1) => i1,
        None => {
            return Err(crate::error::KvError::Json);
        },
    };
    let (h, i2) = match crate::num::parse_dec(line, i1, 0xFFFFFFFF) {
        Some((h, i2)) => (h, i2),
        None => {
            return Err(crate::error::KvError::Json);
        },
    };
    proof {
        crate::num::lemma_parse_dec_sound(line@, i1 as nat, 0xFFFFFFFFu64, h, i2 as nat);
    }
    let mid = crate::codec::lit_vec_entry_mid();
    let i3 = match match_lit(line, i2, &mid) {
        Some(i3) => i3,
        None => {
            return Err(crate::error::KvError::Json);
        },
    };
    let (e, i4) = match parse_payload_exec(line, i3) {
        Some((e, i4)) => (e, i4),
        None => {
            return Err(crate::error::KvError::Json);
        },
    };
    let rb = rbrace_vec();
    let i5 = match match_lit(line, i4, &rb) {
        Some(i5) => i5,
        None => {
            return Err(crate::error::KvError::Json);
        },
    };
    if i5 != line.len() {
        return Err(crate::error::KvError::Json);
    }
    let payload = crate::codec::encode_payload(&e);
    let c = crate::checksum::crc32(&payload);
    if h == (c as u64) {
        Ok(e)
    } else {
        Err(crate::error::KvError::InvalidChecksum)
    }
}

/// Parse one SST record into an entry.
fn parse_sst_record_exec(s: &Vec<u8>, i: usize) -> (r: Option<(Entry, usize)>)
    requires
        i <= s@.len(),
    ensures
        match r {
            Some((e, j)) => parse_sst_record(s@, i as nat) == Some(
                ((key_of(e), val_of(e)), j as nat),
            ) && j <= s@.len(),
            None => parse_sst_record(s@, i as nat) is None,
        },
{
    let pre = crate::codec::lit_vec_sst_prefix();
    let i1 = match match_lit(s, i, &pre) {
        Some(i1) => i1,
        None => {
            return None;
        },
    };
    let (k, i2) = match parse_str_exec(s, i1) {
        Some((k, i2)) => (k, i2),
        None => {
            return None;
        },
    };
    let val_mid = crate::codec::lit_vec_val_mid();
    match match_lit(s, i2, &val_mid) {
        Some(i3) => {
            let (v, i4) = match crate::num::parse_dec(s, i3, 0xFFFFFFFF) {
                Some((v, i4)) => (v, i4),
                None => {
                    return None;
                },
            };
            proof {
                crate::num::lemma_parse_dec_sound(s@, i3 as nat, 0xFFFFFFFFu64, v, i4 as nat);
            }
            let rb = rbrace_vec();
            match match_lit(s, i4, &rb) {
                Some(i5) => Some((Entry::put(k, v as u32), i5)),
                None => None,
            }
        },
        None => {
            let tail = crate::codec::lit_vec_deleted_tail();
            match match_lit(s, i2, &tail) {
                Some(i3) => Some((Entry::delete(k), i3)),
                None => None,
            }
        },
    }
}

/// Parse the comma-separated records of an SST file, consuming the
/// closing bracket.
fn parse_records_exec(s: &Vec<u8>, i: usize) -> (r: Option<(Vec<Entry>, usize)>)
    requires
        i <= s@.len(),
    ensures
        match r {
            Some((es, j)) => parse_records(s@, i as nat) == Some(
                (models_of(es@), j as nat),
            ) && j <= s@.len(),
            None => parse_records(s@, i as nat) is None,
        },
    decreases s@.len() - i,
{
    let (e, j) = match parse_sst_record_exec(s, i) {
        Some((e, j)) => (e, j),
        None => {
            return None;
        },
    };
    if !(i < j && j < s.len()) {
        return None;
    }
    if s[j] == 93 {
        let mut es: Vec<Entry> = Vec::new();
        es.push(e);
        proof {
            assert(models_of(es@) =~= seq![(key_of(e), val_of(e))]);
        }
        Some((es, j + 1))
    } else if s[j] == 44 {
        match parse_records_exec(s, j + 1) {
            Some((rest0, j2)) => {
                let ghost rb = rest0@;
                let mut rest = rest0;
                rest.insert(0, e);
                proof {
                    assert(models_of(rest@) =~= seq![(key_of(e), val_of(e))] + models_of(
                        rb,
                    ));
                }
                Some((rest, j2))
            },
            None => None,
        }
    } else {
        None
    }
}

/// Parse a whole SST file into its entries.
pub fn parse_sst(s: &Vec<u8>) -> (r: Option<Vec<Entry>>)
    ensures
        match r {
            Some(es) => parse_sst_spec(s@) == Some(models_of(es@)),
            None => parse_sst_spec(s@) is None,
        },
{
    if s.len() < 2 {
        return None;
    }
    if s[0] != 91 {
        return None;
    }
    if s.len() == 2 && s[1] == 93 {
        let es: Vec<Entry> = Vec::new();
        proof {
            assert(models_of(es@) =~= Seq::<(Seq<u8>, Option<u32>)>::empty());
        }
        return Some(es);
    }
    match parse_records_exec(s, 1) {
        Some((es, j)) => {
            if j == s.len() {
                Some(es)
            } else {
                None
            }
        },
        None => None,
    }
}

/// Parse the manifest lines from position `i` on.
fn parse_manifest_rec_exec(s: &Vec<u8>, i: usize) -> (r: Option<(Vec<u64>, usize)>)
    requires
        i <= s@.len(),
    ensures
        match r {
            Some((ids, j)) => parse_manifest_rec(s@, i as nat) == Some((ids@, j as nat)),
            None => parse_manifest_rec(s@, i as nat) is None,
        },
    decreases s@.len() - i,
{
    let pre = crate::codec::lit_vec_path_prefix();
    let i1 = match match_lit(s, i, &pre) {
        Some(i1) => i1,
        None => {
            return None;
        },
    };
    let (id, i2) = match crate::num::parse_dec(s, i1, ID_LIMIT) {
        Some((id, i2)) => (id, i2),
        None => {
            return None;
        },
    };
    proof {
        crate::num::lemma_parse_dec_sound(s@, i1 as nat, ID_LIMIT, id, i2 as nat);
    }
    let suf = crate::codec::lit_vec_path_suffix();
    let i3 = match match_lit(s, i2, &suf) {
        Some(i3) => i3,
        None => {
            return None;
        },
    };
    if i3 == s.len() {
        let mut ids: Vec<u64> = Vec::new();
        ids.push(id);
        proof {
            assert(ids@ =~= seq![id]);
        }
        return Some((ids, i3));
    }
    if s[i3] == 10 {
        if i3 + 1 == s.len() {
            let mut ids: Vec<u64> = Vec::new();
            ids.push(id);
            proof {
                assert(ids@ =~= seq![id]);
            }
            return Some((ids, i3 + 1));
        }
        if i < i3 {
            match parse_manifest_rec_exec(s, i3 + 1) {
                Some((rest0, j)) => {
                    let ghost rb = rest0@;
                    let mut rest = rest0;
                    rest.insert(0, id);
                    proof {
                        assert(rest@ =~= seq![id] + rb);
                    }
                    Some((rest, j))
                },
                None => None,
            }
        } else {
            None
        }
    } else {
        None
    }
}

/// Parse a whole manifest into its SST ids, oldest first.
pub fn parse_manifest(s: &Vec<u8>) -> (r: Option<Vec<u64>>)
    ensures
        match r {
            Some(ids) => parse_manifest_spec(s@) == Some(ids@),
            None => parse_manifest_spec(s@) is None,
        },
{
    if s.len() == 0 {
        let ids: Vec<u64> = Vec::new();
        proof {
            assert(ids@ =~= Seq::<u64>::empty());
        }
        return Some(ids);
    }
    match parse_manifest_rec_exec(s, 0) {
        Some((ids, j)) => {
            if j == s.len() {
                Some(ids)
            } else {
                None
            }
        },
        None => None,
    }
}

proof fn lemma_replay_lines_blank(line: Seq<u8>, rest: Seq<Seq<u8>>)
    requires
        line.len() == 0,
    ensures
        replay_lines(seq![line] + rest) == replay_lines(rest),
{
    let lines = seq![line] + rest;
    assert(lines[0] == line);
    assert(lines.drop_first() =~= rest);
}

proof fn lemma_replay_lines_stop(line: Seq<u8>, rest: Seq<Seq<u8>>)
    requires
        line.len() > 0,
        parse_wal_line_ok(line) is None,
    ensures
        replay_lines(seq![line] + rest) == Seq::<(Seq<u8>, Option<u32>)>::empty(),
{
    let lines = seq![line] + rest;
    assert(lines[0] == line);
}

proof fn lemma_replay_lines_nil()
    ensures
        replay_lines(Seq::<Seq<u8>>::empty()) == Seq::<(Seq<u8>, Option<u32>)>::empty(),
{
}

/// Replay a WAL file: collect the entries of its longest validated prefix,
/// ignoring blank lines and stopping at the first torn or invalid record.
#[verifier::rlimit(100)]
#[verifier::spinoff_prover]
pub fn replay_wal(s: &Vec<u8>) -> (out: Vec<Entry>)
    ensures
        models_of(out@) == replay_spec(s@),
{
    let mut out: Vec<Entry> = Vec::new();
    let mut pos: usize = 0;
    let n = s.len();
    proof {
        assert(s@.len() == n);
        assert(s@.skip(0) =~= s@);
        assert(models_of(out@) =~= Seq::<(Seq<u8>, Option<u32>)>::empty());
    }
    while pos < s.len()
        invariant
            0 <= pos <= s@.len(),
            s@.len() <= usize::MAX,
            replay_spec(s@) == models_of(out@) + replay_lines(
                split_lines(s@.skip(pos as int)),
            ),
        decreases s@.len() - pos,
    {
        // find the end of the current line
        let mut j: usize = pos;
        while j < s.len() && s[j] != 10
            invariant
                pos <= j <= s@.len(),
                forall|m: int| pos <= m < j ==> #[trigger] s@[m] != 10,
            decreases s@.len() - j,
        {
            j = j + 1;
        }
        // copy the line out
        let mut line: Vec<u8> = Vec::new();
        let mut t: usize = pos;
        proof {
            assert(line@ =~= s@.subrange(pos as int, pos as int));
        }
        while t < j
            invariant
                pos <= t <= j <= s@.len(),
                line@ == s@.subrange(pos as int, t as int),
            decreases j - t,
        {
            line.push(s[t]);
            proof {
                assert(s@.subrange(pos as int, t + 1 as int) =~= s@.subrange(
                    pos as int,
                    t as int,
                ).push(s@[t as int]));
            }
            t = t + 1;
        }
        let ghost tail = split_lines(s@.skip(j + 1 as int));
        proof {
            if j < s@.len() {
                assert(s@.skip(pos as int) =~= line@ + seq![10u8] + s@.skip(j + 1 as int));
                lemma_split_cons(line@, s@.skip(j + 1 as int));
                assert(split_lines(s@.skip(pos as int)) == seq![line@] + tail);
            } else {
                let sk = s@.skip(pos as int);
                assert(sk =~= line@);
                assert(forall|m: int| 0 <= m < sk.len() ==> #[trigger] sk[m] != 10);
                lemma_nl_pos_at(sk, 0, sk.len() as nat);
                assert(split_lines(sk) == seq![sk]);
                assert(seq![sk] =~= seq![line@] + Seq::<Seq<u8>>::empty());
                lemma_replay_lines_nil();
            }
        }
        let ghost rest: Seq<Seq<u8>> = if j < s@.len() {
            tail
        } else {
            Seq::<Seq<u8>>::empty()
        };
        proof {
            assert(split_lines(s@.skip(pos as int)) == seq![line@] + rest);
        }
        if line.len() == 0 {
            proof {
                lemma_replay_lines_blank(line@, rest);
            }
            if j < s.len() {
                pos = j + 1;
                proof {
                    assert(replay_lines(rest) == replay_lines(
                        split_lines(s@.skip(pos as int)),
                    ));
                }
            } else {
                proof {
                    assert(models_of(out@) + Seq::<(Seq<u8>, Option<u32>)>::empty()
                        =~= models_of(out@));
                }
                return out;
            }
        } else {
            match decode_wal_line(&line) {
                Ok(e) => {
                    proof {
                        lemma_replay_lines_cons(line@, rest, (key_of(e), val_of(e)));
                    }
                    let ghost ob = out@;
                    out.push(e);
                    proof {
                        assert(models_of(out@) =~= models_of(ob) + seq![
                            (key_of(e), val_of(e)),
                        ]);
                        assert(models_of(ob) + (seq![(key_of(e), val_of(e))]
                            + replay_lines(rest)) =~= models_of(out@) + replay_lines(
                            rest,
                        ));
                    }
                    if j < s.len() {
                        pos = j + 1;
                    } else {
                        proof {
                            assert(replay_lines(rest) =~= Seq::<
                                (Seq<u8>, Option<u32>),
                            >::empty());
                            assert(models_of(out@) + Seq::<(Seq<u8>, Option<u32>)>::empty()
                                =~= models_of(out@));
                        }
                        return out;
                    }
                },
                Err(_) => {
                    proof {
                        lemma_replay_lines_stop(line@, rest);
                        assert(models_of(out@) + Seq::<(Seq<u8>, Option<u32>)>::empty()
                            =~= models_of(out@));
                    }
                    return out;
                },
            }
        }
    }
    proof {
        let sk = s@.skip(pos as int);
        assert(sk =~= Seq::<u8>::empty());
        assert(nl_pos(sk, 0) == 0);
        assert(split_lines(sk) == seq![sk]);
        lemma_replay_lines_nil();
        assert(seq![sk] =~= seq![sk] + Seq::<Seq<u8>>::empty());
        lemma_replay_lines_blank(sk, Seq::<Seq<u8>>::empty());
        assert(models_of(out@) + Seq::<(Seq<u8>, Option<u32>)>::empty() =~= models_of(
            out@,
        ));
    }
    out
}

// ---------------------------------------------------------------------------
// Torn-tail tolerance at byte granularity: a truncated trailing record is
// never mistaken for a valid one, because the frame parser accepts no
// proper prefix of a line it accepts.
// ---------------------------------------------------------------------------
proof fn lemma_lit_prefix(s1: Seq<u8>, s2: Seq<u8>, i: nat, lit: Seq<u8>)
    requires
        s1 == s2.take(s1.len() as int),
        s1.len() <= s2.len(),
        parse_lit(s1, i, lit) is Some,
    ensures
        parse_lit(s2, i, lit) == parse_lit(s1, i, lit),
{
    assert(s2.subrange(i as int, i + lit.len() as int) =~= s1.subrange(
        i as int,
        i + lit.len() as int,
    ));
}

proof fn lemma_dec_prefix(s1: Seq<u8>, s2: Seq<u8>, i: nat, max: u64, v: u64, j: nat)
    requires
        s1 == s2.take(s1.len() as int),
        s1.len() <= s2.len(),
        i <= s1.len(),
        parse_dec_spec(s1, i, max) == Some((v, j)),
        j < s1.len(),
    ensures
        parse_dec_spec(s2, i, max) == Some((v, j)),
{
    crate::num::lemma_digit_run_props(s1, i);
    let j1 = crate::num::digit_run_end(s1, i);
    assert(j1 == j);
    assert forall|m: int| 0 <= m < s1.len() implies #[trigger] s2[m] == s1[m] by {
        assert(s1[m] == s2.take(s1.len() as int)[m]);
    }
    assert(forall|m: int| i <= m < j ==> crate::num::is_digit(#[trigger] s2[m]));
    assert(!crate::num::is_digit(s2[j as int])) by {
        assert(s2[j as int] == s1[j as int]);
    }
    crate::num::lemma_digit_run_end(s2, i, j);
    assert(s2.subrange(i as int, j as int) =~= s1.subrange(i as int, j as int));
    assert(s2[i as int] == s1[i as int]);
}

proof fn lemma_str_prefix(s1: Seq<u8>, s2: Seq<u8>, i: nat)
    requires
        s1 == s2.take(s1.len() as int),
        s1.len() <= s2.len(),
        parse_str(s1, i) is Some,
    ensures
        parse_str(s2, i) == parse_str(s1, i),
    decreases s1.len() - i,
{
    assert(i < s1.len());
    assert(s2[i as int] == s1[i as int]);
    if s1[i as int] == 34 {
    } else if s1[i as int] == 92 {
        assert(i + 1 < s1.len());
        assert(s2[(i + 1) as int] == s1[(i + 1) as int]);
        lemma_str_prefix(s1, s2, i + 2);
    } else {
        lemma_str_prefix(s1, s2, i + 1);
    }
}

proof fn lemma_payload_prefix(s1: Seq<u8>, s2: Seq<u8>, i: nat)
    requires
        s1 == s2.take(s1.len() as int),
        s1.len() <= s2.len(),
        parse_payload(s1, i) is Some,
    ensures
        parse_payload(s2, i) == parse_payload(s1, i),
{
    if parse_lit(s1, i, lit_put_prefix()) is Some {
        lemma_lit_prefix(s1, s2, i, lit_put_prefix());
        let i1 = (i + lit_put_prefix().len()) as nat;
        let (k, i2) = parse_str(s1, i1).unwrap();
        lemma_str_prefix(s1, s2, i1);
        lemma_parse_str_sound(s1, i1);
        lemma_lit_prefix(s1, s2, i2, lit_val_mid());
        let i3 = (i2 + lit_val_mid().len()) as nat;
        let (v, i4) = parse_dec_spec(s1, i3, 0xFFFFFFFFu64).unwrap();
        // the closing brace after the digits keeps the run inside s1
        assert(i4 + 1 <= s1.len());
        lemma_dec_prefix(s1, s2, i3, 0xFFFFFFFFu64, v, i4);
        lemma_lit_prefix(s1, s2, i4, seq![125u8]);
    } else {
        // the put fragment also fails on the extension: were it to match
        // there, its bytes would already sit inside s1
        assert(parse_lit(s2, i, lit_put_prefix()) is None) by {
            if parse_lit(s2, i, lit_put_prefix()) is Some {
                if i + lit_put_prefix().len() <= s1.len() {
                    assert(s1.subrange(i as int, i + lit_put_prefix().len() as int)
                        =~= s2.subrange(i as int, i + lit_put_prefix().len() as int));
                } else {
                    // s1 ends inside the fragment, so the delete branch of
                    // s1 cannot have succeeded either: its fragment is
                    // longer and shares the first seven bytes
                    if parse_lit(s1, i, lit_del_prefix()) is Some {
                        assert(i + lit_del_prefix().len() <= s1.len());
                        assert(s1.subrange(i as int, i + lit_del_prefix().len() as int)[7]
                            == s1[i + 7 as int]);
                        assert(s1[i + 7 as int] == lit_del_prefix()[7]);
                        assert(s2.subrange(i as int, i + lit_put_prefix().len() as int)[7]
                            == s2[i + 7 as int]);
                        assert(s2[i + 7 as int] == lit_put_prefix()[7]);
                        assert(s2[i + 7 as int] == s1[i + 7 as int]);
                    }
                }
            }
        }
        if parse_lit(s1, i, lit_del_prefix()) is Some {
            lemma_lit_prefix(s1, s2, i, lit_del_prefix());
            let i1 = (i + lit_del_prefix().len()) as nat;
            lemma_str_prefix(s1, s2, i1);
            let (k, i2) = parse_str(s1, i1).unwrap();
            lemma_lit_prefix(s1, s2, i2, seq![125u8]);
        }
    }
}

/// No proper prefix of an accepted WAL line is itself accepted.
pub proof fn lemma_frame_prefix_free(s1: Seq<u8>, s2: Seq<u8>)
    requires
        s1 == s2.take(s1.len() as int),
        s1.len() < s2.len(),
        parse_wal_frame(s2) is Some,
    ensures
        parse_wal_frame(s1) is None,
{
    if parse_wal_frame(s1) is Some {
        let i1 = lit_wal_prefix().len() as nat;
        lemma_lit_prefix(s1, s2, 0, lit_wal_prefix());
        let (h, i2) = parse_dec_spec(s1, i1, 0xFFFFFFFFu64).unwrap();
        assert(i2 + lit_entry_mid().len() <= s1.len());
        lemma_dec_prefix(s1, s2, i1, 0xFFFFFFFFu64, h, i2);
        lemma_lit_prefix(s1, s2, i2, lit_entry_mid());
        let i3 = (i2 + lit_entry_mid().len()) as nat;
        let ((k, v), i4) = parse_payload(s1, i3).unwrap();
        lemma_payload_prefix(s1, s2, i3);
        lemma_lit_prefix(s1, s2, i4, seq![125u8]);
        let i5 = (i4 + 1) as nat;
        assert(i5 == s1.len());
        assert(i5 == s2.len());
    }
}

/// How many records of the log survive truncation to `c` bytes: the
/// records whose whole line content lies within the cut.
pub open spec fn torn_count(es: Seq<Entry>, c: int) -> int
    decreases es.len(),
{
    if es.len() == 0 {
        0
    } else {
        let l = enc_wal_line_of(es[0]).len() as int;
        if c >= l + 1 {
            1 + torn_count(es.drop_first(), c - l - 1)
        } else if c >= l {
            1
        } else {
            0
        }
    }
}

/// Replaying a single line cut at `c` bytes: only the full line counts.
#[verifier::rlimit(100)]
#[verifier::spinoff_prover]
proof fn lemma_replay_line_cut(kk: Seq<u8>, vv: Option<u32>, c: int)
    requires
        0 <= c <= enc_wal_line(kk, vv).len(),
    ensures
        replay_spec(enc_wal_line(kk, vv).take(c)) == if c == enc_wal_line(kk, vv).len() {
            seq![(kk, vv)]
        } else {
            Seq::<(Seq<u8>, Option<u32>)>::empty()
        },
{
    let line = enc_wal_line(kk, vv);
    let torn = line.take(c);
    lemma_wal_line_no_nl(kk, vv);
    lemma_parse_wal_line_complete(kk, vv);
    assert(forall|m: int| 0 <= m < torn.len() ==> #[trigger] torn[m] != 10) by {
        assert(forall|m: int| 0 <= m < c ==> torn[m] == #[trigger] line[m]);
    }
    lemma_nl_pos_at(torn, 0, torn.len() as nat);
    assert(split_lines(torn) == seq![torn]);
    assert(seq![torn].drop_first() =~= Seq::<Seq<u8>>::empty());
    assert(replay_lines(Seq::<Seq<u8>>::empty()) == Seq::<(Seq<u8>, Option<u32>)>::empty());
    if c == line.len() {
        assert(torn =~= line);
        assert(replay_lines(seq![torn]) == seq![(kk, vv)] + Seq::<
            (Seq<u8>, Option<u32>),
        >::empty());
        assert(seq![(kk, vv)] + Seq::<(Seq<u8>, Option<u32>)>::empty() =~= seq![(kk, vv)]);
    } else if c == 0 {
        assert(torn.len() == 0);
    } else {
        assert(parse_wal_line_ok(torn) is None) by {
            if parse_wal_line_ok(torn) is Some {
                assert(parse_wal_frame(torn) is Some);
                assert(parse_wal_frame(line) is Some);
                assert(torn == line.take(c));
                lemma_frame_prefix_free(torn, line);
            }
        }
        assert(replay_lines(seq![torn]) == Seq::<(Seq<u8>, Option<u32>)>::empty());
    }
}

proof fn lemma_replay_empty()
    ensures
        replay_spec(Seq::<u8>::empty()) == Seq::<(Seq<u8>, Option<u32>)>::empty(),
{
    assert(nl_pos(Seq::<u8>::empty(), 0) == 0);
    assert(split_lines(Seq::<u8>::empty()) =~= seq![Seq::<u8>::empty()]);
    assert(seq![Seq::<u8>::empty()].drop_first() =~= Seq::<Seq<u8>>::empty());
    assert(seq![Seq::<u8>::empty()][0].len() == 0);
    assert(replay_lines(Seq::<Seq<u8>>::empty()) == Seq::<(Seq<u8>, Option<u32>)>::empty());
    assert(replay_lines(seq![Seq::<u8>::empty()]) == Seq::<(Seq<u8>, Option<u32>)>::empty());
}

/// The head case of the torn-tail induction: the cut falls inside or at
/// the end of the first line.
#[verifier::rlimit(100)]
#[verifier::spinoff_prover]
proof fn lemma_torn_tail_head(es: Seq<Entry>, c: int)
    requires
        es.len() > 0,
        0 <= c <= enc_wal_line_of(es[0]).len(),
        c <= enc_wal(es).len(),
    ensures
        replay_spec(enc_wal(es).take(c)) == models_of(es).take(torn_count(es, c)),
        0 <= torn_count(es, c) <= es.len(),
{
    let e0 = es[0];
    let kk = key_of(e0);
    let vv = val_of(e0);
    let line = enc_wal_line(kk, vv);
    let l = line.len() as int;
    assert(enc_wal_line_of(e0) == line);
    assert(enc_wal(es) == line + seq![10u8] + enc_wal(es.drop_first()));
    assert(enc_wal(es).take(c) =~= line.take(c));
    lemma_replay_line_cut(kk, vv, c);
    if c == l {
        assert(torn_count(es, c) == 1);
        assert(models_of(es).take(1) =~= seq![(kk, vv)]);
    } else {
        assert(torn_count(es, c) == 0);
        assert(models_of(es).take(0) =~= Seq::<(Seq<u8>, Option<u32>)>::empty());
    }
}

/// The step case: the cut lies past the first line and its newline.
#[verifier::rlimit(100)]
#[verifier::spinoff_prover]
proof fn lemma_torn_tail_cons(es: Seq<Entry>, c: int)
    requires
        es.len() > 0,
        enc_wal_line_of(es[0]).len() + 1 <= c <= enc_wal(es).len(),
        ({
            let c2 = c - enc_wal_line_of(es[0]).len() - 1;
            &&& replay_spec(enc_wal(es.drop_first()).take(c2)) == models_of(
                es.drop_first(),
            ).take(torn_count(es.drop_first(), c2))
            &&& 0 <= torn_count(es.drop_first(), c2) <= es.drop_first().len()
        }),
    ensures
        replay_spec(enc_wal(es).take(c)) == models_of(es).take(torn_count(es, c)),
        0 <= torn_count(es, c) <= es.len(),
{
    let e0 = es[0];
    let kk = key_of(e0);
    let vv = val_of(e0);
    let line = enc_wal_line(kk, vv);
    let l = line.len() as int;
    let rest = es.drop_first();
    let c2 = c - l - 1;
    assert(enc_wal_line_of(e0) == line);
    assert(enc_wal(es) == line + seq![10u8] + enc_wal(rest));
    assert(enc_wal(es).take(c) =~= line + seq![10u8] + enc_wal(rest).take(c2));
    lemma_replay_step(e0, enc_wal(rest).take(c2));
    assert(torn_count(es, c) == 1 + torn_count(rest, c2));
    assert(seq![(kk, vv)] + models_of(rest).take(torn_count(rest, c2)) =~= models_of(
        es,
    ).take(1 + torn_count(rest, c2)));
}

/// Torn-tail tolerance, at any byte offset: replaying a log truncated to
/// `c` bytes yields exactly the records whose lines the cut left intact.
/// A record torn in the middle is discarded, never misread.
pub proof fn lemma_torn_tail_bytes(es: Seq<Entry>, c: int)
    requires
        0 <= c <= enc_wal(es).len(),
    ensures
        0 <= torn_count(es, c) <= es.len(),
        replay_spec(enc_wal(es).take(c)) == models_of(es).take(torn_count(es, c)),
    decreases es.len(),
{
    if es.len() == 0 {
        assert(enc_wal(es).len() == 0);
        assert(enc_wal(es).take(c) =~= Seq::<u8>::empty());
        lemma_replay_empty();
        assert(models_of(es).take(0) =~= Seq::<(Seq<u8>, Option<u32>)>::empty());
    } else if c <= enc_wal_line_of(es[0]).len() {
        lemma_torn_tail_head(es, c);
    } else {
        assert(enc_wal(es) == enc_wal_line_of(es[0]) + seq![10u8] + enc_wal(
            es.drop_first(),
        ));
        lemma_torn_tail_bytes(es.drop_first(), c - enc_wal_line_of(es[0]).len() - 1);
        lemma_torn_tail_cons(es, c);
    }
}

} // verus!
