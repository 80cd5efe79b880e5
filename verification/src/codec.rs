//! On-disk record formats: the JSON-shaped WAL record, the SST record
//! stream, the manifest line format and SST path names.
//!
//! Every encoder has a spec-level twin; the parsers in `parse` accept
//! exactly the canonical encodings.

use crate::checksum::crc32_spec;
use crate::checksum::crc32;
use crate::num::dec_spec;
use crate::num::u64_to_dec;
use crate::wal::Entry;
use crate::wal::key_of;
use crate::wal::val_of;
use vstd::prelude::*;

verus! {

// Fixed fragments of the record grammar, as byte strings.
/// `{"hash":`
pub open spec fn lit_wal_prefix() -> Seq<u8> {
    seq![123, 34, 104, 97, 115, 104, 34, 58]
}

/// `,"entry":`
pub open spec fn lit_entry_mid() -> Seq<u8> {
    seq![44, 34, 101, 110, 116, 114, 121, 34, 58]
}

/// `{"op":"put","key":"`
pub open spec fn lit_put_prefix() -> Seq<u8> {
    seq![123, 34, 111, 112, 34, 58, 34, 112, 117, 116, 34, 44, 34, 107, 101, 121, 34, 58, 34]
}

/// `{"op":"delete","key":"`
pub open spec fn lit_del_prefix() -> Seq<u8> {
    seq![
        123, 34, 111, 112, 34, 58, 34, 100, 101, 108, 101, 116, 101, 34, 44, 34, 107, 101,
        121, 34, 58, 34,
    ]
}

/// `,"value":`
pub open spec fn lit_val_mid() -> Seq<u8> {
    seq![44, 34, 118, 97, 108, 117, 101, 34, 58]
}

/// `{"key":"`
pub open spec fn lit_sst_prefix() -> Seq<u8> {
    seq![123, 34, 107, 101, 121, 34, 58, 34]
}

/// `,"deleted":true}`
pub open spec fn lit_deleted_tail() -> Seq<u8> {
    seq![44, 34, 100, 101, 108, 101, 116, 101, 100, 34, 58, 116, 114, 117, 101, 125]
}

/// `data/sst/sst-`
pub open spec fn lit_path_prefix() -> Seq<u8> {
    seq![100, 97, 116, 97, 47, 115, 115, 116, 47, 115, 115, 116, 45]
}

/// `.json`
pub open spec fn lit_path_suffix() -> Seq<u8> {
    seq![46, 106, 115, 111, 110]
}

/// JSON escape of a single key byte.
pub open spec fn esc_byte(b: u8) -> Seq<u8> {
    if b == 34 {
        seq![92, 34]
    } else if b == 92 {
        seq![92, 92]
    } else if b == 10 {
        seq![92, 110]
    } else if b == 13 {
        seq![92, 114]
    } else if b == 9 {
        seq![92, 116]
    } else {
        seq![b]
    }
}

/// JSON escape of a key. Control bytes other than newline, carriage return
/// and tab pass through unchanged: keys are opaque byte strings, so a key
/// holding such a byte yields a record that is not strict JSON; the
/// parser accepts exactly what this writer emits, which keeps the store
/// self-consistent.
pub open spec fn esc(s: Seq<u8>) -> Seq<u8>
    decreases s.len(),
{
    if s.len() == 0 {
        Seq::empty()
    } else {
        esc_byte(s[0]) + esc(s.drop_first())
    }
}

pub proof fn lemma_esc_append(a: Seq<u8>, b: Seq<u8>)
    ensures
        esc(a + b) == esc(a) + esc(b),
    decreases a.len(),
{
    if a.len() == 0 {
        assert(a + b =~= b);
        assert(esc(a) + esc(b) =~= esc(b));
    } else {
        assert((a + b).drop_first() =~= a.drop_first() + b);
        assert((a + b)[0] == a[0]);
        lemma_esc_append(a.drop_first(), b);
        assert(esc_byte(a[0]) + (esc(a.drop_first()) + esc(b)) =~= (esc_byte(a[0]) + esc(
            a.drop_first(),
        )) + esc(b));
    }
}

pub proof fn lemma_esc_push(s: Seq<u8>, b: u8)
    ensures
        esc(s.push(b)) == esc(s) + esc_byte(b),
{
    assert(s.push(b) =~= s + seq![b]);
    lemma_esc_append(s, seq![b]);
    assert(seq![b].drop_first() =~= Seq::<u8>::empty());
    assert(esc(Seq::<u8>::empty()) == Seq::<u8>::empty());
    assert(esc(seq![b]) == esc_byte(seq![b][0]) + esc(seq![b].drop_first()));
    assert(esc_byte(b) + Seq::<u8>::empty() =~= esc_byte(b));
    assert(esc(seq![b]) =~= esc_byte(b));
}

/// The entry payload that is checksummed and logged:
/// `{"op":"put","key":"K","value":V}` or `{"op":"delete","key":"K"}`.
pub open spec fn enc_payload(k: Seq<u8>, v: Option<u32>) -> Seq<u8> {
    match v {
        Some(val) => lit_put_prefix() + esc(k) + seq![34u8] + lit_val_mid() + dec_spec(
            val as nat,
        ) + seq![125u8],
        None => lit_del_prefix() + esc(k) + seq![34u8] + seq![125u8],
    }
}

/// A full WAL record line (without the trailing newline):
/// `{"hash":C,"entry":P}` where `C` is the CRC-32 of the payload `P`.
pub open spec fn enc_wal_line(k: Seq<u8>, v: Option<u32>) -> Seq<u8> {
    lit_wal_prefix() + dec_spec(crc32_spec(enc_payload(k, v)) as nat) + lit_entry_mid()
        + enc_payload(k, v) + seq![125u8]
}

pub open spec fn enc_wal_line_of(e: Entry) -> Seq<u8> {
    enc_wal_line(key_of(e), val_of(e))
}

/// The WAL file: one record per line.
pub open spec fn enc_wal(s: Seq<Entry>) -> Seq<u8>
    decreases s.len(),
{
    if s.len() == 0 {
        Seq::empty()
    } else {
        enc_wal_line_of(s[0]) + seq![10u8] + enc_wal(s.drop_first())
    }
}

/// One SST record:
/// `{"key":"K","value":V}` or `{"key":"K","deleted":true}`.
pub open spec fn enc_sst_record(k: Seq<u8>, v: Option<u32>) -> Seq<u8> {
    match v {
        Some(val) => lit_sst_prefix() + esc(k) + seq![34u8] + lit_val_mid() + dec_spec(
            val as nat,
        ) + seq![125u8],
        None => lit_sst_prefix() + esc(k) + seq![34u8] + lit_deleted_tail(),
    }
}

pub open spec fn enc_sst_record_of(e: Entry) -> Seq<u8> {
    enc_sst_record(key_of(e), val_of(e))
}

/// Comma-separated SST records.
pub open spec fn enc_records(s: Seq<Entry>) -> Seq<u8>
    decreases s.len(),
{
    if s.len() == 0 {
        Seq::empty()
    } else if s.len() == 1 {
        enc_sst_record_of(s[0])
    } else {
        enc_sst_record_of(s[0]) + seq![44u8] + enc_records(s.drop_first())
    }
}

/// A whole SST file: a JSON array of records sorted by key.
pub open spec fn enc_sst(s: Seq<Entry>) -> Seq<u8> {
    seq![91u8] + enc_records(s) + seq![93u8]
}

pub proof fn lemma_enc_records_push(s: Seq<Entry>, e: Entry)
    ensures
        s.len() == 0 ==> enc_records(s.push(e)) == enc_sst_record_of(e),
        s.len() > 0 ==> enc_records(s.push(e)) == enc_records(s) + seq![44u8]
            + enc_sst_record_of(e),
    decreases s.len(),
{
    if s.len() == 0 {
        assert(s.push(e)[0] == e);
        assert(s.push(e).len() == 1);
    } else {
        assert(s.push(e)[0] == s[0]);
        assert(s.push(e).drop_first() =~= s.drop_first().push(e));
        lemma_enc_records_push(s.drop_first(), e);
        if s.len() == 1 {
            assert(enc_records(s) == enc_sst_record_of(s[0]));
            assert(enc_sst_record_of(s[0]) + seq![44u8] + enc_sst_record_of(e)
                =~= enc_sst_record_of(s[0]) + (seq![44u8] + enc_sst_record_of(e)));
            assert(enc_records(s.push(e)) == enc_sst_record_of(s[0]) + seq![44u8]
                + enc_records(s.drop_first().push(e)));
            assert(enc_records(s.drop_first().push(e)) == enc_sst_record_of(e));
        } else {
            assert(enc_sst_record_of(s[0]) + seq![44u8] + (enc_records(s.drop_first())
                + seq![44u8] + enc_sst_record_of(e)) =~= (enc_sst_record_of(s[0])
                + seq![44u8] + enc_records(s.drop_first())) + seq![44u8]
                + enc_sst_record_of(e));
        }
    }
}

/// The path of the SST with the given id: `data/sst/sst-<id>.json`.
pub open spec fn path_spec(id: u64) -> Seq<u8> {
    lit_path_prefix() + dec_spec(id as nat) + lit_path_suffix()
}

/// The manifest: SST paths oldest first, one per line, no trailing newline.
pub open spec fn enc_manifest(ids: Seq<u64>) -> Seq<u8>
    decreases ids.len(),
{
    if ids.len() == 0 {
        Seq::empty()
    } else if ids.len() == 1 {
        path_spec(ids[0])
    } else {
        path_spec(ids[0]) + seq![10u8] + enc_manifest(ids.drop_first())
    }
}

pub proof fn lemma_enc_manifest_push(ids: Seq<u64>, id: u64)
    ensures
        ids.len() == 0 ==> enc_manifest(ids.push(id)) == path_spec(id),
        ids.len() > 0 ==> enc_manifest(ids.push(id)) == enc_manifest(ids) + seq![10u8]
            + path_spec(id),
    decreases ids.len(),
{
    if ids.len() == 0 {
        assert(ids.push(id)[0] == id);
        assert(ids.push(id).len() == 1);
    } else {
        assert(ids.push(id)[0] == ids[0]);
        assert(ids.push(id).drop_first() =~= ids.drop_first().push(id));
        lemma_enc_manifest_push(ids.drop_first(), id);
        if ids.len() == 1 {
            assert(path_spec(ids[0]) + seq![44u8].update(0, 10u8) =~= path_spec(ids[0])
                + seq![10u8]);
            assert(enc_manifest(ids.drop_first().push(id)) == path_spec(id));
            assert(path_spec(ids[0]) + seq![10u8] + path_spec(id) =~= path_spec(ids[0]) + (
            seq![10u8] + path_spec(id)));
        } else {
            assert(path_spec(ids[0]) + seq![10u8] + (enc_manifest(ids.drop_first())
                + seq![10u8] + path_spec(id)) =~= (path_spec(ids[0]) + seq![10u8]
                + enc_manifest(ids.drop_first())) + seq![10u8] + path_spec(id));
        }
    }
}

// ---------------------------------------------------------------------------
// Exec encoders.
// ---------------------------------------------------------------------------
/// Append one escaped key byte.
fn push_esc_byte(out: &mut Vec<u8>, b: u8)
    ensures
        final(out)@ == old(out)@ + esc_byte(b),
{
    if b == 34 {
        out.push(92);
        out.push(34);
    } else if b == 92 {
        out.push(92);
        out.push(92);
    } else if b == 10 {
        out.push(92);
        out.push(110);
    } else if b == 13 {
        out.push(92);
        out.push(114);
    } else if b == 9 {
        out.push(92);
        out.push(116);
    } else {
        out.push(b);
    }
    proof {
        assert(out@ =~= old(out)@ + esc_byte(b));
    }
}

/// Append the escaped form of a key.
fn push_esc(out: &mut Vec<u8>, k: &Vec<u8>)
    ensures
        final(out)@ == old(out)@ + esc(k@),
{
    let mut i: usize = 0;
    proof {
        assert(k@.take(0) =~= Seq::<u8>::empty());
        assert(out@ =~= out@ + esc(k@.take(0)));
    }
    while i < k.len()
        invariant
            0 <= i <= k@.len(),
            out@ == old(out)@ + esc(k@.take(i as int)),
        decreases k@.len() - i,
    {
        push_esc_byte(out, k[i]);
        proof {
            assert(k@.take(i + 1) =~= k@.take(i as int).push(k@[i as int]));
            lemma_esc_push(k@.take(i as int), k@[i as int]);
            assert((old(out)@ + esc(k@.take(i as int))) + esc_byte(k@[i as int]) =~= old(
                out,
            )@ + (esc(k@.take(i as int)) + esc_byte(k@[i as int])));
        }
        i = i + 1;
    }
    proof {
        assert(k@.take(k@.len() as int) =~= k@);
    }
}

fn push_lit_wal_prefix(out: &mut Vec<u8>)
    ensures
        final(out)@ == old(out)@ + lit_wal_prefix(),
{
    out.push(123);
    out.push(34);
    out.push(104);
    out.push(97);
    out.push(115);
    out.push(104);
    out.push(34);
    out.push(58);
    proof {
        assert(out@ =~= old(out)@ + lit_wal_prefix());
    }
}

fn push_lit_entry_mid(out: &mut Vec<u8>)
    ensures
        final(out)@ == old(out)@ + lit_entry_mid(),
{
    out.push(44);
    out.push(34);
    out.push(101);
    out.push(110);
    out.push(116);
    out.push(114);
    out.push(121);
    out.push(34);
    out.push(58);
    proof {
        assert(out@ =~= old(out)@ + lit_entry_mid());
    }
}

fn push_lit_put_prefix(out: &mut Vec<u8>)
    ensures
        final(out)@ == old(out)@ + lit_put_prefix(),
{
    out.push(123);
    out.push(34);
    out.push(111);
    out.push(112);
    out.push(34);
    out.push(58);
    out.push(34);
    out.push(112);
    out.push(117);
    out.push(116);
    out.push(34);
    out.push(44);
    out.push(34);
    out.push(107);
    out.push(101);
    out.push(121);
    out.push(34);
    out.push(58);
    out.push(34);
    proof {
        assert(out@ =~= old(out)@ + lit_put_prefix());
    }
}

fn push_lit_del_prefix(out: &mut Vec<u8>)
    ensures
        final(out)@ == old(out)@ + lit_del_prefix(),
{
    out.push(123);
    out.push(34);
    out.push(111);
    out.push(112);
    out.push(34);
    out.push(58);
    out.push(34);
    out.push(100);
    out.push(101);
    out.push(108);
    out.push(101);
    out.push(116);
    out.push(101);
    out.push(34);
    out.push(44);
    out.push(34);
    out.push(107);
    out.push(101);
    out.push(121);
    out.push(34);
    out.push(58);
    out.push(34);
    proof {
        assert(out@ =~= old(out)@ + lit_del_prefix());
    }
}

fn push_lit_val_mid(out: &mut Vec<u8>)
    ensures
        final(out)@ == old(out)@ + lit_val_mid(),
{
    out.push(44);
    out.push(34);
    out.push(118);
    out.push(97);
    out.push(108);
    out.push(117);
    out.push(101);
    out.push(34);
    out.push(58);
    proof {
        assert(out@ =~= old(out)@ + lit_val_mid());
    }
}

fn push_lit_sst_prefix(out: &mut Vec<u8>)
    ensures
        final(out)@ == old(out)@ + lit_sst_prefix(),
{
    out.push(123);
    out.push(34);
    out.push(107);
    out.push(101);
    out.push(121);
    out.push(34);
    out.push(58);
    out.push(34);
    proof {
        assert(out@ =~= old(out)@ + lit_sst_prefix());
    }
}

fn push_lit_deleted_tail(out: &mut Vec<u8>)
    ensures
        final(out)@ == old(out)@ + lit_deleted_tail(),
{
    out.push(44);
    out.push(34);
    out.push(100);
    out.push(101);
    out.push(108);
    out.push(101);
    out.push(116);
    out.push(101);
    out.push(100);
    out.push(34);
    out.push(58);
    out.push(116);
    out.push(114);
    out.push(117);
    out.push(101);
    out.push(125);
    proof {
        assert(out@ =~= old(out)@ + lit_deleted_tail());
    }
}

fn push_lit_path_prefix(out: &mut Vec<u8>)
    ensures
        final(out)@ == old(out)@ + lit_path_prefix(),
{
    out.push(100);
    out.push(97);
    out.push(116);
    out.push(97);
    out.push(47);
    out.push(115);
    out.push(115);
    out.push(116);
    out.push(47);
    out.push(115);
    out.push(115);
    out.push(116);
    out.push(45);
    proof {
        assert(out@ =~= old(out)@ + lit_path_prefix());
    }
}

fn push_lit_path_suffix(out: &mut Vec<u8>)
    ensures
        final(out)@ == old(out)@ + lit_path_suffix(),
{
    out.push(46);
    out.push(106);
    out.push(115);
    out.push(111);
    out.push(110);
    proof {
        assert(out@ =~= old(out)@ + lit_path_suffix());
    }
}

/// Append the canonical decimal digits of `n`.
fn push_dec(out: &mut Vec<u8>, n: u64)
    ensures
        final(out)@ == old(out)@ + dec_spec(n as nat),
{
    let mut digits = u64_to_dec(n);
    out.append(&mut digits);
}

/// Encode the checksummed entry payload.
pub fn encode_payload(e: &Entry) -> (out: Vec<u8>)
    ensures
        out@ == enc_payload(key_of(*e), val_of(*e)),
{
    let mut out: Vec<u8> = Vec::new();
    proof {
        assert(out@ =~= Seq::<u8>::empty());
    }
    match e {
        Entry::Put(r) => {
            push_lit_put_prefix(&mut out);
            push_esc(&mut out, &r.key);
            out.push(34);
            push_lit_val_mid(&mut out);
            push_dec(&mut out, r.value as u64);
            out.push(125);
            proof {
                assert(out@ =~= enc_payload(key_of(*e), val_of(*e)));
            }
        },
        Entry::Delete { key } => {
            push_lit_del_prefix(&mut out);
            push_esc(&mut out, key);
            out.push(34);
            out.push(125);
            proof {
                assert(out@ =~= enc_payload(key_of(*e), val_of(*e)));
            }
        },
    }
    out
}

/// Encode a full WAL record line, including the trailing newline.
pub fn encode_wal_line(e: &Entry) -> (out: Vec<u8>)
    ensures
        out@ == enc_wal_line_of(*e) + seq![10u8],
{
    let payload = encode_payload(e);
    let hash = crc32(&payload);
    let mut out: Vec<u8> = Vec::new();
    proof {
        assert(out@ =~= Seq::<u8>::empty());
    }
    push_lit_wal_prefix(&mut out);
    push_dec(&mut out, hash as u64);
    push_lit_entry_mid(&mut out);
    let mut payload = payload;
    out.append(&mut payload);
    out.push(125);
    out.push(10);
    proof {
        assert(out@ =~= enc_wal_line_of(*e) + seq![10u8]);
    }
    out
}

/// Encode one SST record.
fn push_sst_record(out: &mut Vec<u8>, e: &Entry)
    ensures
        final(out)@ == old(out)@ + enc_sst_record_of(*e),
{
    match e {
        Entry::Put(r) => {
            push_lit_sst_prefix(out);
            push_esc(out, &r.key);
            out.push(34);
            push_lit_val_mid(out);
            push_dec(out, r.value as u64);
            out.push(125);
            proof {
                assert(out@ =~= old(out)@ + enc_sst_record_of(*e));
            }
        },
        Entry::Delete { key } => {
            push_lit_sst_prefix(out);
            push_esc(out, key);
            out.push(34);
            push_lit_deleted_tail(out);
            proof {
                assert(out@ =~= old(out)@ + enc_sst_record_of(*e));
            }
        },
    }
}

/// Encode a whole SST file.
pub fn encode_sst(entries: &Vec<Entry>) -> (out: Vec<u8>)
    ensures
        out@ == enc_sst(entries@),
{
    let mut out: Vec<u8> = Vec::new();
    out.push(91);
    let mut i: usize = 0;
    proof {
        assert(entries@.take(0) =~= Seq::<Entry>::empty());
        assert(out@ =~= seq![91u8] + enc_records(entries@.take(0)));
    }
    while i < entries.len()
        invariant
            0 <= i <= entries@.len(),
            out@ == seq![91u8] + enc_records(entries@.take(i as int)),
        decreases entries@.len() - i,
    {
        if i > 0 {
            out.push(44);
        }
        push_sst_record(&mut out, &entries[i]);
        proof {
            assert(entries@.take(i + 1) =~= entries@.take(i as int).push(
                entries@[i as int],
            ));
            lemma_enc_records_push(entries@.take(i as int), entries@[i as int]);
            if i > 0 {
                assert(out@ =~= seq![91u8] + enc_records(entries@.take(i + 1)));
            } else {
                assert(out@ =~= seq![91u8] + enc_records(entries@.take(i + 1)));
            }
        }
        i = i + 1;
    }
    out.push(93);
    proof {
        assert(entries@.take(entries@.len() as int) =~= entries@);
        assert(out@ =~= enc_sst(entries@));
    }
    out
}

/// The path of the SST with the given id.
pub fn path_of(id: u64) -> (out: Vec<u8>)
    ensures
        out@ == path_spec(id),
{
    let mut out: Vec<u8> = Vec::new();
    proof {
        assert(out@ =~= Seq::<u8>::empty());
    }
    push_lit_path_prefix(&mut out);
    push_dec(&mut out, id);
    push_lit_path_suffix(&mut out);
    proof {
        assert(out@ =~= path_spec(id));
    }
    out
}

/// Encode the manifest for the given SST ids.
pub fn encode_manifest(ids: &Vec<u64>) -> (out: Vec<u8>)
    ensures
        out@ == enc_manifest(ids@),
{
    let mut out: Vec<u8> = Vec::new();
    let mut i: usize = 0;
    proof {
        assert(ids@.take(0) =~= Seq::<u64>::empty());
        assert(out@ =~= enc_manifest(ids@.take(0)));
    }
    while i < ids.len()
        invariant
            0 <= i <= ids@.len(),
            out@ == enc_manifest(ids@.take(i as int)),
        decreases ids@.len() - i,
    {
        if i > 0 {
            out.push(10);
        }
        let mut p = path_of(ids[i]);
        out.append(&mut p);
        proof {
            assert(ids@.take(i + 1) =~= ids@.take(i as int).push(ids@[i as int]));
            lemma_enc_manifest_push(ids@.take(i as int), ids@[i as int]);
            if i > 0 {
                assert(out@ =~= enc_manifest(ids@.take(i + 1)));
            } else {
                assert(out@ =~= enc_manifest(ids@.take(i + 1)));
            }
        }
        i = i + 1;
    }
    proof {
        assert(ids@.take(ids@.len() as int) =~= ids@);
    }
    out
}

/// The fixed fragments as runtime byte vectors, for the parsers.
pub(crate) fn lit_vec_wal_prefix() -> (v: Vec<u8>)
    ensures
        v@ == lit_wal_prefix(),
{
    let mut v: Vec<u8> = Vec::new();
    proof {
        assert(v@ =~= Seq::<u8>::empty());
    }
    push_lit_wal_prefix(&mut v);
    proof {
        assert(v@ =~= lit_wal_prefix());
    }
    v
}

pub(crate) fn lit_vec_entry_mid() -> (v: Vec<u8>)
    ensures
        v@ == lit_entry_mid(),
{
    let mut v: Vec<u8> = Vec::new();
    proof {
        assert(v@ =~= Seq::<u8>::empty());
    }
    push_lit_entry_mid(&mut v);
    proof {
        assert(v@ =~= lit_entry_mid());
    }
    v
}

pub(crate) fn lit_vec_put_prefix() -> (v: Vec<u8>)
    ensures
        v@ == lit_put_prefix(),
{
    let mut v: Vec<u8> = Vec::new();
    proof {
        assert(v@ =~= Seq::<u8>::empty());
    }
    push_lit_put_prefix(&mut v);
    proof {
        assert(v@ =~= lit_put_prefix());
    }
    v
}

pub(crate) fn lit_vec_del_prefix() -> (v: Vec<u8>)
    ensures
        v@ == lit_del_prefix(),
{
    let mut v: Vec<u8> = Vec::new();
    proof {
        assert(v@ =~= Seq::<u8>::empty());
    }
    push_lit_del_prefix(&mut v);
    proof {
        assert(v@ =~= lit_del_prefix());
    }
    v
}

pub(crate) fn lit_vec_val_mid() -> (v: Vec<u8>)
    ensures
        v@ == lit_val_mid(),
{
    let mut v: Vec<u8> = Vec::new();
    proof {
        assert(v@ =~= Seq::<u8>::empty());
    }
    push_lit_val_mid(&mut v);
    proof {
        assert(v@ =~= lit_val_mid());
    }
    v
}

pub(crate) fn lit_vec_sst_prefix() -> (v: Vec<u8>)
    ensures
        v@ == lit_sst_prefix(),
{
    let mut v: Vec<u8> = Vec::new();
    proof {
        assert(v@ =~= Seq::<u8>::empty());
    }
    push_lit_sst_prefix(&mut v);
    proof {
        assert(v@ =~= lit_sst_prefix());
    }
    v
}

pub(crate) fn lit_vec_deleted_tail() -> (v: Vec<u8>)
    ensures
        v@ == lit_deleted_tail(),
{
    let mut v: Vec<u8> = Vec::new();
    proof {
        assert(v@ =~= Seq::<u8>::empty());
    }
    push_lit_deleted_tail(&mut v);
    proof {
        assert(v@ =~= lit_deleted_tail());
    }
    v
}

pub(crate) fn lit_vec_path_prefix() -> (v: Vec<u8>)
    ensures
        v@ == lit_path_prefix(),
{
    let mut v: Vec<u8> = Vec::new();
    proof {
        assert(v@ =~= Seq::<u8>::empty());
    }
    push_lit_path_prefix(&mut v);
    proof {
        assert(v@ =~= lit_path_prefix());
    }
    v
}

pub(crate) fn lit_vec_path_suffix() -> (v: Vec<u8>)
    ensures
        v@ == lit_path_suffix(),
{
    let mut v: Vec<u8> = Vec::new();
    proof {
        assert(v@ =~= Seq::<u8>::empty());
    }
    push_lit_path_suffix(&mut v);
    proof {
        assert(v@ =~= lit_path_suffix());
    }
    v
}

} // verus!
