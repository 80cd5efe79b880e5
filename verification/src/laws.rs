//! The store's laws, stated over the engine's observable model and proved
//! from the contracts in `memtable`, `codec` and `parse`.

use crate::codec::enc_manifest;
use crate::codec::enc_sst;
use crate::codec::enc_wal;
use crate::codec::path_spec;
use crate::memtable::MemTable;
use crate::memtable::delete_transition;
use crate::memtable::file_lookup;
use crate::memtable::listed;
use crate::memtable::orphan_list;
use crate::memtable::put_transition;
use crate::memtable::sst_chain_val;
use crate::memtable::startup_ok;
use crate::memtable::tbl_find;
use crate::memtable::tbl_find_val;
use crate::memtable::wal_fold_val;
use crate::num::dec_spec;
use crate::num::lemma_dec_val_round;
use crate::parse::lemma_parse_manifest_complete;
use crate::parse::lemma_parse_sst_complete;
use crate::parse::lemma_replay_complete;
use crate::parse::parse_manifest_spec;
use crate::parse::parse_sst_spec;
use crate::parse::replay_spec;
use crate::wal::Entry;
use crate::wal::key_of;
use crate::wal::models_of;
use crate::wal::val_of;
use vstd::prelude::*;

verus! {

/// One acknowledged write, as an abstract command.
pub enum WriteCmd {
    Put(Seq<u8>, u32),
    Del(Seq<u8>),
}

/// Whether one engine state steps to the next under the command.
pub open spec fn write_transition(pre: MemTable, post: MemTable, w: WriteCmd) -> bool {
    match w {
        WriteCmd::Put(k, v) => put_transition(pre, post, k, v),
        WriteCmd::Del(k) => delete_transition(pre, post, k),
    }
}

/// What the last write to `k` in the sequence leaves visible, starting
/// from `base`.
pub open spec fn last_write_value(ws: Seq<WriteCmd>, k: Seq<u8>, base: Option<u32>) -> Option<
    u32,
>
    decreases ws.len(),
{
    if ws.len() == 0 {
        base
    } else {
        match ws.last() {
            WriteCmd::Put(k2, v) => if k2 == k {
                Some(v)
            } else {
                last_write_value(ws.drop_last(), k, base)
            },
            WriteCmd::Del(k2) => if k2 == k {
                None
            } else {
                last_write_value(ws.drop_last(), k, base)
            },
        }
    }
}

/// Read-after-write: after `put(k, v)` the key reads as `Some(v)`; `get`
/// returns exactly what is visible.
pub proof fn lemma_read_after_write(pre: MemTable, post: MemTable, k: Seq<u8>, v: u32)
    requires
        put_transition(pre, post, k, v),
    ensures
        post.visible(k) == Some(v),
{
}

/// Last write wins: across any finite sequence of acknowledged writes,
/// each key reads as the value of its last non-delete write, as absent if
/// its last write was a delete, and as before if it was never written.
pub proof fn lemma_last_write_wins(states: Seq<MemTable>, ws: Seq<WriteCmd>, k: Seq<u8>)
    requires
        states.len() == ws.len() + 1,
        forall|i: int|
            0 <= i < ws.len() ==> write_transition(
                #[trigger] states[i],
                states[i + 1],
                ws[i],
            ),
    ensures
        states.last().visible(k) == last_write_value(ws, k, states[0].visible(k)),
    decreases ws.len(),
{
    if ws.len() > 0 {
        let front = states.drop_last();
        assert(forall|i: int|
            0 <= i < ws.len() - 1 ==> write_transition(
                #[trigger] front[i],
                front[i + 1],
                ws.drop_last()[i],
            )) by {
            assert(forall|i: int| 0 <= i < front.len() ==> #[trigger] front[i] == states[i]);
            assert(forall|i: int|
                0 <= i < ws.len() - 1 ==> #[trigger] ws.drop_last()[i] == ws[i]);
        }
        lemma_last_write_wins(front, ws.drop_last(), k);
        assert(front[0] == states[0]);
        assert(front.last() == states[states.len() - 2]);
        assert(write_transition(states[states.len() - 2], states[states.len() - 1], ws[ws.len() - 1]));
        assert(states.last() == states[states.len() - 1]);
    }
}

/// Delete semantics: `put(k, v); delete(k)` reads as absent, and a
/// subsequent `put(k, w)` reads as `Some(w)` again.
pub proof fn lemma_delete_semantics(
    s0: MemTable,
    s1: MemTable,
    s2: MemTable,
    s3: MemTable,
    k: Seq<u8>,
    v: u32,
    w: u32,
)
    requires
        put_transition(s0, s1, k, v),
        delete_transition(s1, s2, k),
        put_transition(s2, s3, k, w),
    ensures
        s2.visible(k) is None,
        s3.visible(k) == Some(w),
{
}

/// Negative-cache coherence: every cached key reads as absent.
pub proof fn lemma_negative_cache_coherent(m: MemTable, i: int)
    requires
        m.wf(),
        0 <= i < m.negative_cache@.len(),
    ensures
        m.visible(m.negative_cache@[i]@) is None,
{
}

/// The on-disk mirror of a well-formed engine: each live SST under its
/// path, in manifest order.
pub open spec fn mirror_files(m: MemTable) -> Seq<(Seq<u8>, Seq<u8>)> {
    Seq::new(
        m.ssts@.len() as nat,
        |i: int| (path_spec(m.manifest_cache@[i]), enc_sst(m.ssts@[i]@)),
    )
}

/// Paths determine ids: the decimal digits in the middle pin the id down.
proof fn lemma_path_injective(a: u64, b: u64)
    requires
        path_spec(a) == path_spec(b),
    ensures
        a == b,
{
    let pa = dec_spec(a as nat);
    let pb = dec_spec(b as nat);
    assert(path_spec(a).len() == crate::codec::lit_path_prefix().len() + pa.len()
        + crate::codec::lit_path_suffix().len());
    assert(path_spec(b).len() == crate::codec::lit_path_prefix().len() + pb.len()
        + crate::codec::lit_path_suffix().len());
    assert(pa.len() == pb.len());
    assert forall|m: int| 0 <= m < pa.len() implies pa[m] == pb[m] by {
        assert(path_spec(a)[crate::codec::lit_path_prefix().len() + m] == pa[m]);
        assert(path_spec(b)[crate::codec::lit_path_prefix().len() + m] == pb[m]);
    }
    assert(pa =~= pb);
    lemma_dec_val_round(a as nat);
    lemma_dec_val_round(b as nat);
}

proof fn lemma_mirror_lookup(m: MemTable, i: int)
    requires
        m.wf(),
        0 <= i < m.manifest_cache@.len(),
    ensures
        file_lookup(mirror_files(m), path_spec(m.manifest_cache@[i])) == Some(
            enc_sst(m.ssts@[i]@),
        ),
{
    assert(mirror_files(m).skip(0) =~= mirror_files(m));
    lemma_mirror_lookup_from(mirror_files(m), m, 0, i);
}

proof fn lemma_mirror_lookup_from(fs: Seq<(Seq<u8>, Seq<u8>)>, m: MemTable, s: int, i: int)
    requires
        m.wf(),
        0 <= s <= i < m.manifest_cache@.len(),
        fs == mirror_files(m).skip(s),
    ensures
        file_lookup(fs, path_spec(m.manifest_cache@[i])) == Some(enc_sst(m.ssts@[i]@)),
    decreases i - s,
{
    assert(fs[0] == mirror_files(m)[s]);
    if s == i {
        assert(fs[0].0 == path_spec(m.manifest_cache@[i]));
    } else {
        assert(fs[0].0 == path_spec(m.manifest_cache@[s]));
        assert(m.manifest_cache@[s] != m.manifest_cache@[i]);
        assert(fs[0].0 != path_spec(m.manifest_cache@[i])) by {
            if path_spec(m.manifest_cache@[s]) == path_spec(m.manifest_cache@[i]) {
                lemma_path_injective(m.manifest_cache@[s], m.manifest_cache@[i]);
            }
        }
        assert(fs.drop_first() =~= mirror_files(m).skip(s + 1));
        lemma_mirror_lookup_from(fs.drop_first(), m, s + 1, i);
    }
}

/// Tables with equal models answer every lookup alike.
proof fn lemma_models_find(s1: Seq<Entry>, s2: Seq<Entry>, k: Seq<u8>)
    requires
        models_of(s1) == models_of(s2),
    ensures
        tbl_find_val(s1, k) == tbl_find_val(s2, k),
    decreases s1.len(),
{
    assert(models_of(s1).len() == s1.len());
    assert(models_of(s2).len() == s2.len());
    assert(s1.len() == s2.len());
    if s1.len() > 0 {
        assert(models_of(s1)[0] == (key_of(s1[0]), val_of(s1[0])));
        assert(models_of(s2)[0] == (key_of(s2[0]), val_of(s2[0])));
        assert(key_of(s1[0]) == key_of(s2[0]) && val_of(s1[0]) == val_of(s2[0]));
        assert(models_of(s1.drop_first()) =~= models_of(s2.drop_first())) by {
            assert(forall|m: int|
                0 <= m < s1.len() - 1 ==> #[trigger] models_of(s1.drop_first())[m]
                    == models_of(s1)[m + 1]);
            assert(forall|m: int|
                0 <= m < s2.len() - 1 ==> #[trigger] models_of(s2.drop_first())[m]
                    == models_of(s2)[m + 1]);
        }
        lemma_models_find(s1.drop_first(), s2.drop_first(), k);
    }
}

/// Logs with equal models fold every key alike.
proof fn lemma_models_fold(s1: Seq<Entry>, s2: Seq<Entry>, k: Seq<u8>)
    requires
        models_of(s1) == models_of(s2),
    ensures
        wal_fold_val(s1, k) == wal_fold_val(s2, k),
    decreases s1.len(),
{
    assert(models_of(s1).len() == s1.len());
    assert(models_of(s2).len() == s2.len());
    assert(s1.len() == s2.len());
    if s1.len() > 0 {
        let n = s1.len() - 1;
        assert(models_of(s1)[n] == (key_of(s1[n]), val_of(s1[n])));
        assert(models_of(s2)[n] == (key_of(s2[n]), val_of(s2[n])));
        assert(key_of(s1.last()) == key_of(s2.last()) && val_of(s1.last()) == val_of(
            s2.last(),
        ));
        assert(models_of(s1.drop_last()) =~= models_of(s2.drop_last())) by {
            assert(forall|m: int|
                0 <= m < n ==> #[trigger] models_of(s1.drop_last())[m] == models_of(
                    s1,
                )[m]);
            assert(forall|m: int|
                0 <= m < n ==> #[trigger] models_of(s2.drop_last())[m] == models_of(
                    s2,
                )[m]);
        }
        lemma_models_fold(s1.drop_last(), s2.drop_last(), k);
    }
}

/// Durability, part one: a restart from the durable image of a
/// well-formed engine whose memtable has been flushed to the log is owed
/// to succeed.
pub proof fn lemma_restart_succeeds(m: MemTable)
    requires
        m.wf(),
    ensures
        startup_ok(enc_manifest(m.manifest_cache@), mirror_files(m)),
{
    lemma_parse_manifest_complete(m.manifest_cache@);
    assert forall|i: int|
        0 <= i < m.manifest_cache@.len() implies crate::memtable::sst_file_ok(
        mirror_files(m),
        #[trigger] m.manifest_cache@[i],
    ) by {
        lemma_mirror_lookup(m, i);
        lemma_parse_sst_complete(m.ssts@[i]@);
        assert(crate::memtable::models_ok(models_of(m.ssts@[i]@))) by {
            assert(forall|a: int, b: int|
                0 <= a < b < m.ssts@[i]@.len() ==> crate::order::lex_lt(
                    (#[trigger] models_of(m.ssts@[i]@)[a]).0,
                    (#[trigger] models_of(m.ssts@[i]@)[b]).0,
                ));
        }
    }
}

/// Durability, part two: whatever engine a restart from that image
/// yields, every key reads exactly as it did before the shutdown.
pub proof fn lemma_restart_reads_equal(m: MemTable, m2: MemTable, k: Seq<u8>)
    requires
        m.wf(),
        m2.wf(),
        parse_manifest_spec(enc_manifest(m.manifest_cache@)) == Some(m2.manifest_cache@),
        m2.ssts@.len() == m2.manifest_cache@.len(),
        forall|i: int|
            0 <= i < m2.manifest_cache@.len() ==> match file_lookup(
                mirror_files(m),
                path_spec(#[trigger] m2.manifest_cache@[i]),
            ) {
                Some(c) => parse_sst_spec(c) == Some(models_of(m2.ssts@[i]@)),
                None => false,
            },
        models_of(m2.wal.entries@) == replay_spec(enc_wal(m.wal.entries@)),
    ensures
        m2.visible(k) == m.visible(k),
{
    lemma_parse_manifest_complete(m.manifest_cache@);
    assert(m2.manifest_cache@ == m.manifest_cache@);
    // the memtable: replay of the log mirror folds to the same bindings
    lemma_replay_complete(m.wal.entries@);
    assert(models_of(m2.wal.entries@) == models_of(m.wal.entries@));
    lemma_models_fold(m2.wal.entries@, m.wal.entries@, k);
    assert(tbl_find_val(m2.requests@, k) == tbl_find_val(m.requests@, k));
    // the SSTs: every loaded table has the model of the mirrored one
    assert forall|i: int|
        0 <= i < m.ssts@.len() implies tbl_find_val(#[trigger] m2.ssts@[i]@, k)
        == tbl_find_val(m.ssts@[i]@, k) by {
        lemma_mirror_lookup(m, i);
        lemma_parse_sst_complete(m.ssts@[i]@);
        assert(models_of(m2.ssts@[i]@) == models_of(m.ssts@[i]@));
        lemma_models_find(m2.ssts@[i]@, m.ssts@[i]@, k);
    }
    assert(m2.ssts@.len() == m.ssts@.len());
    lemma_chain_congruent(m2.ssts_view(), m.ssts_view(), k);
    assert(sst_chain_val(m2.ssts_view(), k) == sst_chain_val(m.ssts_view(), k));
    match tbl_find(m2.requests@, k) {
        Some(e) => {
            assert(tbl_find_val(m2.requests@, k) == Some(val_of(e)));
        },
        None => {
            assert(tbl_find(m.requests@, k) is None);
        },
    }
}

proof fn lemma_chain_congruent(v1: Seq<Seq<Entry>>, v2: Seq<Seq<Entry>>, k: Seq<u8>)
    requires
        v1.len() == v2.len(),
        forall|i: int|
            0 <= i < v1.len() ==> tbl_find_val(#[trigger] v1[i], k) == tbl_find_val(
                v2[i],
                k,
            ),
    ensures
        sst_chain_val(v1, k) == sst_chain_val(v2, k),
    decreases v1.len(),
{
    if v1.len() > 0 {
        assert(tbl_find_val(v1.last(), k) == tbl_find_val(v2.last(), k));
        assert(forall|i: int|
            0 <= i < v1.len() - 1 ==> #[trigger] v1.drop_last()[i] == v1[i]);
        assert(forall|i: int|
            0 <= i < v2.len() - 1 ==> #[trigger] v2.drop_last()[i] == v2[i]);
        lemma_chain_congruent(v1.drop_last(), v2.drop_last(), k);
        match tbl_find(v1.last(), k) {
            Some(e) => {
                assert(tbl_find(v2.last(), k) is Some);
            },
            None => {
                assert(tbl_find(v2.last(), k) is None);
            },
        }
    }
}

/// Torn-tail tolerance at record granularity: cutting the log after any
/// record replays exactly the records before the cut.
pub proof fn lemma_torn_tail_records(es: Seq<Entry>, j: int)
    requires
        0 <= j <= es.len(),
    ensures
        replay_spec(enc_wal(es.take(j))) == models_of(es).take(j),
{
    lemma_replay_complete(es.take(j));
    assert(models_of(es.take(j)) =~= models_of(es).take(j));
}

/// Orphan cleanup: a path is reported as an orphan exactly when some file
/// bears it and the manifest does not reference it.
pub proof fn lemma_orphan_membership(
    files: Seq<(Seq<u8>, Seq<u8>)>,
    ids: Seq<u64>,
    p: Seq<u8>,
)
    ensures
        orphan_list(files, ids).contains(p) <==> ((exists|i: int|
            0 <= i < files.len() && (#[trigger] files[i]).0 == p) && !listed(ids, p)),
    decreases files.len(),
{
    if files.len() == 0 {
        assert(!orphan_list(files, ids).contains(p));
    } else {
        lemma_orphan_membership(files.drop_first(), ids, p);
        let rest = orphan_list(files.drop_first(), ids);
        if listed(ids, files[0].0) {
            assert(orphan_list(files, ids) == rest);
            if orphan_list(files, ids).contains(p) {
                let i0 = choose|i: int|
                    0 <= i < files.drop_first().len() && (#[trigger] files.drop_first()[
                        i
                    ]).0 == p;
                assert(files[i0 + 1].0 == p);
            } else {
                if (exists|i: int| 0 <= i < files.len() && (#[trigger] files[i]).0 == p)
                    && !listed(ids, p) {
                    let i0 = choose|i: int|
                        0 <= i < files.len() && (#[trigger] files[i]).0 == p;
                    assert(i0 != 0);
                    assert(files.drop_first()[i0 - 1].0 == p);
                }
            }
        } else {
            assert(orphan_list(files, ids) == seq![files[0].0] + rest);
            assert(orphan_list(files, ids)[0] == files[0].0);
            if orphan_list(files, ids).contains(p) {
                let j0 = choose|j: int|
                    0 <= j < orphan_list(files, ids).len() && orphan_list(files, ids)[j]
                        == p;
                if j0 == 0 {
                    assert(files[0].0 == p);
                } else {
                    assert(rest[j0 - 1] == p);
                    assert(rest.contains(p));
                    let i0 = choose|i: int|
                        0 <= i < files.drop_first().len() && (#[trigger] files.drop_first()[
                            i
                        ]).0 == p;
                    assert(files[i0 + 1].0 == p);
                }
            } else {
                if (exists|i: int| 0 <= i < files.len() && (#[trigger] files[i]).0 == p)
                    && !listed(ids, p) {
                    let i0 = choose|i: int|
                        0 <= i < files.len() && (#[trigger] files[i]).0 == p;
                    if i0 == 0 {
                        assert(orphan_list(files, ids)[0] == p);
                    } else {
                        assert(files.drop_first()[i0 - 1].0 == p);
                        assert(rest.contains(p));
                        let j0 = choose|j: int| 0 <= j < rest.len() && rest[j] == p;
                        assert(orphan_list(files, ids)[j0 + 1] == p);
                    }
                }
            }
        }
    }
}

} // verus!
