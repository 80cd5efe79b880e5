//! The engine: memtable, manifest cache, SST mirror and negative cache.

use crate::Key;
use crate::Value;
use crate::codec::enc_manifest;
use crate::error::KvError;
use crate::parse::parse_manifest_spec;
use crate::parse::parse_sst_spec;
use crate::parse::replay_spec;
use crate::wal::models_of;
use crate::codec::enc_sst;
use crate::codec::enc_wal_line;
use crate::codec::path_spec;
use crate::order::KeyCmp;
use crate::order::key_cmp;
use crate::order::lemma_lex_asym;
use crate::order::lemma_lex_trans;
use crate::order::lex_lt;
use crate::wal::Entry;
use crate::wal::Wal;
use crate::wal::key_of;
use crate::wal::val_of;
use vstd::prelude::*;

verus! {

/// A memtable with this many distinct pending keys is flushed.
pub const FLUSH_THRESHOLD: usize = 2000;

/// A compaction runs once this many mutations have accumulated.
pub const COMPACTION_THRESHOLD: u64 = 10000;

/// Largest SST id the engine will ever allocate or read back.
pub const ID_LIMIT: u64 = 1_000_000_000_000;

/// A pending upsert: a key bound to a value.
pub struct PutRequest {
    pub key: Key,
    pub value: Value,
}

impl PutRequest {
    pub fn new(key: Key, value: Value) -> (r: Self)
        ensures
            r.key@ == key@,
            r.value == value,
    {
        Self { key, value }
    }
}

/// Three-valued answer of a memtable lookup: a tombstone is distinct from
/// an unknown key, so deleted keys do not leak values from older SSTs.
pub enum Lookup {
    Found(Value),
    Tombstoned,
    Absent,
}

// ---------------------------------------------------------------------------
// Sorted entry tables: the memtable and every SST are key-sorted vectors
// of entries with pairwise-distinct keys.
// ---------------------------------------------------------------------------
/// Keys strictly ascending (hence pairwise distinct).
pub open spec fn tbl_sorted(s: Seq<Entry>) -> bool {
    forall|i: int, j: int|
        0 <= i < j < s.len() ==> lex_lt(key_of(#[trigger] s[i]), key_of(#[trigger] s[j]))
}

/// First entry with the given key.
pub open spec fn tbl_find(s: Seq<Entry>, k: Seq<u8>) -> Option<Entry>
    decreases s.len(),
{
    if s.len() == 0 {
        None
    } else if key_of(s[0]) == k {
        Some(s[0])
    } else {
        tbl_find(s.drop_first(), k)
    }
}

/// The value bound to a key: `Some(Some(v))` for a put, `Some(None)` for a
/// tombstone, `None` when the key is absent.
pub open spec fn tbl_find_val(s: Seq<Entry>, k: Seq<u8>) -> Option<Option<u32>> {
    match tbl_find(s, k) {
        Some(e) => Some(val_of(e)),
        None => None,
    }
}

pub proof fn lemma_tbl_find_append(a: Seq<Entry>, b: Seq<Entry>, k: Seq<u8>)
    ensures
        tbl_find(a + b, k) == match tbl_find(a, k) {
            Some(e) => Some(e),
            None => tbl_find(b, k),
        },
    decreases a.len(),
{
    if a.len() == 0 {
        assert(a + b =~= b);
    } else {
        assert((a + b)[0] == a[0]);
        assert((a + b).drop_first() =~= a.drop_first() + b);
        lemma_tbl_find_append(a.drop_first(), b, k);
    }
}

pub proof fn lemma_tbl_find_by_index(s: Seq<Entry>, k: Seq<u8>, i: int)
    requires
        0 <= i < s.len(),
        forall|m: int| 0 <= m < i ==> key_of(#[trigger] s[m]) != k,
        key_of(s[i]) == k,
    ensures
        tbl_find(s, k) == Some(s[i]),
    decreases i,
{
    if i > 0 {
        assert(forall|m: int|
            0 <= m < i - 1 ==> key_of(#[trigger] s.drop_first()[m]) == key_of(s[m + 1]));
        lemma_tbl_find_by_index(s.drop_first(), k, i - 1);
    }
}

pub proof fn lemma_tbl_find_none(s: Seq<Entry>, k: Seq<u8>)
    requires
        forall|m: int| 0 <= m < s.len() ==> key_of(#[trigger] s[m]) != k,
    ensures
        tbl_find(s, k) is None,
    decreases s.len(),
{
    if s.len() > 0 {
        assert(forall|m: int|
            0 <= m < s.drop_first().len() ==> key_of(#[trigger] s.drop_first()[m])
                == key_of(s[m + 1]));
        lemma_tbl_find_none(s.drop_first(), k);
    }
}

/// A found entry sits at some index.
pub proof fn lemma_tbl_find_index(s: Seq<Entry>, k: Seq<u8>)
    requires
        tbl_find(s, k) is Some,
    ensures
        exists|i: int|
            0 <= i < s.len() && key_of(#[trigger] s[i]) == k && tbl_find(s, k) == Some(
                s[i],
            ),
    decreases s.len(),
{
    if key_of(s[0]) == k {
        assert(key_of(s[0]) == k && tbl_find(s, k) == Some(s[0]));
    } else {
        lemma_tbl_find_index(s.drop_first(), k);
        let i0 = choose|i: int|
            0 <= i < s.drop_first().len() && key_of(#[trigger] s.drop_first()[i]) == k
                && tbl_find(s.drop_first(), k) == Some(s.drop_first()[i]);
        assert(s.drop_first()[i0] == s[i0 + 1]);
        assert(key_of(s[i0 + 1]) == k && tbl_find(s, k) == Some(s[i0 + 1]));
    }
}

/// A byte-for-byte copy of a key.
pub fn copy_key(k: &Vec<u8>) -> (r: Vec<u8>)
    ensures
        r@ == k@,
{
    let mut r: Vec<u8> = Vec::new();
    let mut i: usize = 0;
    proof {
        assert(r@ =~= k@.take(0));
    }
    while i < k.len()
        invariant
            0 <= i <= k@.len(),
            r@ == k@.take(i as int),
        decreases k@.len() - i,
    {
        r.push(k[i]);
        proof {
            assert(k@.take(i + 1) =~= k@.take(i as int).push(k@[i as int]));
        }
        i = i + 1;
    }
    proof {
        assert(k@.take(k@.len() as int) =~= k@);
    }
    r
}

/// Index of the entry with the given key, if present.
fn tbl_lookup_idx(v: &Vec<Entry>, key: &Vec<u8>) -> (r: Option<usize>)
    ensures
        match r {
            Some(i) => i < v@.len() && key_of(v@[i as int]) == key@ && tbl_find(
                v@,
                key@,
            ) == Some(v@[i as int]),
            None => tbl_find(v@, key@) is None,
        },
{
    let mut i: usize = 0;
    while i < v.len()
        invariant
            0 <= i <= v@.len(),
            forall|m: int| 0 <= m < i ==> key_of(#[trigger] v@[m]) != key@,
        decreases v@.len() - i,
    {
        let hit = match key_cmp(v[i].key(), key) {
            KeyCmp::Equal => true,
            _ => false,
        };
        if hit {
            proof {
                lemma_tbl_find_by_index(v@, key@, i as int);
            }
            return Some(i);
        }
        i = i + 1;
    }
    proof {
        lemma_tbl_find_none(v@, key@);
    }
    None
}

/// First position whose key is not below the given key.
fn tbl_insert_pos(v: &Vec<Entry>, key: &Vec<u8>) -> (i: usize)
    ensures
        i <= v@.len(),
        forall|m: int| 0 <= m < i ==> lex_lt(key_of(#[trigger] v@[m]), key@),
        i < v@.len() ==> !lex_lt(key_of(v@[i as int]), key@),
{
    let mut i: usize = 0;
    while i < v.len()
        invariant
            0 <= i <= v@.len(),
            forall|m: int| 0 <= m < i ==> lex_lt(key_of(#[trigger] v@[m]), key@),
        decreases v@.len() - i,
    {
        match key_cmp(v[i].key(), key) {
            KeyCmp::Less => {},
            KeyCmp::Equal => {
                return i;
            },
            KeyCmp::Greater => {
                proof {
                    crate::order::lemma_lex_asym(key@, key_of(v@[i as int]));
                }
                return i;
            },
        }
        i = i + 1;
    }
    i
}

/// Insert or overwrite an entry, keeping the table sorted by key.
fn tbl_insert(v: &mut Vec<Entry>, e: Entry)
    requires
        tbl_sorted(old(v)@),
    ensures
        tbl_sorted(final(v)@),
        tbl_find_val(final(v)@, key_of(e)) == Some(val_of(e)),
        forall|k: Seq<u8>|
            k != key_of(e) ==> #[trigger] tbl_find_val(final(v)@, k) == tbl_find_val(
                old(v)@,
                k,
            ),
        final(v)@.len() == old(v)@.len() + (if tbl_find(old(v)@, key_of(e)) is Some {
            0int
        } else {
            1int
        }),
{
    let ghost k0 = key_of(e);
    let i = tbl_insert_pos(v, e.key());
    // every entry before i has a key strictly below e's; entry i (if any)
    // has a key equal to or above e's
    proof {
        assert(forall|m: int|
            0 <= m < i ==> key_of(#[trigger] old(v)@[m]) != k0) by {
            assert forall|m: int| 0 <= m < i implies key_of(#[trigger] old(v)@[m]) != k0 by {
                lemma_lex_asym(key_of(old(v)@[m]), k0);
            }
        }
    }
    if i < v.len() {
        let same = match key_cmp(v[i].key(), e.key()) {
            KeyCmp::Equal => true,
            _ => false,
        };
        if same {
            // overwrite in place
            let ghost before = v@;
            v.remove(i);
            v.insert(i, e);
            proof {
                assert(v@ =~= before.update(i as int, e));
                lemma_tbl_insert_shape(before, v@, e, i as int, true);
            }
            return ;
        }
        // strictly greater: insert before it
        let ghost before = v@;
        v.insert(i, e);
        proof {
            lemma_lex_asym(k0, key_of(before[i as int]));
            lemma_tbl_insert_shape(before, v@, e, i as int, false);
        }
        return ;
    }
    let ghost before = v@;
    v.push(e);
    proof {
        assert(v@ =~= before.insert(i as int, e));
        lemma_tbl_insert_shape(before, v@, e, i as int, false);
    }
}

/// Shape of a sorted-insert result: sortedness, the new binding, and the
/// untouched bindings of every other key.
proof fn lemma_tbl_insert_shape(
    before: Seq<Entry>,
    after: Seq<Entry>,
    e: Entry,
    i: int,
    replace: bool,
)
    requires
        tbl_sorted(before),
        0 <= i <= before.len(),
        forall|m: int| 0 <= m < i ==> lex_lt(key_of(#[trigger] before[m]), key_of(e)),
        replace ==> i < before.len() && key_of(before[i]) == key_of(e),
        !replace ==> (i == before.len() || lex_lt(key_of(e), key_of(before[i]))),
        replace ==> after == before.update(i, e),
        !replace ==> after == before.insert(i, e),
    ensures
        tbl_sorted(after),
        tbl_find_val(after, key_of(e)) == Some(val_of(e)),
        forall|k: Seq<u8>|
            k != key_of(e) ==> #[trigger] tbl_find_val(after, k) == tbl_find_val(
                before,
                k,
            ),
        after.len() == before.len() + (if replace {
            0int
        } else {
            1int
        }),
        tbl_find(before, key_of(e)) is Some <==> replace,
{
    let k0 = key_of(e);
    let a = before.take(i);
    let b = if replace {
        before.skip(i + 1)
    } else {
        before.skip(i)
    };
    assert(after =~= a + seq![e] + b);
    assert(forall|m: int| 0 <= m < a.len() ==> #[trigger] a[m] == before[m]);
    if replace {
        assert(forall|m: int| 0 <= m < b.len() ==> #[trigger] b[m] == before[i + 1 + m]);
    } else {
        assert(forall|m: int| 0 <= m < b.len() ==> #[trigger] b[m] == before[i + m]);
    }
    // sortedness: keys in `a` are below k0, keys in `b` above
    assert(forall|m: int| 0 <= m < a.len() ==> lex_lt(key_of(#[trigger] a[m]), k0));
    assert forall|m: int| 0 <= m < b.len() implies lex_lt(k0, key_of(#[trigger] b[m])) by {
        if replace {
            assert(b[m] == before[i + 1 + m]);
            assert(lex_lt(key_of(before[i]), key_of(before[i + 1 + m])));
        } else {
            assert(b[m] == before[i + m]);
            if m == 0 {
            } else {
                assert(lex_lt(key_of(before[i]), key_of(before[i + m])));
                lemma_lex_trans(k0, key_of(before[i]), key_of(before[i + m]));
            }
        }
    }
    assert forall|m: int, n: int|
        0 <= m < n < after.len() implies lex_lt(
        key_of(#[trigger] after[m]),
        key_of(#[trigger] after[n]),
    ) by {
        if m < i && n < i {
            assert(after[m] == before[m] && after[n] == before[n]);
        } else if m < i && n == i {
            assert(after[m] == a[m] && after[n] == e);
        } else if m < i && n > i {
            assert(after[m] == a[m] && after[n] == b[n - i - 1]);
            lemma_lex_trans(key_of(after[m]), k0, key_of(after[n]));
        } else if m == i && n > i {
            assert(after[m] == e && after[n] == b[n - i - 1]);
        } else {
            assert(after[m] == b[m - i - 1] && after[n] == b[n - i - 1]);
            if replace {
                assert(after[m] == before[i + 1 + (m - i - 1)]);
                assert(after[n] == before[i + 1 + (n - i - 1)]);
            } else {
                assert(after[m] == before[m - 1]);
                assert(after[n] == before[n - 1]);
            }
        }
    }
    // the new binding
    assert forall|m: int| 0 <= m < a.len() implies key_of(#[trigger] a[m]) != k0 by {
        lemma_lex_asym(key_of(a[m]), k0);
    }
    lemma_tbl_find_none(a, k0);
    lemma_tbl_find_append(a, seq![e] + b, k0);
    assert((seq![e] + b)[0] == e);
    assert(a + (seq![e] + b) =~= after);
    assert(tbl_find(seq![e] + b, k0) == Some(e));
    assert(tbl_find(after, k0) == Some(e));
    // other keys
    assert forall|k: Seq<u8>| k != k0 implies #[trigger] tbl_find_val(after, k)
        == tbl_find_val(before, k) by {
        lemma_tbl_find_append(a, seq![e] + b, k);
        assert((seq![e] + b).drop_first() =~= b);
        assert(tbl_find(seq![e] + b, k) == tbl_find(b, k));
        if replace {
            assert(before =~= a + seq![before[i]] + b);
            assert(a + (seq![before[i]] + b) =~= before);
            lemma_tbl_find_append(a, seq![before[i]] + b, k);
            assert((seq![before[i]] + b)[0] == before[i]);
            assert((seq![before[i]] + b).drop_first() =~= b);
            assert(tbl_find(seq![before[i]] + b, k) == tbl_find(b, k));
        } else {
            assert(a + b =~= before);
            lemma_tbl_find_append(a, b, k);
        }
    }
    // presence of k0 in `before`
    if replace {
        assert forall|m: int| 0 <= m < i implies key_of(#[trigger] before[m]) != k0 by {
            lemma_lex_asym(key_of(before[m]), k0);
        }
        assert(tbl_find(before, k0) is Some) by {
            lemma_tbl_find_by_index(before, k0, i);
        }
    } else {
        assert forall|m: int|
            0 <= m < before.len() implies key_of(#[trigger] before[m]) != k0 by {
            if m < i {
                lemma_lex_asym(key_of(before[m]), k0);
            } else if m == i {
                lemma_lex_asym(k0, key_of(before[m]));
            } else {
                assert(lex_lt(key_of(before[i]), key_of(before[m])));
                lemma_lex_trans(k0, key_of(before[i]), key_of(before[m]));
                lemma_lex_asym(k0, key_of(before[m]));
            }
        }
        lemma_tbl_find_none(before, k0);
    }
}

// ---------------------------------------------------------------------------
// The engine.
// ---------------------------------------------------------------------------

/// The observable effect of an upsert: the key now reads as the value,
/// every other key reads as before.
pub open spec fn put_transition(pre: MemTable, post: MemTable, k: Seq<u8>, v: u32) -> bool {
    &&& post.visible(k) == Some(v)
    &&& forall|k2: Seq<u8>| k2 != k ==> post.visible(k2) == pre.visible(k2)
}

/// The observable effect of a delete: the key now reads as absent, every
/// other key reads as before.
pub open spec fn delete_transition(pre: MemTable, post: MemTable, k: Seq<u8>) -> bool {
    &&& post.visible(k) is None
    &&& forall|k2: Seq<u8>| k2 != k ==> post.visible(k2) == pre.visible(k2)
}

/// No read observes any change.
pub open spec fn read_only(pre: MemTable, post: MemTable) -> bool {
    forall|k: Seq<u8>| post.visible(k) == pre.visible(k)
}

/// A file-system effect the shell must perform, in order, to make the
/// engine's state change durable. `PublishManifest` stands for the atomic
/// replacement protocol: write `manifest.tmp`, fsync it, rename it over
/// the manifest, fsync the directory.
pub enum FsOp {
    AppendWal(Vec<u8>),
    TruncateWal,
    WriteSst { path: Vec<u8>, content: Vec<u8> },
    PublishManifest(Vec<u8>),
    DeleteSst(Vec<u8>),
}


/// The effect is the append of the framed record for `(k, v)`.
pub open spec fn is_wal_append(op: FsOp, k: Seq<u8>, v: Option<u32>) -> bool {
    match op {
        FsOp::AppendWal(l) => l@ == enc_wal_line(k, v) + seq![10u8],
        _ => false,
    }
}

/// The effect writes the SST with the given id and entries.
pub open spec fn is_write_sst(op: FsOp, id: u64, entries: Seq<Entry>) -> bool {
    match op {
        FsOp::WriteSst { path, content } => path@ == path_spec(id) && content@ == enc_sst(
            entries,
        ),
        _ => false,
    }
}

/// The effect atomically replaces the manifest with the given id list.
pub open spec fn is_publish_manifest(op: FsOp, ids: Seq<u64>) -> bool {
    match op {
        FsOp::PublishManifest(c) => c@ == enc_manifest(ids),
        _ => false,
    }
}

/// The effect deletes the SST file with the given id.
pub open spec fn is_delete_sst(op: FsOp, id: u64) -> bool {
    match op {
        FsOp::DeleteSst(p) => p@ == path_spec(id),
        _ => false,
    }
}

/// A flush of `pre`'s memtable sits in `ops` at offset `b`: the new SST
/// under the next id, the extended manifest, then the log truncation.
pub open spec fn flush_ops_at(b: int, ops: Seq<FsOp>, pre: MemTable) -> bool {
    &&& ops.len() >= b + 3
    &&& is_write_sst(ops[b], (pre.max_id() + 1) as u64, pre.requests@)
    &&& is_publish_manifest(
        ops[b + 1],
        pre.manifest_cache@.push((pre.max_id() + 1) as u64),
    )
    &&& ops[b + 2] is TruncateWal
}

/// A committed compaction's effects sit in `ops` from offset `base` on:
/// one write per fresh SST in order, the manifest swap, then the
/// deletion of every prior SST file.
pub open spec fn compact_ops_at(
    base: int,
    ops: Seq<FsOp>,
    post: MemTable,
    prior_ids: Seq<u64>,
) -> bool {
    let n = post.ssts@.len() as int;
    let d = prior_ids.len() as int;
    &&& ops.len() == base + n + 1 + d
    &&& (forall|c: int|
        0 <= c < n ==> is_write_sst(
            #[trigger] ops[base + c],
            post.manifest_cache@[c],
            post.ssts@[c]@,
        ))
    &&& is_publish_manifest(ops[base + n], post.manifest_cache@)
    &&& (forall|d2: int|
        0 <= d2 < d ==> is_delete_sst(#[trigger] ops[base + n + 1 + d2], prior_ids[d2]))
}

/// The negative cache as a sequence of key strings.
pub open spec fn neg_model(neg: Seq<Vec<u8>>) -> Seq<Seq<u8>> {
    neg.map_values(|x: Vec<u8>| x@)
}

/// The cached keys other than `k`, in order.
pub open spec fn drop_key(neg: Seq<Seq<u8>>, k: Seq<u8>) -> Seq<Seq<u8>> {
    neg.filter(|s: Seq<u8>| s != k)
}

/// A read of `k` that confirms the key absent everywhere: not pending,
/// not already cached, and in no live SST. Only such a read grows the
/// negative cache.
pub open spec fn confirmed_miss(pre: MemTable, k: Seq<u8>) -> bool {
    &&& tbl_find(pre.requests@, k) is None
    &&& !neg_model(pre.negative_cache@).contains(k)
    &&& sst_chain_val(pre.ssts_view(), k) is None
}

/// The number of distinct keys pending once an entry for `k` is
/// installed.
pub open spec fn grown_size(pre: MemTable, k: Seq<u8>) -> int {
    pre.requests@.len() + (if tbl_find(pre.requests@, k) is Some {
        0int
    } else {
        1int
    })
}

/// Does installing an entry for `k` reach the flush threshold, with an
/// id available for the new SST?
pub open spec fn flush_fires(pre: MemTable, k: Seq<u8>) -> bool {
    grown_size(pre, k) >= FLUSH_THRESHOLD && pre.max_id() < ID_LIMIT
}

/// Does this mutation drive the counter to the compaction threshold with
/// enough id space for the compaction to commit?
pub open spec fn compact_commits(pre: MemTable, k: Seq<u8>) -> bool {
    pre.mutations + 1 >= COMPACTION_THRESHOLD && (if flush_fires(pre, k) {
        pre.max_id() + 1 + (total_len(pre.ssts_view()) + grown_size(pre, k)) + 1
            <= ID_LIMIT
    } else {
        pre.compact_ok()
    })
}

/// The drained memtable as written to the new SST: sorted, and binding
/// every key as the pre-state memtable did, overridden at `k`.
pub open spec fn drained_table(
    t: Seq<Entry>,
    pre: MemTable,
    k: Seq<u8>,
    v: Option<u32>,
) -> bool {
    &&& tbl_sorted(t)
    &&& t.len() == grown_size(pre, k)
    &&& tbl_find_val(t, k) == Some(v)
    &&& (forall|k2: Seq<u8>|
        k2 != k ==> #[trigger] tbl_find_val(t, k2) == tbl_find_val(pre.requests@, k2))
}

/// The flush's file write: the next id's path, holding a drained table.
pub open spec fn flush_write_op(op: FsOp, pre: MemTable, k: Seq<u8>, v: Option<u32>) -> bool {
    match op {
        FsOp::WriteSst { path, content } => path@ == path_spec((pre.max_id() + 1) as u64)
            && (exists|t: Seq<Entry>|
            content@ == enc_sst(t) && drained_table(t, pre, k, v)),
        _ => false,
    }
}

/// Everything one mutation does beyond the read model, decided by the
/// pre-state: the memtable binding, the counter, the SST stack, the
/// manifest, and the complete effect list.
pub open spec fn write_outcome(
    pre: MemTable,
    post: MemTable,
    ops: Seq<FsOp>,
    k: Seq<u8>,
    v: Option<u32>,
) -> bool {
    let f = flush_fires(pre, k);
    let cc = compact_commits(pre, k);
    let base: int = 1 + (if f {
        3int
    } else {
        0int
    });
    let mid_manifest = if f {
        pre.manifest_cache@.push((pre.max_id() + 1) as u64)
    } else {
        pre.manifest_cache@
    };
    &&& ops.len() >= 1 && is_wal_append(ops[0], k, v)
    // the memtable and the log
    &&& (f <==> post.requests@.len() == 0)
    &&& (!f ==> {
        &&& tbl_find_val(post.requests@, k) == Some(v)
        &&& (forall|k2: Seq<u8>|
            k2 != k ==> #[trigger] tbl_find_val(post.requests@, k2) == tbl_find_val(
                pre.requests@,
                k2,
            ))
        &&& post.requests@.len() == grown_size(pre, k)
        &&& post.wal.entries@.len() == pre.wal.entries@.len() + 1
    })
    &&& (f ==> post.wal.entries@.len() == 0)
    // the mutation counter
    &&& post.mutations == (if cc {
        0int
    } else if pre.mutations < COMPACTION_THRESHOLD {
        pre.mutations + 1
    } else {
        pre.mutations as int
    })
    // the flush's effects, whether or not a compaction follows
    &&& (f ==> {
        &&& ops.len() >= 4
        &&& flush_write_op(ops[1], pre, k, v)
        &&& is_publish_manifest(ops[2], mid_manifest)
        &&& ops[3] is TruncateWal
    })
    // no committed compaction: the stack and manifest are the flush's
    &&& (!cc ==> {
        &&& ops.len() == base
        &&& (f ==> {
            &&& post.ssts@.len() == pre.ssts@.len() + 1
            &&& post.ssts@.drop_last() == pre.ssts@
            &&& drained_table(post.ssts@.last()@, pre, k, v)
            &&& post.manifest_cache@ == mid_manifest
        })
        &&& (!f ==> post.ssts == pre.ssts && post.manifest_cache == pre.manifest_cache)
    })
    // a committed compaction: a fresh all-puts generation, every effect
    // enumerated, the counter reset
    &&& (cc ==> {
        &&& (forall|g: int, j: int|
            0 <= g < post.ssts@.len() && 0 <= j < post.ssts@[g]@.len() ==> val_of(
                #[trigger] post.ssts@[g]@[j],
            ) is Some)
        &&& compact_ops_at(base, ops, post, mid_manifest)
    })
}

/// The storage engine: pending mutations, the manifest of live SSTs, an
/// in-memory mirror of their contents, the negative cache and the
/// mutation counter that schedules compaction.
pub struct MemTable {
    pub requests: Vec<Entry>,
    pub wal: Wal,
    pub manifest_cache: Vec<u64>,
    pub ssts: Vec<Vec<Entry>>,
    pub negative_cache: Vec<Vec<u8>>,
    pub mutations: u64,
}

/// Newest-first lookup over a stack of SSTs (the last is the youngest):
/// `Some(val_of(e))` for the newest entry holding the key, `None` when no
/// SST holds it.
pub open spec fn sst_chain_val(ssts: Seq<Seq<Entry>>, k: Seq<u8>) -> Option<Option<u32>>
    decreases ssts.len(),
{
    if ssts.len() == 0 {
        None
    } else {
        match tbl_find(ssts.last(), k) {
            Some(e) => Some(val_of(e)),
            None => sst_chain_val(ssts.drop_last(), k),
        }
    }
}

/// The last entry logged for a key, if any.
pub open spec fn wal_fold_val(es: Seq<Entry>, k: Seq<u8>) -> Option<Option<u32>>
    decreases es.len(),
{
    if es.len() == 0 {
        None
    } else if key_of(es.last()) == k {
        Some(val_of(es.last()))
    } else {
        wal_fold_val(es.drop_last(), k)
    }
}

impl MemTable {
    /// The SST stack as mathematical sequences, oldest first.
    pub open spec fn ssts_view(self) -> Seq<Seq<Entry>> {
        self.ssts@.map_values(|t: Vec<Entry>| t@)
    }

    /// What a read of `k` returns: the memtable entry if one is pending,
    /// else the newest SST entry, a tombstone reading as absent.
    pub open spec fn visible(self, k: Seq<u8>) -> Option<u32> {
        match tbl_find(self.requests@, k) {
            Some(e) => val_of(e),
            None => match sst_chain_val(self.ssts_view(), k) {
                Some(v) => v,
                None => None,
            },
        }
    }

    /// The id the next flush or compaction output will start after.
    pub open spec fn max_id(self) -> u64 {
        if self.manifest_cache@.len() == 0 {
            0
        } else {
            self.manifest_cache@.last()
        }
    }

    /// Well-formedness: tables sorted and SSTs non-empty, manifest ids
    /// ascending and in range, the negative cache holding only invisible
    /// keys, and the memtable equal to the fold of the WAL mirror.
    pub open spec fn wf(self) -> bool {
        &&& tbl_sorted(self.requests@)
        &&& self.manifest_cache@.len() == self.ssts@.len()
        &&& (forall|i: int|
            0 <= i < self.ssts@.len() ==> tbl_sorted(#[trigger] self.ssts@[i]@)
                && self.ssts@[i]@.len() > 0)
        &&& (forall|i: int, j: int|
            0 <= i < j < self.manifest_cache@.len() ==> #[trigger] self.manifest_cache@[i]
                < #[trigger] self.manifest_cache@[j])
        &&& (forall|i: int|
            0 <= i < self.manifest_cache@.len() ==> 1 <= #[trigger] self.manifest_cache@[i]
                <= ID_LIMIT)
        &&& (forall|i: int|
            0 <= i < self.negative_cache@.len() ==> self.visible(
                #[trigger] self.negative_cache@[i]@,
            ) is None)
        &&& (forall|k: Seq<u8>|
            #[trigger] tbl_find_val(self.requests@, k) == wal_fold_val(
                self.wal.entries@,
                k,
            ))
        &&& self.wal.count == self.wal.entries@.len()
        &&& self.mutations <= COMPACTION_THRESHOLD
    }

    /// An empty store.
    pub fn new() -> (r: MemTable)
        ensures
            r.wf(),
            forall|k: Seq<u8>| r.visible(k) is None,
            r.requests@.len() == 0,
            r.wal.entries@.len() == 0,
            r.manifest_cache@.len() == 0,
            r.negative_cache@.len() == 0,
            r.mutations == 0,
    {
        let r = MemTable {
            requests: Vec::new(),
            wal: Wal::new(),
            manifest_cache: Vec::new(),
            ssts: Vec::new(),
            negative_cache: Vec::new(),
            mutations: 0,
        };
        proof {
            assert(r.ssts_view() =~= Seq::<Seq<Entry>>::empty());
            assert(forall|k: Seq<u8>| #[trigger] tbl_find(r.requests@, k) is None);
            assert(forall|k: Seq<u8>|
                #[trigger] wal_fold_val(r.wal.entries@, k) is None);
        }
        r
    }

    /// Number of distinct keys pending in the memtable.
    pub fn size(&self) -> (n: usize)
        ensures
            n == self.requests@.len(),
    {
        self.requests.len()
    }

    /// Number of live SSTs.
    pub fn sst_count(&self) -> (n: usize)
        ensures
            n == self.ssts@.len(),
    {
        self.ssts.len()
    }

    /// Number of records the WAL holds on disk.
    pub fn wal_len(&self) -> (n: usize)
        ensures
            n == self.wal.count,
            self.wf() ==> n == self.wal.entries@.len(),
    {
        self.wal.count
    }

    /// Three-valued memtable lookup; the engine uses it so a tombstone is
    /// not confused with an unknown key.
    pub fn lookup(&self, key: &Key) -> (r: Lookup)
        ensures
            match r {
                Lookup::Found(v) => tbl_find_val(self.requests@, key@) == Some(Some(v)),
                Lookup::Tombstoned => tbl_find_val(self.requests@, key@) == Some(
                    None::<u32>,
                ),
                Lookup::Absent => tbl_find_val(self.requests@, key@) is None,
            },
    {
        match tbl_lookup_idx(&self.requests, key) {
            Some(i) => {
                match &self.requests[i] {
                    Entry::Put(r) => Lookup::Found(r.value),
                    Entry::Delete { .. } => Lookup::Tombstoned,
                }
            },
            None => Lookup::Absent,
        }
    }
}

/// Newest-first resolution against the SST stack, as the spec chain.
fn sst_scan(ssts: &Vec<Vec<Entry>>, key: &Vec<u8>) -> (r: Option<Option<u32>>)
    ensures
        ({
            let view = ssts@.map_values(|t: Vec<Entry>| t@);
            match r {
                Some(v) => sst_chain_val(view, key@) == Some(v),
                None => sst_chain_val(view, key@) is None,
            }
        }),
{
    let ghost view = ssts@.map_values(|t: Vec<Entry>| t@);
    let mut i: usize = ssts.len();
    proof {
        assert(view.take(view.len() as int) =~= view);
    }
    while i > 0
        invariant
            0 <= i <= ssts@.len(),
            view == ssts@.map_values(|t: Vec<Entry>| t@),
            sst_chain_val(view, key@) == sst_chain_val(view.take(i as int), key@),
        decreases i,
    {
        i = i - 1;
        match tbl_lookup_idx(&ssts[i], key) {
            Some(j) => {
                proof {
                    assert(view.take(i + 1).last() == view[i as int]);
                    assert(view.take(i + 1).drop_last() =~= view.take(i as int));
                }
                match &ssts[i][j] {
                    Entry::Put(r) => {
                        return Some(Some(r.value));
                    },
                    Entry::Delete { .. } => {
                        return Some(None);
                    },
                }
            },
            None => {
                proof {
                    assert(view.take(i + 1).last() == view[i as int]);
                    assert(view.take(i + 1).drop_last() =~= view.take(i as int));
                }
            },
        }
    }
    proof {
        assert(view.take(0) =~= Seq::<Seq<Entry>>::empty());
    }
    None
}

/// True when some cached key equals `key`.
fn neg_contains(v: &Vec<Vec<u8>>, key: &Vec<u8>) -> (r: bool)
    ensures
        r <==> exists|i: int| 0 <= i < v@.len() && #[trigger] v@[i]@ == key@,
{
    let mut i: usize = 0;
    while i < v.len()
        invariant
            0 <= i <= v@.len(),
            forall|m: int| 0 <= m < i ==> #[trigger] v@[m]@ != key@,
        decreases v@.len() - i,
    {
        let hit = match key_cmp(&v[i], key) {
            KeyCmp::Equal => true,
            _ => false,
        };
        if hit {
            return true;
        }
        i = i + 1;
    }
    false
}

/// Drop every cached occurrence of `key`, keeping the other keys in
/// order.
fn neg_remove(v: &mut Vec<Vec<u8>>, key: &Vec<u8>)
    ensures
        forall|i: int| 0 <= i < final(v)@.len() ==> #[trigger] final(v)@[i]@ != key@,
        forall|i: int|
            0 <= i < final(v)@.len() ==> old(v)@.contains(#[trigger] final(v)@[i]),
        neg_model(final(v)@) == drop_key(neg_model(old(v)@), key@),
{
    let ghost orig = v@;
    let ghost om = neg_model(orig);
    let mut kept: Vec<Vec<u8>> = Vec::new();
    let ghost mut p: int = 0;
    proof {
        assert(om.take(0) =~= Seq::<Seq<u8>>::empty());
        assert(drop_key(om.take(0), key@) =~= Seq::<Seq<u8>>::empty());
        assert(neg_model(kept@) =~= Seq::<Seq<u8>>::empty());
    }
    while v.len() > 0
        invariant
            0 <= p <= orig.len(),
            v@ == orig.skip(p),
            om == neg_model(orig),
            forall|i: int| 0 <= i < kept@.len() ==> #[trigger] kept@[i]@ != key@,
            forall|i: int| 0 <= i < kept@.len() ==> orig.contains(#[trigger] kept@[i]),
            neg_model(kept@) == drop_key(om.take(p), key@),
        decreases v@.len(),
    {
        let x = v.remove(0);
        proof {
            assert(x == orig[p]);
            assert(orig.skip(p).drop_first() =~= orig.skip(p + 1));
            assert(om.take(p + 1) =~= om.take(p).push(x@));
            lemma_drop_key_push(om.take(p), x@, key@);
        }
        let same = match key_cmp(&x, key) {
            KeyCmp::Equal => true,
            _ => false,
        };
        let ghost keptb = kept@;
        if !same {
            kept.push(x);
            proof {
                assert(neg_model(kept@) =~= neg_model(keptb).push(x@));
            }
        }
        proof {
            p = p + 1;
        }
    }
    proof {
        assert(om.take(om.len() as int) =~= om);
    }
    std::mem::swap(v, &mut kept);
}

/// Filtering distributes over appending one key.
proof fn lemma_drop_key_push(s: Seq<Seq<u8>>, x: Seq<u8>, k: Seq<u8>)
    ensures
        x != k ==> drop_key(s.push(x), k) == drop_key(s, k).push(x),
        x == k ==> drop_key(s.push(x), k) == drop_key(s, k),
{
    reveal(Seq::filter);
    assert(s.push(x).drop_last() =~= s);
    assert(s.push(x).last() == x);
}

impl MemTable {
    /// The memtable, its WAL mirror and the new SST after the memtable is
    /// drained: the pending entries move, sorted, into a new youngest SST
    /// referenced by a freshly published manifest, and the WAL empties.
    fn flush(&mut self, ops: &mut Vec<FsOp>)
        requires
            old(self).wf(),
            old(self).requests@.len() > 0,
            old(self).max_id() < ID_LIMIT,
        ensures
            final(self).wf(),
            forall|k: Seq<u8>| final(self).visible(k) == old(self).visible(k),
            final(self).requests@.len() == 0,
            final(self).wal.entries@.len() == 0,
            final(self).wal.count == 0,
            final(self).manifest_cache@ == old(self).manifest_cache@.push(
                (old(self).max_id() + 1) as u64,
            ),
            final(self).ssts@.len() == old(self).ssts@.len() + 1,
            final(self).ssts@.drop_last() == old(self).ssts@,
            final(self).ssts@.last()@ == old(self).requests@,
            final(self).negative_cache == old(self).negative_cache,
            final(self).mutations == old(self).mutations,
            final(ops)@.len() == old(ops)@.len() + 3,
            final(ops)@.subrange(0, old(ops)@.len() as int) == old(ops)@,
            is_write_sst(
                final(ops)@[old(ops)@.len() as int],
                (old(self).max_id() + 1) as u64,
                old(self).requests@,
            ),
            is_publish_manifest(
                final(ops)@[old(ops)@.len() + 1 as int],
                final(self).manifest_cache@,
            ),
            final(ops)@[old(ops)@.len() + 2 as int] is TruncateWal,
    {
        let id: u64 = if self.manifest_cache.len() == 0 {
            1
        } else {
            self.manifest_cache[self.manifest_cache.len() - 1] + 1
        };
        let path = crate::codec::path_of(id);
        let mut sst: Vec<Entry> = Vec::new();
        std::mem::swap(&mut self.requests, &mut sst);
        let content = crate::codec::encode_sst(&sst);
        ops.push(FsOp::WriteSst { path, content });
        self.ssts.push(sst);
        self.manifest_cache.push(id);
        let mbytes = crate::codec::encode_manifest(&self.manifest_cache);
        ops.push(FsOp::PublishManifest(mbytes));
        self.wal.reset();
        ops.push(FsOp::TruncateWal);
        proof {
            let pre = *old(self);
            let post = *final(self);
            assert(post.ssts_view() =~= pre.ssts_view().push(pre.requests@));
            assert(post.ssts_view().last() == pre.requests@);
            assert(post.ssts_view().drop_last() =~= pre.ssts_view());
            assert(post.ssts@.drop_last() =~= pre.ssts@);
            assert(post.requests@ =~= Seq::<Entry>::empty());
            assert forall|k: Seq<u8>| post.visible(k) == pre.visible(k) by {
                assert(tbl_find(post.requests@, k) is None);
                assert(sst_chain_val(post.ssts_view(), k) == match tbl_find(
                    pre.requests@,
                    k,
                ) {
                    Some(e) => Some(val_of(e)),
                    None => sst_chain_val(pre.ssts_view(), k),
                });
            }
            assert forall|k: Seq<u8>|
                #[trigger] tbl_find_val(post.requests@, k) == wal_fold_val(
                post.wal.entries@,
                k,
            ) by {
                assert(tbl_find(post.requests@, k) is None);
            }
            assert(post.manifest_cache@.last() == id);
            assert(final(ops)@.subrange(0, old(ops)@.len() as int) =~= old(ops)@);
        }
    }

    /// Upsert a key. Returns the ordered effects: the WAL record to
    /// append and fsync first, then whatever a triggered flush or
    /// compaction must write; `write_outcome` enumerates them all.
    #[verifier::rlimit(100)]
    #[verifier::spinoff_prover]
    pub fn put(&mut self, key: Key, value: Value) -> (ops: Vec<FsOp>)
        requires
            old(self).wf(),
            key@.len() > 0,
            old(self).wal.count < usize::MAX,
        ensures
            final(self).wf(),
            put_transition(*old(self), *final(self), key@, value),
            write_outcome(*old(self), *final(self), ops@, key@, Some(value)),
            neg_model(final(self).negative_cache@) == drop_key(
                neg_model(old(self).negative_cache@),
                key@,
            ),
    {
        let line = self.wal.put(&key, value);
        let mut ops: Vec<FsOp> = Vec::new();
        ops.push(FsOp::AppendWal(line));
        neg_remove(&mut self.negative_cache, &key);
        let ghost pre = *old(self);
        let ghost kview = key@;
        tbl_insert(&mut self.requests, Entry::put(key, value));
        proof {
            self.lemma_upsert_wf(pre, kview, Some(value));
        }
        let ghost mid = *self;
        let ghost ops0 = ops@;
        self.after_write(&mut ops);
        proof {
            assert(ops@.subrange(0, ops0.len() as int) == ops0);
            assert(ops@[0] == ops@.subrange(0, ops0.len() as int)[0]);
            self.lemma_write_outcome(pre, mid, ops@, kview, Some(value));
        }
        ops
    }
    /// Delete a key: log and install a tombstone, then remember the key
    /// in the negative cache.
    #[verifier::rlimit(100)]
    #[verifier::spinoff_prover]
    pub fn delete(&mut self, key: Key) -> (ops: Vec<FsOp>)
        requires
            old(self).wf(),
            key@.len() > 0,
            old(self).wal.count < usize::MAX,
        ensures
            final(self).wf(),
            delete_transition(*old(self), *final(self), key@),
            write_outcome(*old(self), *final(self), ops@, key@, None),
            neg_model(final(self).negative_cache@) == (if neg_model(
                old(self).negative_cache@,
            ).contains(key@) {
                neg_model(old(self).negative_cache@)
            } else {
                neg_model(old(self).negative_cache@).push(key@)
            }),
    {
        let line = self.wal.delete(&key);
        let mut ops: Vec<FsOp> = Vec::new();
        ops.push(FsOp::AppendWal(line));
        let ghost pre = *old(self);
        let ghost kview = key@;
        let cached = neg_contains(&self.negative_cache, &key);
        proof {
            assert(cached == neg_model(pre.negative_cache@).contains(kview)) by {
                if cached {
                    let i = choose|i: int|
                        0 <= i < pre.negative_cache@.len()
                            && #[trigger] pre.negative_cache@[i]@ == kview;
                    assert(neg_model(pre.negative_cache@)[i] == kview);
                } else {
                    if neg_model(pre.negative_cache@).contains(kview) {
                        let i = choose|i: int|
                            0 <= i < neg_model(pre.negative_cache@).len()
                                && neg_model(pre.negative_cache@)[i] == kview;
                        assert(pre.negative_cache@[i]@ == kview);
                    }
                }
            }
        }
        if !cached {
            let key_copy = copy_key(&key);
            let ghost negb = self.negative_cache@;
            self.negative_cache.push(key_copy);
            proof {
                assert(neg_model(self.negative_cache@) =~= neg_model(negb).push(kview));
            }
        }
        tbl_insert(&mut self.requests, Entry::delete(key));
        proof {
            self.lemma_upsert_wf(pre, kview, None);
        }
        let ghost mid = *self;
        let ghost ops0 = ops@;
        self.after_write(&mut ops);
        proof {
            assert(ops@.subrange(0, ops0.len() as int) == ops0);
            assert(ops@[0] == ops@.subrange(0, ops0.len() as int)[0]);
            self.lemma_write_outcome(pre, mid, ops@, kview, None);
        }
        ops
    }

    /// Translate `after_write`'s contract, stated over the state with the
    /// entry already installed, into the pre-state `write_outcome`.
    proof fn lemma_write_outcome(
        self,
        pre: MemTable,
        mid: MemTable,
        ops: Seq<FsOp>,
        k: Seq<u8>,
        v: Option<u32>,
    )
        requires
            pre.wf(),
            // how the upsert changed `pre` into `mid`
            tbl_sorted(mid.requests@),
            tbl_find_val(mid.requests@, k) == Some(v),
            forall|k2: Seq<u8>|
                k2 != k ==> #[trigger] tbl_find_val(mid.requests@, k2) == tbl_find_val(
                    pre.requests@,
                    k2,
                ),
            mid.requests@.len() == grown_size(pre, k),
            mid.wal.entries@.len() == pre.wal.entries@.len() + 1,
            mid.manifest_cache == pre.manifest_cache,
            mid.ssts == pre.ssts,
            mid.mutations == pre.mutations,
            // what `after_write` guarantees of `self` against `mid`
            ops.len() >= 1,
            is_wal_append(ops[0], k, v),
            ({
                let f = mid.requests@.len() >= FLUSH_THRESHOLD && mid.max_id() < ID_LIMIT;
                let cc = mid.mutations + 1 >= COMPACTION_THRESHOLD && (if f {
                    mid.max_id() + 1 + (total_len(mid.ssts_view())
                        + mid.requests@.len()) + 1 <= ID_LIMIT
                } else {
                    mid.compact_ok()
                });
                let mid_manifest = if f {
                    mid.manifest_cache@.push((mid.max_id() + 1) as u64)
                } else {
                    mid.manifest_cache@
                };
                &&& (f <==> self.requests@.len() == 0)
                &&& (f ==> self.wal.entries@.len() == 0 && flush_ops_at(1, ops, mid))
                &&& (!f ==> self.requests == mid.requests && self.wal == mid.wal)
                &&& self.mutations == (if cc {
                    0int
                } else if mid.mutations < COMPACTION_THRESHOLD {
                    mid.mutations + 1
                } else {
                    mid.mutations as int
                })
                &&& (!cc ==> ({
                    &&& ops.len() == 1 + (if f {
                        3int
                    } else {
                        0int
                    })
                    &&& (f ==> ({
                        &&& self.ssts@.len() == mid.ssts@.len() + 1
                        &&& self.ssts@.drop_last() == mid.ssts@
                        &&& self.ssts@.last()@ == mid.requests@
                        &&& self.manifest_cache@ == mid_manifest
                    }))
                    &&& (!f ==> self.ssts == mid.ssts && self.manifest_cache
                        == mid.manifest_cache)
                }))
                &&& (cc ==> ({
                    &&& (forall|g: int, j: int|
                        0 <= g < self.ssts@.len() && 0 <= j < self.ssts@[g]@.len()
                            ==> val_of(#[trigger] self.ssts@[g]@[j]) is Some)
                    &&& compact_ops_at(
                        1 + (if f {
                            3int
                        } else {
                            0int
                        }),
                        ops,
                        self,
                        mid_manifest,
                    )
                }))
            }),
        ensures
            write_outcome(pre, self, ops, k, v),
    {
        assert(mid.ssts_view() =~= pre.ssts_view());
        assert(mid.max_id() == pre.max_id());
        let f = flush_fires(pre, k);
        let cc = compact_commits(pre, k);
        assert(f == (mid.requests@.len() >= FLUSH_THRESHOLD && mid.max_id() < ID_LIMIT));
        assert(cc == (mid.mutations + 1 >= COMPACTION_THRESHOLD && (if f {
            mid.max_id() + 1 + (total_len(mid.ssts_view()) + mid.requests@.len()) + 1
                <= ID_LIMIT
        } else {
            mid.compact_ok()
        })));
        assert(drained_table(mid.requests@, pre, k, v));
        if f {
            assert(is_write_sst(ops[1], (mid.max_id() + 1) as u64, mid.requests@));
            assert(flush_write_op(ops[1], pre, k, v)) by {
                match ops[1] {
                    FsOp::WriteSst { path, content } => {
                        assert(content@ == enc_sst(mid.requests@));
                    },
                    _ => {
                        assert(false);
                    },
                }
            }
            if !cc {
                assert(drained_table(self.ssts@.last()@, pre, k, v));
            }
        }
    }
    /// Re-establish well-formedness after one WAL append plus the matching
    /// memtable upsert (and, for a delete, a negative-cache insert).
    proof fn lemma_upsert_wf(self, pre: MemTable, key: Seq<u8>, v: Option<u32>)
        requires
            pre.wf(),
            tbl_sorted(self.requests@),
            tbl_find_val(self.requests@, key) == Some(v),
            forall|k: Seq<u8>|
                k != key ==> #[trigger] tbl_find_val(self.requests@, k) == tbl_find_val(
                    pre.requests@,
                    k,
                ),
            self.wal.entries@.len() == pre.wal.entries@.len() + 1,
            self.wal.count == pre.wal.count + 1,
            self.wal.entries@.drop_last() == pre.wal.entries@,
            key_of(self.wal.entries@.last()) == key,
            val_of(self.wal.entries@.last()) == v,
            self.manifest_cache == pre.manifest_cache,
            self.ssts == pre.ssts,
            self.mutations == pre.mutations,
            forall|i: int|
                0 <= i < self.negative_cache@.len() ==> (#[trigger] self.negative_cache@[i]@
                    == key && v is None) || (self.negative_cache@[i]@ != key
                    && pre.negative_cache@.contains(self.negative_cache@[i])),
        ensures
            self.wf(),
            self.visible(key) == v,
            forall|k: Seq<u8>| k != key ==> self.visible(k) == pre.visible(k),
    {
        assert(self.ssts_view() =~= pre.ssts_view());
        assert forall|k: Seq<u8>|
            #[trigger] tbl_find_val(self.requests@, k) == wal_fold_val(
            self.wal.entries@,
            k,
        ) by {
            if k == key {
                assert(wal_fold_val(self.wal.entries@, k) == Some(v));
            } else {
                assert(wal_fold_val(self.wal.entries@, k) == wal_fold_val(
                    pre.wal.entries@,
                    k,
                ));
            }
        }
        assert forall|k: Seq<u8>| k != key implies self.visible(k) == pre.visible(k) by {
            assert(tbl_find_val(self.requests@, k) == tbl_find_val(pre.requests@, k));
        }
        assert(self.visible(key) == v);
        assert forall|i: int|
            0 <= i < self.negative_cache@.len() implies self.visible(
            #[trigger] self.negative_cache@[i]@,
        ) is None by {
            let kc = self.negative_cache@[i];
            if kc@ == key && v is None {
            } else {
                assert(pre.negative_cache@.contains(kc));
                let j = choose|j: int|
                    0 <= j < pre.negative_cache@.len() && pre.negative_cache@[j] == kc;
                assert(pre.visible(kc@) is None);
            }
        }
    }

    /// The size-triggered flush and the counter-triggered compaction that
    /// follow a mutation. `old(self)` here is the state with the new entry
    /// already installed.
    #[verifier::rlimit(100)]
    #[verifier::spinoff_prover]
    fn after_write(&mut self, ops: &mut Vec<FsOp>)
        requires
            old(self).wf(),
            old(self).requests@.len() > 0,
        ensures
            final(self).wf(),
            forall|k: Seq<u8>| final(self).visible(k) == old(self).visible(k),
            final(ops)@.len() >= old(ops)@.len(),
            final(ops)@.subrange(0, old(ops)@.len() as int) == old(ops)@,
            final(self).negative_cache == old(self).negative_cache,
            ({
                let f = old(self).requests@.len() >= FLUSH_THRESHOLD && old(self).max_id()
                    < ID_LIMIT;
                let cc = old(self).mutations + 1 >= COMPACTION_THRESHOLD && (if f {
                    old(self).max_id() + 1 + (total_len(old(self).ssts_view())
                        + old(self).requests@.len()) + 1 <= ID_LIMIT
                } else {
                    old(self).compact_ok()
                });
                let b = old(ops)@.len() as int;
                let mid_manifest = if f {
                    old(self).manifest_cache@.push((old(self).max_id() + 1) as u64)
                } else {
                    old(self).manifest_cache@
                };
                &&& (f <==> final(self).requests@.len() == 0)
                &&& (f ==> final(self).wal.entries@.len() == 0 && flush_ops_at(
                    b,
                    final(ops)@,
                    *old(self),
                ))
                &&& (!f ==> final(self).requests == old(self).requests && final(self).wal
                    == old(self).wal)
                &&& final(self).mutations == (if cc {
                    0int
                } else if old(self).mutations < COMPACTION_THRESHOLD {
                    old(self).mutations + 1
                } else {
                    old(self).mutations as int
                })
                &&& (!cc ==> ({
                    &&& final(ops)@.len() == b + (if f {
                        3int
                    } else {
                        0int
                    })
                    &&& (f ==> ({
                        &&& final(self).ssts@.len() == old(self).ssts@.len() + 1
                        &&& final(self).ssts@.drop_last() == old(self).ssts@
                        &&& final(self).ssts@.last()@ == old(self).requests@
                        &&& final(self).manifest_cache@ == mid_manifest
                    }))
                    &&& (!f ==> final(self).ssts == old(self).ssts
                        && final(self).manifest_cache == old(self).manifest_cache)
                }))
                &&& (cc ==> ({
                    &&& (forall|g: int, j: int|
                        0 <= g < final(self).ssts@.len()
                            && 0 <= j < final(self).ssts@[g]@.len() ==> val_of(
                            #[trigger] final(self).ssts@[g]@[j],
                        ) is Some)
                    &&& compact_ops_at(
                        b + (if f {
                            3int
                        } else {
                            0int
                        }),
                        final(ops)@,
                        *final(self),
                        mid_manifest,
                    )
                }))
            }),
    {
        let flush_ok = if self.manifest_cache.len() == 0 {
            true
        } else {
            self.manifest_cache[self.manifest_cache.len() - 1] < ID_LIMIT
        };
        let ghost mid = *old(self);
        if self.requests.len() >= FLUSH_THRESHOLD && flush_ok {
            self.flush(ops);
        }
        let ghost s1 = *self;
        let ghost opsb = ops@;
        proof {
            assert(opsb.subrange(0, old(ops)@.len() as int) == old(ops)@);
            // after a flush the id space seen by the compactor has moved
            // by exactly the drained entries
            if mid.requests@.len() >= FLUSH_THRESHOLD && mid.max_id() < ID_LIMIT {
                assert(s1.ssts_view() =~= mid.ssts_view().push(mid.requests@)) by {
                    assert(forall|i: int|
                        0 <= i < mid.ssts@.len() ==> #[trigger] s1.ssts@[i]
                            == mid.ssts@[i]);
                }
                assert(s1.max_id() == mid.max_id() + 1);
                assert(total_len(s1.ssts_view()) == total_len(mid.ssts_view())
                    + mid.requests@.len()) by {
                    assert(s1.ssts_view().drop_last() =~= mid.ssts_view());
                    assert(s1.ssts_view().last() == mid.requests@);
                }
            } else {
                assert(s1 == mid);
            }
        }
        if self.mutations < COMPACTION_THRESHOLD {
            self.mutations = self.mutations + 1;
        }
        let ghost s2 = *self;
        if self.mutations == COMPACTION_THRESHOLD {
            let mut cops = self.compact();
            let ghost cview = cops@;
            proof {
                assert(ops@ == opsb + cview.take(0)) by {
                    assert(opsb + cview.take(0) =~= opsb);
                }
            }
            while cops.len() > 0
                invariant
                    cops@.len() <= cview.len(),
                    ops@ == opsb + cview.take(cview.len() - cops@.len()),
                    cops@ == cview.skip(cview.len() - cops@.len()),
                decreases cops@.len(),
            {
                let ghost m = cview.len() - cops@.len();
                let op = cops.remove(0);
                proof {
                    assert(op == cview.skip(m as int)[0]);
                    assert(op == cview[m as int]);
                    assert(cview.skip(m as int).drop_first() =~= cview.skip(m + 1));
                }
                ops.push(op);
                proof {
                    assert(ops@ =~= opsb + cview.take(m + 1)) by {
                        assert((opsb + cview.take(m as int)).push(cview[m as int])
                            =~= opsb + cview.take(m + 1));
                    }
                }
            }
            proof {
                assert(cview.take(cview.len() as int) =~= cview);
                assert(ops@ == opsb + cview);
                let base = opsb.len() as int;
                if s1.compact_ok() {
                    let n = self.ssts@.len() as int;
                    let d = s1.ssts@.len() as int;
                    assert(s2.manifest_cache == s1.manifest_cache);
                    assert(s2.ssts == s1.ssts);
                    assert(d == s1.manifest_cache@.len());
                    assert forall|c: int| 0 <= c < n implies is_write_sst(
                        #[trigger] ops@[base + c],
                        self.manifest_cache@[c],
                        self.ssts@[c]@,
                    ) by {
                        assert(ops@[base + c] == cview[c]);
                    }
                    assert(is_publish_manifest(ops@[base + n], self.manifest_cache@))
                        by {
                        assert(ops@[base + n] == cview[n]);
                    }
                    assert forall|d2: int| 0 <= d2 < d implies is_delete_sst(
                        #[trigger] ops@[base + n + 1 + d2],
                        s1.manifest_cache@[d2],
                    ) by {
                        assert(ops@[base + n + 1 + d2] == cview[n + 1 + d2]);
                    }
                    assert(ops@.len() == base + n + 1 + d);
                    assert(compact_ops_at(base, ops@, *self, s1.manifest_cache@));
                }
            }
        } else {
            proof {
                assert(ops@ =~= opsb + Seq::<FsOp>::empty());
            }
        }
        proof {
            let post = *self;
            let f = mid.requests@.len() >= FLUSH_THRESHOLD && mid.max_id() < ID_LIMIT;
            let cc = mid.mutations + 1 >= COMPACTION_THRESHOLD && (if f {
                mid.max_id() + 1 + (total_len(mid.ssts_view()) + mid.requests@.len()) + 1
                    <= ID_LIMIT
            } else {
                mid.compact_ok()
            });
            let b = old(ops)@.len() as int;
            assert(forall|m: int|
                0 <= m < opsb.len() ==> #[trigger] ops@[m] == opsb[m]);
            assert(ops@.subrange(0, opsb.len() as int) =~= opsb);
            assert(ops@.subrange(0, old(ops)@.len() as int) =~= old(ops)@) by {
                assert(forall|m: int|
                    0 <= m < old(ops)@.len() ==> opsb[m] == #[trigger] opsb.subrange(
                        0,
                        old(ops)@.len() as int,
                    )[m]);
            }
            // the compaction commits exactly under the id-space bound
            // computed from the state the flush left behind
            let called = s2.mutations == COMPACTION_THRESHOLD;
            assert(called <==> mid.mutations + 1 >= COMPACTION_THRESHOLD);
            assert(s1.compact_ok() <==> (if f {
                mid.max_id() + 1 + (total_len(mid.ssts_view()) + mid.requests@.len()) + 1
                    <= ID_LIMIT
            } else {
                mid.compact_ok()
            }));
            assert(opsb.len() == b + (if f {
                3int
            } else {
                0int
            }));
            if f {
                assert(flush_ops_at(b, opsb, mid));
                assert(flush_ops_at(b, ops@, mid)) by {
                    assert(ops@[b] == opsb[b]);
                    assert(ops@[b + 1] == opsb[b + 1]);
                    assert(ops@[b + 2] == opsb[b + 2]);
                }
            }
            if cc {
                // compact committed: its contract describes the tail of ops
                assert(called && s1.compact_ok());
                assert(post.mutations == 0);
                let base = opsb.len() as int;
                let n = post.ssts@.len() as int;
                let d = s1.ssts@.len() as int;
                assert(d == mid.ssts@.len() + (if f {
                    1int
                } else {
                    0int
                }));
                assert(s1.manifest_cache@ == (if f {
                    mid.manifest_cache@.push((mid.max_id() + 1) as u64)
                } else {
                    mid.manifest_cache@
                }));
                assert(ops@.len() == base + n + 1 + d);
            } else {
                // no committed compaction: the state and effects are the
                // flush's (or unchanged)
                if called {
                    assert(!s1.compact_ok());
                    assert(post.ssts == s1.ssts);
                    assert(post.manifest_cache == s1.manifest_cache);
                    assert(ops@.len() == opsb.len());
                    assert(ops@ =~= opsb);
                } else {
                    assert(ops@ =~= opsb);
                }
                assert(post.mutations == (if mid.mutations < COMPACTION_THRESHOLD {
                    mid.mutations + 1
                } else {
                    mid.mutations as int
                }));
            }
        }
    }
}

impl MemTable {
    /// Point lookup: the memtable answer wins; a confirmed miss is
    /// remembered in the negative cache so later reads of the same absent
    /// key skip the SST scan.
    pub fn get(&mut self, key: &Key) -> (r: Option<Value>)
        requires
            old(self).wf(),
        ensures
            final(self).wf(),
            r == old(self).visible(key@),
            read_only(*old(self), *final(self)),
            final(self).requests == old(self).requests,
            final(self).wal == old(self).wal,
            final(self).manifest_cache == old(self).manifest_cache,
            final(self).ssts == old(self).ssts,
            final(self).mutations == old(self).mutations,
            neg_model(final(self).negative_cache@) == (if confirmed_miss(
                *old(self),
                key@,
            ) {
                neg_model(old(self).negative_cache@).push(key@)
            } else {
                neg_model(old(self).negative_cache@)
            }),
    {
        match self.lookup(key) {
            Lookup::Found(v) => {
                proof {
                    assert(!confirmed_miss(*old(self), key@));
                }
                return Some(v);
            },
            Lookup::Tombstoned => {
                proof {
                    assert(!confirmed_miss(*old(self), key@));
                }
                return None;
            },
            Lookup::Absent => {},
        }
        if neg_contains(&self.negative_cache, key) {
            proof {
                let i = choose|i: int|
                    0 <= i < self.negative_cache@.len()
                        && #[trigger] self.negative_cache@[i]@ == key@;
                assert(self.visible(self.negative_cache@[i]@) is None);
                assert(neg_model(self.negative_cache@)[i] == key@);
                assert(!confirmed_miss(*old(self), key@));
            }
            return None;
        }
        proof {
            assert(!neg_model(self.negative_cache@).contains(key@)) by {
                if neg_model(self.negative_cache@).contains(key@) {
                    let i = choose|i: int|
                        0 <= i < neg_model(self.negative_cache@).len() && neg_model(
                            self.negative_cache@,
                        )[i] == key@;
                    assert(self.negative_cache@[i]@ == key@);
                }
            }
        }
        let ghost pre = *old(self);
        match sst_scan(&self.ssts, key) {
            Some(v) => {
                proof {
                    assert(!confirmed_miss(*old(self), key@));
                }
                v
            },
            None => {
                proof {
                    assert(confirmed_miss(*old(self), key@));
                }
                let ghost negb = self.negative_cache@;
                let key_copy = copy_key(key);
                self.negative_cache.push(key_copy);
                proof {
                    assert(neg_model(self.negative_cache@) =~= neg_model(negb).push(
                        key@,
                    ));
                }
                proof {
                    assert(self.ssts_view() =~= pre.ssts_view());
                    assert(self.visible(key@) is None);
                    assert forall|i: int|
                        0 <= i < self.negative_cache@.len() implies self.visible(
                        #[trigger] self.negative_cache@[i]@,
                    ) is None by {
                        if i < pre.negative_cache@.len() {
                            assert(self.negative_cache@[i]
                                == pre.negative_cache@[i]);
                            assert(pre.visible(pre.negative_cache@[i]@) is None);
                        } else {
                            assert(self.negative_cache@[i]@ == key@);
                        }
                    }
                }
                None
            },
        }
    }
}

// ---------------------------------------------------------------------------
// Compaction: a newest-wins merge of all live SSTs into a fresh
// generation, dropping tombstones (safe because every live SST takes
// part, so there is no older data left to shadow).
// ---------------------------------------------------------------------------
/// Total number of entries across a stack of SSTs.
pub open spec fn total_len(ssts: Seq<Seq<Entry>>) -> int
    decreases ssts.len(),
{
    if ssts.len() == 0 {
        0
    } else {
        total_len(ssts.drop_last()) + ssts.last().len()
    }
}

/// Keep only values a read can still observe: a found put survives, a
/// found tombstone becomes an absence.
pub open spec fn put_only(o: Option<Option<u32>>) -> Option<Option<u32>> {
    match o {
        Some(vo) => if vo is Some {
            Some(vo)
        } else {
            None
        },
        None => None,
    }
}

/// Concatenation of a stack of SSTs, oldest first.
pub open spec fn flat_of(cs: Seq<Seq<Entry>>) -> Seq<Entry>
    decreases cs.len(),
{
    if cs.len() == 0 {
        Seq::empty()
    } else {
        flat_of(cs.drop_last()) + cs.last()
    }
}

proof fn lemma_chain_push(ts: Seq<Seq<Entry>>, t: Seq<Entry>, k: Seq<u8>)
    ensures
        sst_chain_val(ts.push(t), k) == match tbl_find(t, k) {
            Some(e) => Some(val_of(e)),
            None => sst_chain_val(ts, k),
        },
{
    assert(ts.push(t).last() == t);
    assert(ts.push(t).drop_last() =~= ts);
}

/// In a sorted table no earlier entry shares the key of the entry at `j`.
proof fn lemma_sorted_prefix_no_key(s: Seq<Entry>, j: int)
    requires
        tbl_sorted(s),
        0 <= j < s.len(),
    ensures
        tbl_find(s.take(j), key_of(s[j])) is None,
{
    let k = key_of(s[j]);
    assert forall|m: int| 0 <= m < j implies key_of(#[trigger] s.take(j)[m]) != k by {
        assert(s.take(j)[m] == s[m]);
        lemma_lex_asym(key_of(s[m]), k);
    }
    lemma_tbl_find_none(s.take(j), k);
}

proof fn lemma_total_len_take(ssts: Seq<Seq<Entry>>, g: int)
    requires
        0 <= g <= ssts.len(),
    ensures
        total_len(ssts.take(g)) <= total_len(ssts),
        total_len(ssts) >= 0,
    decreases ssts.len() - g,
{
    if g < ssts.len() {
        lemma_total_len_take(ssts, g + 1);
        assert(ssts.take(g + 1).drop_last() =~= ssts.take(g));
        assert(ssts.take(g + 1).last() == ssts[g]);
    } else {
        assert(ssts.take(g) =~= ssts);
        lemma_total_len_nonneg(ssts);
    }
}

proof fn lemma_total_len_nonneg(ssts: Seq<Seq<Entry>>)
    ensures
        total_len(ssts) >= 0,
    decreases ssts.len(),
{
    if ssts.len() > 0 {
        lemma_total_len_nonneg(ssts.drop_last());
    }
}

/// Fold every SST, oldest to newest, into one sorted table; later
/// generations overwrite earlier ones, so the result binds each key to
/// its newest entry -- exactly what the newest-first chain reads.
fn merge_all(sources: Vec<Vec<Entry>>) -> (acc: Vec<Entry>)
    requires
        forall|g: int| 0 <= g < sources@.len() ==> tbl_sorted(#[trigger] sources@[g]@),
    ensures
        tbl_sorted(acc@),
        forall|k: Seq<u8>|
            #[trigger] tbl_find_val(acc@, k) == sst_chain_val(
                sources@.map_values(|t: Vec<Entry>| t@),
                k,
            ),
        acc@.len() <= total_len(sources@.map_values(|t: Vec<Entry>| t@)),
{
    let ghost view = sources@.map_values(|t: Vec<Entry>| t@);
    let mut sources = sources;
    let mut acc: Vec<Entry> = Vec::new();
    let ghost mut g: int = 0;
    proof {
        assert(view.take(0) =~= Seq::<Seq<Entry>>::empty());
        lemma_total_len_take(view, 0);
    }
    while sources.len() > 0
        invariant
            0 <= g <= view.len(),
            sources@.len() == view.len() - g,
            forall|m: int|
                0 <= m < sources@.len() ==> #[trigger] sources@[m]@ == view[g + m],
            forall|m: int| 0 <= m < sources@.len() ==> tbl_sorted(#[trigger] sources@[m]@),
            tbl_sorted(acc@),
            forall|k: Seq<u8>|
                #[trigger] tbl_find_val(acc@, k) == sst_chain_val(view.take(g), k),
            acc@.len() <= total_len(view.take(g)),
        decreases sources@.len(),
    {
        let mut cur = sources.remove(0);
        proof {
            assert(cur@ == view[g]);
        }
        let ghost full = cur@;
        let ghost mut j: int = 0;
        proof {
            assert(full.take(0) =~= Seq::<Entry>::empty());
            assert(view.take(g).push(full.take(0)).drop_last() =~= view.take(g));
            assert forall|k: Seq<u8>|
                #[trigger] tbl_find_val(acc@, k) == sst_chain_val(
                view.take(g).push(full.take(0)),
                k,
            ) by {
                lemma_chain_push(view.take(g), full.take(0), k);
            }
        }
        while cur.len() > 0
            invariant
                0 <= j <= full.len(),
                cur@ == full.skip(j),
                tbl_sorted(full),
                tbl_sorted(acc@),
                forall|k: Seq<u8>|
                    #[trigger] tbl_find_val(acc@, k) == sst_chain_val(
                        view.take(g).push(full.take(j)),
                        k,
                    ),
                acc@.len() <= total_len(view.take(g)) + j,
                0 <= g <= view.len(),
            decreases cur@.len(),
        {
            let e = cur.remove(0);
            proof {
                assert(e == full[j]);
                assert(full.skip(j).drop_first() =~= full.skip(j + 1));
            }
            let ghost accb = acc@;
            tbl_insert(&mut acc, e);
            proof {
                assert(full.take(j + 1) =~= full.take(j).push(full[j]));
                lemma_sorted_prefix_no_key(full, j);
                assert forall|k: Seq<u8>|
                    #[trigger] tbl_find_val(acc@, k) == sst_chain_val(
                    view.take(g).push(full.take(j + 1)),
                    k,
                ) by {
                    lemma_chain_push(view.take(g), full.take(j + 1), k);
                    lemma_chain_push(view.take(g), full.take(j), k);
                    lemma_tbl_find_append(full.take(j), seq![full[j]], k);
                    assert(full.take(j) + seq![full[j]] =~= full.take(j + 1));
                    if k == key_of(e) {
                        assert((seq![full[j]])[0] == full[j]);
                        assert(tbl_find(seq![full[j]], k) == Some(full[j]));
                        assert(tbl_find(full.take(j + 1), k) == Some(full[j]));
                    } else {
                        assert((seq![full[j]])[0] == full[j]);
                        assert((seq![full[j]]).drop_first() =~= Seq::<Entry>::empty());
                        assert(tbl_find(Seq::<Entry>::empty(), k) is None);
                        assert(tbl_find(seq![full[j]], k) is None);
                        assert(tbl_find(full.take(j + 1), k) == tbl_find(
                            full.take(j),
                            k,
                        ));
                    }
                }
                j = j + 1;
            }
        }
        proof {
            assert(full.take(full.len() as int) =~= full);
            assert(view.take(g + 1) =~= view.take(g).push(view[g]));
            assert(view.take(g + 1).drop_last() =~= view.take(g));
            assert(view.take(g + 1).last() == view[g]);
            assert(total_len(view.take(g + 1)) == total_len(view.take(g)) + full.len());
            g = g + 1;
        }
    }
    proof {
        assert(view.take(g) =~= view);
    }
    acc
}

/// Drop the tombstones of a sorted table; the surviving bindings are the
/// puts, and every dropped key now reads as absent.
fn filter_puts(src: Vec<Entry>) -> (out: Vec<Entry>)
    requires
        tbl_sorted(src@),
    ensures
        tbl_sorted(out@),
        forall|j: int| 0 <= j < out@.len() ==> val_of(#[trigger] out@[j]) is Some,
        forall|k: Seq<u8>|
            #[trigger] tbl_find_val(out@, k) == put_only(tbl_find_val(src@, k)),
        out@.len() <= src@.len(),
{
    let ghost full = src@;
    let mut src = src;
    let mut out: Vec<Entry> = Vec::new();
    let ghost mut j: int = 0;
    let ghost mut lastidx: int = 0;
    proof {
        assert(full.take(0) =~= Seq::<Entry>::empty());
    }
    while src.len() > 0
        invariant
            0 <= j <= full.len(),
            src@ == full.skip(j),
            tbl_sorted(full),
            tbl_sorted(out@),
            forall|jj: int| 0 <= jj < out@.len() ==> val_of(#[trigger] out@[jj]) is Some,
            forall|k: Seq<u8>|
                #[trigger] tbl_find_val(out@, k) == put_only(
                    tbl_find_val(full.take(j), k),
                ),
            out@.len() <= j,
            out@.len() > 0 ==> 0 <= lastidx < j && out@.last() == full[lastidx],
        decreases src@.len(),
    {
        let e = src.remove(0);
        proof {
            assert(e == full[j]);
            assert(full.skip(j).drop_first() =~= full.skip(j + 1));
            assert(full.take(j + 1) =~= full.take(j) + seq![full[j]]);
            lemma_sorted_prefix_no_key(full, j);
        }
        let keep = e.is_put();
        if keep {
            let ghost outb = out@;
            proof {
                // every key already in `out` sits before `j` in `full`,
                // so it is strictly below e's key
                assert forall|m: int|
                    0 <= m < outb.len() implies lex_lt(
                    key_of(#[trigger] outb[m]),
                    key_of(e),
                ) by {
                    if m < outb.len() - 1 {
                        assert(lex_lt(key_of(outb[m]), key_of(outb.last())));
                        assert(lex_lt(key_of(full[lastidx]), key_of(full[j])));
                        lemma_lex_trans(
                            key_of(outb[m]),
                            key_of(outb.last()),
                            key_of(e),
                        );
                    } else {
                        assert(outb[m] == outb.last());
                        assert(lex_lt(key_of(full[lastidx]), key_of(full[j])));
                    }
                }
            }
            out.push(e);
            proof {
                assert(out@ =~= outb + seq![e]);
                assert forall|m: int, n: int|
                    0 <= m < n < out@.len() implies lex_lt(
                    key_of(#[trigger] out@[m]),
                    key_of(#[trigger] out@[n]),
                ) by {
                    if n < outb.len() {
                        assert(out@[m] == outb[m] && out@[n] == outb[n]);
                    } else {
                        assert(out@[n] == e);
                        assert(out@[m] == outb[m]);
                    }
                }
                assert forall|k: Seq<u8>|
                    #[trigger] tbl_find_val(out@, k) == put_only(
                    tbl_find_val(full.take(j + 1), k),
                ) by {
                    assert(tbl_find_val(outb, k) == put_only(
                        tbl_find_val(full.take(j), k),
                    ));
                    lemma_tbl_find_append(outb, seq![e], k);
                    lemma_tbl_find_append(full.take(j), seq![full[j]], k);
                    assert(out@ == outb + seq![e]);
                    assert(full.take(j + 1) == full.take(j) + seq![full[j]]);
                    assert((seq![e])[0] == e);
                    assert((seq![e]).drop_first() =~= Seq::<Entry>::empty());
                    if k == key_of(e) {
                        assert forall|m: int|
                            0 <= m < outb.len() implies key_of(#[trigger] outb[m])
                            != k by {
                            lemma_lex_asym(key_of(outb[m]), k);
                        }
                        lemma_tbl_find_none(outb, k);
                        assert(tbl_find(out@, k) == Some(e));
                        assert(tbl_find(full.take(j + 1), k) == Some(full[j]));
                    } else {
                        assert(tbl_find(Seq::<Entry>::empty(), k) is None);
                        assert(tbl_find(seq![e], k) is None);
                        assert(tbl_find(out@, k) == tbl_find(outb, k));
                        assert(tbl_find(full.take(j + 1), k) == tbl_find(
                            full.take(j),
                            k,
                        ));
                    }
                }
                lastidx = j;
                j = j + 1;
            }
        } else {
            proof {
                assert forall|k: Seq<u8>|
                    #[trigger] tbl_find_val(out@, k) == put_only(
                    tbl_find_val(full.take(j + 1), k),
                ) by {
                    lemma_tbl_find_append(full.take(j), seq![full[j]], k);
                    assert((seq![full[j]])[0] == full[j]);
                    assert((seq![full[j]]).drop_first() =~= Seq::<Entry>::empty());
                    if k == key_of(e) {
                        assert(tbl_find(full.take(j + 1), k) == Some(full[j]));
                        assert(put_only(tbl_find_val(full.take(j + 1), k)) is None);
                        // out cannot hold k: everything in out is below e
                        assert forall|m: int|
                            0 <= m < out@.len() implies key_of(#[trigger] out@[m])
                            != k by {
                            assert(out@.last() == full[lastidx]);
                            if m < out@.len() - 1 {
                                assert(lex_lt(key_of(out@[m]), key_of(out@.last())));
                                assert(lex_lt(key_of(full[lastidx]), key_of(full[j])));
                                lemma_lex_trans(
                                    key_of(out@[m]),
                                    key_of(out@.last()),
                                    k,
                                );
                                lemma_lex_asym(key_of(out@[m]), k);
                            } else {
                                assert(out@[m] == out@.last());
                                assert(lex_lt(key_of(full[lastidx]), key_of(full[j])));
                                lemma_lex_asym(key_of(out@[m]), k);
                            }
                        }
                        lemma_tbl_find_none(out@, k);
                    } else {
                        assert((seq![full[j]])[0] == full[j]);
                        assert((seq![full[j]]).drop_first() =~= Seq::<Entry>::empty());
                        assert(tbl_find(Seq::<Entry>::empty(), k) is None);
                        assert(tbl_find(seq![full[j]], k) is None);
                        assert(tbl_find(full.take(j + 1), k) == tbl_find(
                            full.take(j),
                            k,
                        ));
                    }
                }
                j = j + 1;
            }
        }
    }
    proof {
        assert(full.take(full.len() as int) =~= full);
    }
    out
}

proof fn lemma_flat_push(cs: Seq<Seq<Entry>>, t: Seq<Entry>)
    ensures
        flat_of(cs.push(t)) == flat_of(cs) + t,
{
    assert(cs.push(t).last() == t);
    assert(cs.push(t).drop_last() =~= cs);
}

proof fn lemma_tbl_sorted_sub(s: Seq<Entry>, a: int, b: int)
    requires
        tbl_sorted(s),
        0 <= a <= b <= s.len(),
    ensures
        tbl_sorted(s.subrange(a, b)),
{
    assert(forall|m: int| 0 <= m < b - a ==> #[trigger] s.subrange(a, b)[m] == s[a + m]);
}

/// Reading a stack of globally-sorted, disjoint chunks newest-first is
/// the same as looking the key up in their concatenation.
proof fn lemma_chain_flat(cs: Seq<Seq<Entry>>, k: Seq<u8>)
    requires
        tbl_sorted(flat_of(cs)),
    ensures
        sst_chain_val(cs, k) == tbl_find_val(flat_of(cs), k),
    decreases cs.len(),
{
    if cs.len() == 0 {
    } else {
        let front = flat_of(cs.drop_last());
        let last = cs.last();
        assert(flat_of(cs) == front + last);
        assert(tbl_sorted(front)) by {
            assert(front =~= flat_of(cs).subrange(0, front.len() as int));
            lemma_tbl_sorted_sub(flat_of(cs), 0, front.len() as int);
        }
        lemma_tbl_find_append(front, last, k);
        match tbl_find(last, k) {
            Some(e) => {
                if tbl_find(front, k) is Some {
                    lemma_tbl_find_index(front, k);
                    lemma_tbl_find_index(last, k);
                    let i1 = choose|i: int|
                        0 <= i < front.len() && key_of(#[trigger] front[i]) == k
                            && tbl_find(front, k) == Some(front[i]);
                    let i2 = choose|i: int|
                        0 <= i < last.len() && key_of(#[trigger] last[i]) == k
                            && tbl_find(last, k) == Some(last[i]);
                    assert(flat_of(cs)[i1] == front[i1]);
                    assert(flat_of(cs)[front.len() + i2] == last[i2]);
                    assert(lex_lt(k, k));
                    crate::order::lemma_lex_irrefl(k);
                    assert(false);
                }
            },
            None => {
                lemma_chain_flat(cs.drop_last(), k);
            },
        }
    }
}

/// Split a sorted table into chunks of at most `FLUSH_THRESHOLD`
/// entries, preserving order.
fn chunk_entries(src: Vec<Entry>) -> (chunks: Vec<Vec<Entry>>)
    requires
        tbl_sorted(src@),
        forall|j: int| 0 <= j < src@.len() ==> val_of(#[trigger] src@[j]) is Some,
    ensures
        flat_of(chunks@.map_values(|t: Vec<Entry>| t@)) == src@,
        chunks@.len() <= src@.len(),
        forall|g: int|
            0 <= g < chunks@.len() ==> 0 < #[trigger] chunks@[g]@.len()
                <= FLUSH_THRESHOLD && tbl_sorted(chunks@[g]@),
        forall|g: int, j: int|
            0 <= g < chunks@.len() && 0 <= j < chunks@[g]@.len() ==> val_of(
                #[trigger] chunks@[g]@[j],
            ) is Some,
{
    let ghost full = src@;
    let mut src = src;
    let mut chunks: Vec<Vec<Entry>> = Vec::new();
    let ghost mut c: int = 0;
    proof {
        assert(chunks@.map_values(|t: Vec<Entry>| t@) =~= Seq::<Seq<Entry>>::empty());
        assert(full.take(0) =~= Seq::<Entry>::empty());
    }
    while src.len() > 0
        invariant
            0 <= c <= full.len(),
            src@ == full.skip(c),
            tbl_sorted(full),
            forall|j: int| 0 <= j < full.len() ==> val_of(#[trigger] full[j]) is Some,
            flat_of(chunks@.map_values(|t: Vec<Entry>| t@)) == full.take(c),
            chunks@.len() <= c,
            forall|g: int|
                0 <= g < chunks@.len() ==> 0 < #[trigger] chunks@[g]@.len()
                    <= FLUSH_THRESHOLD && tbl_sorted(chunks@[g]@),
            forall|g: int, j: int|
                0 <= g < chunks@.len() && 0 <= j < chunks@[g]@.len() ==> val_of(
                    #[trigger] chunks@[g]@[j],
                ) is Some,
        decreases src@.len(),
    {
        let ghost start = c;
        let mut chunk: Vec<Entry> = Vec::new();
        proof {
            assert(chunk@ =~= full.subrange(start, c));
        }
        while chunk.len() < FLUSH_THRESHOLD && src.len() > 0
            invariant
                0 <= start <= c <= full.len(),
                src@ == full.skip(c),
                chunk@ == full.subrange(start, c),
                chunk@.len() == c - start,
                chunk@.len() <= FLUSH_THRESHOLD,
            decreases src@.len(),
        {
            let e = src.remove(0);
            proof {
                assert(e == full[c]);
                assert(full.skip(c).drop_first() =~= full.skip(c + 1));
            }
            chunk.push(e);
            proof {
                assert(chunk@ =~= full.subrange(start, c + 1));
                c = c + 1;
            }
        }
        let ghost cview = chunks@.map_values(|t: Vec<Entry>| t@);
        proof {
            lemma_tbl_sorted_sub(full, start, c);
        }
        let ghost chv = chunk@;
        chunks.push(chunk);
        proof {
            assert(chunks@.map_values(|t: Vec<Entry>| t@) =~= cview.push(chv));
            lemma_flat_push(cview, chv);
            assert(full.take(start) + full.subrange(start, c) =~= full.take(c));
            assert(forall|j: int|
                0 <= j < chv.len() ==> #[trigger] chv[j] == full[start + j]);
        }
    }
    proof {
        assert(full.take(c) =~= full);
        assert(full.skip(c).len() == 0);
        assert(c == full.len());
    }
    chunks
}

impl MemTable {
    /// Is there room in the id space for a full compaction?
    pub open spec fn compact_ok(self) -> bool {
        self.max_id() + total_len(self.ssts_view()) + 1 <= ID_LIMIT
    }

    fn check_compact_ok(&self) -> (r: bool)
        requires
            self.wf(),
        ensures
            r == self.compact_ok(),
    {
        let ghost view = self.ssts_view();
        let base: u64 = if self.manifest_cache.len() == 0 {
            0
        } else {
            self.manifest_cache[self.manifest_cache.len() - 1]
        };
        let mut total: u128 = 0;
        let mut g: usize = 0;
        proof {
            assert(view.take(0) =~= Seq::<Seq<Entry>>::empty());
        }
        while g < self.ssts.len()
            invariant
                0 <= g <= self.ssts@.len(),
                view == self.ssts_view(),
                total == total_len(view.take(g as int)),
                total <= 0x2_0000_0000_0000_0000u128,
            decreases self.ssts@.len() - g,
        {
            if total > ID_LIMIT as u128 {
                proof {
                    lemma_total_len_take(view, g as int);
                    lemma_total_len_sub_mono(view, g as int);
                }
                return false;
            }
            let add = self.ssts[g].len() as u128;
            proof {
                assert(view.take(g + 1).drop_last() =~= view.take(g as int));
                assert(view.take(g + 1).last() == view[g as int]);
                assert(view[g as int].len() <= usize::MAX);
            }
            total = total + add;
            g = g + 1;
        }
        proof {
            assert(view.take(view.len() as int) =~= view);
        }
        if total > ID_LIMIT as u128 {
            return false;
        }
        (base as u128) + total + 1 <= ID_LIMIT as u128
    }
}

/// A prefix of the stack holds no more entries than the whole stack.
proof fn lemma_total_len_sub_mono(ssts: Seq<Seq<Entry>>, g: int)
    requires
        0 <= g <= ssts.len(),
    ensures
        total_len(ssts.take(g)) <= total_len(ssts),
{
    lemma_total_len_take(ssts, g);
}

impl MemTable {
    /// Merge every live SST into a fresh generation: the newest version
    /// of each key wins, tombstones are dropped, the outputs are chunked,
    /// published through one manifest swap, and the old files deleted.
    /// Reads observe no change. If the id space cannot hold a fresh
    /// generation the store is left untouched.
    pub fn compact(&mut self) -> (ops: Vec<FsOp>)
        requires
            old(self).wf(),
        ensures
            final(self).wf(),
            read_only(*old(self), *final(self)),
            final(self).requests == old(self).requests,
            final(self).wal == old(self).wal,
            final(self).negative_cache == old(self).negative_cache,
            old(self).compact_ok() ==> final(self).mutations == 0,
            old(self).compact_ok() ==> forall|g: int, j: int|
                0 <= g < final(self).ssts@.len() && 0 <= j < final(self).ssts@[g]@.len()
                    ==> val_of(#[trigger] final(self).ssts@[g]@[j]) is Some,
            old(self).compact_ok() ==> forall|i: int|
                0 <= i < final(self).manifest_cache@.len()
                    ==> #[trigger] final(self).manifest_cache@[i] == old(self).max_id()
                    + 1 + i,
            !old(self).compact_ok() ==> *final(self) == *old(self),
            ({
                let n = final(self).ssts@.len() as int;
                let d = old(self).ssts@.len() as int;
                &&& (old(self).compact_ok() ==> ops@.len() == n + 1 + d)
                &&& (old(self).compact_ok() ==> forall|c: int|
                    0 <= c < n ==> is_write_sst(
                        #[trigger] ops@[c],
                        final(self).manifest_cache@[c],
                        final(self).ssts@[c]@,
                    ))
                &&& (old(self).compact_ok() ==> is_publish_manifest(
                    ops@[n],
                    final(self).manifest_cache@,
                ))
                &&& (old(self).compact_ok() ==> forall|d2: int|
                    0 <= d2 < d ==> is_delete_sst(
                        #[trigger] ops@[n + 1 + d2],
                        old(self).manifest_cache@[d2],
                    ))
                &&& (!old(self).compact_ok() ==> ops@.len() == 0)
            }),
    {
        let mut ops: Vec<FsOp> = Vec::new();
        if !self.check_compact_ok() {
            return ops;
        }
        let ghost pre = *self;
        let ghost oldview = self.ssts_view();
        let mut sources: Vec<Vec<Entry>> = Vec::new();
        std::mem::swap(&mut self.ssts, &mut sources);
        let mut old_ids: Vec<u64> = Vec::new();
        std::mem::swap(&mut self.manifest_cache, &mut old_ids);
        let base: u64 = if old_ids.len() == 0 {
            0
        } else {
            old_ids[old_ids.len() - 1]
        };
        proof {
            assert(base == pre.max_id());
            assert(sources@.map_values(|t: Vec<Entry>| t@) == oldview);
        }
        let merged = merge_all(sources);
        proof {
            lemma_total_len_nonneg(oldview);
        }
        let puts = filter_puts(merged);
        let chunks = chunk_entries(puts);
        let ghost chview = chunks@.map_values(|t: Vec<Entry>| t@);
        proof {
            assert(chunks@.len() <= puts@.len() <= merged@.len() <= total_len(oldview));
            assert(base + total_len(oldview) + 1 <= ID_LIMIT);
        }
        // write each chunk as a new SST and build the new manifest
        let mut new_ids: Vec<u64> = Vec::new();
        let mut g: usize = 0;
        while g < chunks.len()
            invariant
                0 <= g <= chunks@.len(),
                new_ids@.len() == g,
                forall|m: int| 0 <= m < g ==> #[trigger] new_ids@[m] == base + 1 + m,
                base + chunks@.len() <= ID_LIMIT,
                ops@.len() == g,
                chview == chunks@.map_values(|t: Vec<Entry>| t@),
                forall|m: int|
                    0 <= m < g ==> is_write_sst(
                        #[trigger] ops@[m],
                        (base + 1 + m) as u64,
                        chview[m],
                    ),
            decreases chunks@.len() - g,
    {
            let id: u64 = base + 1 + (g as u64);
            let path = crate::codec::path_of(id);
            let content = crate::codec::encode_sst(&chunks[g]);
            ops.push(FsOp::WriteSst { path, content });
            new_ids.push(id);
            g = g + 1;
        }
        let mbytes = crate::codec::encode_manifest(&new_ids);
        ops.push(FsOp::PublishManifest(mbytes));
        let mut d: usize = 0;
        let ghost nlen = chunks@.len() as int;
        while d < old_ids.len()
            invariant
                0 <= d <= old_ids@.len(),
                ops@.len() == nlen + 1 + d,
                forall|m: int|
                    0 <= m < nlen ==> is_write_sst(
                        #[trigger] ops@[m],
                        (base + 1 + m) as u64,
                        chview[m],
                    ),
                is_publish_manifest(ops@[nlen as int], new_ids@),
                forall|m: int|
                    0 <= m < d ==> is_delete_sst(#[trigger] ops@[nlen + 1 + m], old_ids@[m]),
                base + nlen <= ID_LIMIT,
                new_ids@.len() == nlen,
                forall|m: int| 0 <= m < nlen ==> #[trigger] new_ids@[m] == base + 1 + m,
                old_ids@ == pre.manifest_cache@,
                chview == chunks@.map_values(|t: Vec<Entry>| t@),
            decreases old_ids@.len() - d,
        {
            let p = crate::codec::path_of(old_ids[d]);
            ops.push(FsOp::DeleteSst(p));
            d = d + 1;
        }
        self.ssts = chunks;
        self.manifest_cache = new_ids;
        self.mutations = 0;
        proof {
            let post = *self;
            assert(post.ssts_view() == chview);
            // the new stack answers every lookup as the old one did
            assert forall|k: Seq<u8>| post.visible(k) == pre.visible(k) by {
                lemma_chain_flat(chview, k);
                assert(sst_chain_val(chview, k) == tbl_find_val(puts@, k));
                assert(tbl_find_val(puts@, k) == put_only(tbl_find_val(merged@, k)));
                assert(tbl_find_val(merged@, k) == sst_chain_val(oldview, k));
                assert(post.requests@ == pre.requests@);
            }
            assert forall|i: int|
                0 <= i < post.negative_cache@.len() implies post.visible(
                #[trigger] post.negative_cache@[i]@,
            ) is None by {
                assert(pre.visible(post.negative_cache@[i]@) is None);
            }
            assert(post.wf()) by {
                assert(forall|i: int|
                    0 <= i < post.ssts@.len() ==> tbl_sorted(#[trigger] post.ssts@[i]@)
                        && post.ssts@[i]@.len() > 0) by {
                    assert(forall|i: int|
                        0 <= i < chview.len() ==> #[trigger] chview[i]
                            == post.ssts@[i]@);
                }
            }
        }
        ops
    }
}

// ---------------------------------------------------------------------------
// Recovery.
// ---------------------------------------------------------------------------
/// Content of the first file with the given path.
pub open spec fn file_lookup(files: Seq<(Seq<u8>, Seq<u8>)>, p: Seq<u8>) -> Option<Seq<u8>>
    decreases files.len(),
{
    if files.len() == 0 {
        None
    } else if files[0].0 == p {
        Some(files[0].1)
    } else {
        file_lookup(files.drop_first(), p)
    }
}

/// Is the path that of a manifest-listed SST?
pub open spec fn listed(ids: Seq<u64>, p: Seq<u8>) -> bool {
    exists|i: int| 0 <= i < ids.len() && p == path_spec(#[trigger] ids[i])
}

/// The paths of the files the manifest does not reference, in order.
pub open spec fn orphan_list(files: Seq<(Seq<u8>, Seq<u8>)>, ids: Seq<u64>) -> Seq<Seq<u8>>
    decreases files.len(),
{
    if files.len() == 0 {
        Seq::empty()
    } else if listed(ids, files[0].0) {
        orphan_list(files.drop_first(), ids)
    } else {
        seq![files[0].0] + orphan_list(files.drop_first(), ids)
    }
}

/// A valid manifest id list: strictly ascending, all in range.
pub open spec fn ids_valid(ids: Seq<u64>) -> bool {
    &&& (forall|i: int, j: int|
        0 <= i < j < ids.len() ==> #[trigger] ids[i] < #[trigger] ids[j])
    &&& (forall|i: int| 0 <= i < ids.len() ==> 1 <= #[trigger] ids[i] <= ID_LIMIT)
}

/// A valid SST body: at least one record, keys strictly ascending.
pub open spec fn models_ok(ms: Seq<(Seq<u8>, Option<u32>)>) -> bool {
    ms.len() > 0 && (forall|i: int, j: int|
        0 <= i < j < ms.len() ==> lex_lt((#[trigger] ms[i]).0, (#[trigger] ms[j]).0))
}

/// The SST with the given id is on disk and well-formed.
pub open spec fn sst_file_ok(files: Seq<(Seq<u8>, Seq<u8>)>, id: u64) -> bool {
    match file_lookup(files, path_spec(id)) {
        Some(c) => match parse_sst_spec(c) {
            Some(ms) => models_ok(ms),
            None => false,
        },
        None => false,
    }
}

/// Startup succeeds exactly when the manifest parses into a valid id list
/// and every listed SST is present and well-formed. The WAL never makes
/// startup fail: a torn tail only shortens the replay.
pub open spec fn startup_ok(mb: Seq<u8>, files: Seq<(Seq<u8>, Seq<u8>)>) -> bool {
    match parse_manifest_spec(mb) {
        Some(ids) => ids_valid(ids) && (forall|i: int|
            0 <= i < ids.len() ==> sst_file_ok(files, #[trigger] ids[i])),
        None => false,
    }
}

/// Startup fails with `Io` exactly when the manifest is fine but the
/// first bad listed SST is missing altogether.
pub open spec fn startup_io(mb: Seq<u8>, files: Seq<(Seq<u8>, Seq<u8>)>) -> bool {
    match parse_manifest_spec(mb) {
        Some(ids) => ids_valid(ids) && (exists|i: int|
            0 <= i < ids.len() && file_lookup(files, path_spec(#[trigger] ids[i])) is None
                && (forall|m: int| 0 <= m < i ==> sst_file_ok(files, #[trigger] ids[m]))),
        None => false,
    }
}

/// Strict order of adjacent keys extends to all pairs.
proof fn lemma_adjacent_sorted(s: Seq<Entry>)
    requires
        forall|i: int|
            0 <= i < s.len() - 1 ==> lex_lt(
                key_of(#[trigger] s[i]),
                key_of(s[i + 1]),
            ),
    ensures
        tbl_sorted(s),
{
    assert forall|i: int, j: int|
        0 <= i < j < s.len() implies lex_lt(
        key_of(#[trigger] s[i]),
        key_of(#[trigger] s[j]),
    ) by {
        lemma_lex_span(s, i, j);
    }
}

proof fn lemma_lex_span(s: Seq<Entry>, i: int, j: int)
    requires
        forall|m: int|
            0 <= m < s.len() - 1 ==> lex_lt(
                key_of(#[trigger] s[m]),
                key_of(s[m + 1]),
            ),
        0 <= i < j < s.len(),
    ensures
        lex_lt(key_of(s[i]), key_of(s[j])),
    decreases j - i,
{
    if j == i + 1 {
    } else {
        lemma_lex_span(s, i, j - 1);
        lemma_lex_trans(key_of(s[i]), key_of(s[j - 1]), key_of(s[j]));
    }
}

/// Reference to the content of the first file with the given path.
fn find_file<'a>(files: &'a Vec<(Vec<u8>, Vec<u8>)>, p: &Vec<u8>) -> (r: Option<&'a Vec<u8>>)
    ensures
        ({
            let fv = files@.map_values(|f: (Vec<u8>, Vec<u8>)| (f.0@, f.1@));
            match r {
                Some(c) => file_lookup(fv, p@) == Some(c@),
                None => file_lookup(fv, p@) is None,
            }
        }),
{
    let ghost fv = files@.map_values(|f: (Vec<u8>, Vec<u8>)| (f.0@, f.1@));
    let mut i: usize = 0;
    proof {
        assert(fv.skip(0) =~= fv);
    }
    while i < files.len()
        invariant
            0 <= i <= files@.len(),
            fv == files@.map_values(|f: (Vec<u8>, Vec<u8>)| (f.0@, f.1@)),
            file_lookup(fv, p@) == file_lookup(fv.skip(i as int), p@),
        decreases files@.len() - i,
    {
        let hit = match key_cmp(&files[i].0, p) {
            KeyCmp::Equal => true,
            _ => false,
        };
        proof {
            assert(fv.skip(i as int)[0] == fv[i as int]);
            assert(fv.skip(i as int).drop_first() =~= fv.skip(i + 1));
        }
        if hit {
            return Some(&files[i].1);
        }
        i = i + 1;
    }
    proof {
        assert(fv.skip(fv.len() as int).len() == 0);
    }
    None
}

/// Is the path that of a listed SST?
fn listed_exec(ids: &Vec<u64>, p: &Vec<u8>) -> (r: bool)
    ensures
        r == listed(ids@, p@),
{
    let mut i: usize = 0;
    while i < ids.len()
        invariant
            0 <= i <= ids@.len(),
            forall|m: int| 0 <= m < i ==> p@ != path_spec(#[trigger] ids@[m]),
        decreases ids@.len() - i,
    {
        let path = crate::codec::path_of(ids[i]);
        let hit = match key_cmp(&path, p) {
            KeyCmp::Equal => true,
            _ => false,
        };
        if hit {
            return true;
        }
        i = i + 1;
    }
    false
}

// Recovery helpers, one phase each.
/// Check that the manifest ids are ascending and in range.
fn validate_ids(ids: &Vec<u64>) -> (r: bool)
    ensures
        r == ids_valid(ids@),
{
    let mut i: usize = 0;
    #[verifier::loop_isolation(false)]
    while i < ids.len()
        invariant
            0 <= i <= ids@.len(),
            forall|m: int| 0 <= m < i ==> 1 <= #[trigger] ids@[m] <= ID_LIMIT,
            forall|m: int| 0 <= m < i - 1 ==> #[trigger] ids@[m] < ids@[m + 1],
        decreases ids@.len() - i,
    {
        if ids[i] < 1 || ids[i] > ID_LIMIT {
            return false;
        }
        if i > 0 && ids[i - 1] >= ids[i] {
            return false;
        }
        i = i + 1;
    }
    proof {
        assert forall|m: int, n: int|
            0 <= m < n < ids@.len() implies #[trigger] ids@[m] < #[trigger] ids@[n] by {
            lemma_u64_span(ids@, m, n);
        }
    }
    true
}

/// Load one listed SST and check its shape.
fn load_sst(files: &Vec<(Vec<u8>, Vec<u8>)>, id: u64) -> (r: Result<Vec<Entry>, KvError>)
    ensures
        ({
            let fv = files@.map_values(|f: (Vec<u8>, Vec<u8>)| (f.0@, f.1@));
            match r {
                Ok(es) => {
                    &&& sst_file_ok(fv, id)
                    &&& match file_lookup(fv, path_spec(id)) {
                        Some(c) => parse_sst_spec(c) == Some(models_of(es@)),
                        None => false,
                    }
                    &&& tbl_sorted(es@)
                    &&& es@.len() > 0
                },
                Err(e) => {
                    &&& !sst_file_ok(fv, id)
                    &&& (e is Io <==> file_lookup(fv, path_spec(id)) is None)
                    &&& !(e is InvalidChecksum)
                },
            }
        }),
{
    let ghost fv = files@.map_values(|f: (Vec<u8>, Vec<u8>)| (f.0@, f.1@));
    let path = crate::codec::path_of(id);
    let content = match find_file(files, &path) {
        Some(c) => c,
        None => {
            return Err(KvError::Io);
        },
    };
    let es = match crate::parse::parse_sst(content) {
        Some(es) => es,
        None => {
            return Err(KvError::Json);
        },
    };
    if es.len() == 0 {
        return Err(KvError::Json);
    }
    let mut a: usize = 0;
    #[verifier::loop_isolation(false)]
    while a < es.len() - 1
        invariant
            0 <= a <= es@.len(),
            forall|m: int|
                0 <= m < a ==> lex_lt(key_of(#[trigger] es@[m]), key_of(es@[m + 1])),
        decreases es@.len() - a,
    {
        let ordered = match key_cmp(es[a].key(), es[a + 1].key()) {
            KeyCmp::Less => true,
            _ => false,
        };
        if !ordered {
            proof {
                assert(models_of(es@)[a as int].0 == key_of(es@[a as int]));
                assert(models_of(es@)[a as int + 1].0 == key_of(es@[a as int + 1]));
                assert(!models_ok(models_of(es@)));
            }
            return Err(KvError::Json);
        }
        a = a + 1;
    }
    proof {
        lemma_adjacent_sorted(es@);
        assert(models_ok(models_of(es@))) by {
            assert(forall|m: int, n: int|
                0 <= m < n < es@.len() ==> lex_lt(
                    (#[trigger] models_of(es@)[m]).0,
                    (#[trigger] models_of(es@)[n]).0,
                ));
        }
    }
    Ok(es)
}

/// Load every listed SST.
fn load_ssts(files: &Vec<(Vec<u8>, Vec<u8>)>, ids: &Vec<u64>) -> (r: Result<
    Vec<Vec<Entry>>,
    KvError,
>)
    ensures
        ({
            let fv = files@.map_values(|f: (Vec<u8>, Vec<u8>)| (f.0@, f.1@));
            match r {
                Ok(ssts) => {
                    &&& ssts@.len() == ids@.len()
                    &&& (forall|i: int|
                        0 <= i < ids@.len() ==> sst_file_ok(fv, #[trigger] ids@[i]))
                    &&& (forall|i: int|
                        0 <= i < ids@.len() ==> match file_lookup(
                            fv,
                            path_spec(#[trigger] ids@[i]),
                        ) {
                            Some(c) => parse_sst_spec(c) == Some(models_of(ssts@[i]@)),
                            None => false,
                        })
                    &&& (forall|i: int|
                        0 <= i < ssts@.len() ==> tbl_sorted(#[trigger] ssts@[i]@)
                            && ssts@[i]@.len() > 0)
                },
                Err(e) => {
                    &&& !(forall|i: int|
                        0 <= i < ids@.len() ==> sst_file_ok(fv, #[trigger] ids@[i]))
                    &&& (e is Io <==> exists|i: int|
                        0 <= i < ids@.len() && file_lookup(
                            fv,
                            path_spec(#[trigger] ids@[i]),
                        ) is None && (forall|m: int|
                            0 <= m < i ==> sst_file_ok(fv, #[trigger] ids@[m])))
                    &&& !(e is InvalidChecksum)
                },
            }
        }),
{
    let ghost fv = files@.map_values(|f: (Vec<u8>, Vec<u8>)| (f.0@, f.1@));
    let mut ssts: Vec<Vec<Entry>> = Vec::new();
    let mut g: usize = 0;
    #[verifier::loop_isolation(false)]
    while g < ids.len()
        invariant
            0 <= g <= ids@.len(),
            ssts@.len() == g,
            forall|m: int| 0 <= m < g ==> sst_file_ok(fv, #[trigger] ids@[m]),
            forall|m: int|
                0 <= m < g ==> match file_lookup(fv, path_spec(#[trigger] ids@[m])) {
                    Some(c) => parse_sst_spec(c) == Some(models_of(ssts@[m]@)),
                    None => false,
                },
            forall|m: int|
                0 <= m < g ==> tbl_sorted(#[trigger] ssts@[m]@) && ssts@[m]@.len() > 0,
        decreases ids@.len() - g,
    {
        match load_sst(files, ids[g]) {
            Ok(es) => {
                ssts.push(es);
            },
            Err(e) => {
                let r: Result<Vec<Vec<Entry>>, KvError> = match e {
                    KvError::Io => {
                        proof {
                            assert(file_lookup(fv, path_spec(ids@[g as int])) is None);
                        }
                        Err(KvError::Io)
                    },
                    _ => {
                        proof {
                            assert(!(exists|i: int|
                                0 <= i < ids@.len() && file_lookup(
                                    fv,
                                    path_spec(#[trigger] ids@[i]),
                                ) is None && (forall|m: int|
                                    0 <= m < i ==> sst_file_ok(
                                        fv,
                                        #[trigger] ids@[m],
                                    )))) by {
                                if exists|i: int|
                                    0 <= i < ids@.len() && file_lookup(
                                        fv,
                                        path_spec(#[trigger] ids@[i]),
                                    ) is None && (forall|m: int|
                                        0 <= m < i ==> sst_file_ok(
                                            fv,
                                            #[trigger] ids@[m],
                                        )) {
                                    let i0 = choose|i0: int|
                                        0 <= i0 < ids@.len() && file_lookup(
                                            fv,
                                            path_spec(#[trigger] ids@[i0]),
                                        ) is None && (forall|m: int|
                                            0 <= m < i0 ==> sst_file_ok(
                                                fv,
                                                #[trigger] ids@[m],
                                            ));
                                    if i0 < g {
                                        assert(sst_file_ok(fv, ids@[i0]));
                                    } else if i0 == g {
                                        assert(file_lookup(
                                            fv,
                                            path_spec(ids@[g as int]),
                                        ) is Some);
                                    } else {
                                        assert(sst_file_ok(fv, ids@[g as int]));
                                    }
                                }
                            }
                        }
                        Err(KvError::Json)
                    },
                };
                return r;
            },
        }
        g = g + 1;
    }
    Ok(ssts)
}

/// Keep the paths of the files the manifest does not reference.
fn collect_orphans(files: Vec<(Vec<u8>, Vec<u8>)>, ids: &Vec<u64>) -> (orphans: Vec<
    Vec<u8>,
>)
    ensures
        orphans@.map_values(|p: Vec<u8>| p@) == orphan_list(
            files@.map_values(|f: (Vec<u8>, Vec<u8>)| (f.0@, f.1@)),
            ids@,
        ),
{
    let ghost fv = files@.map_values(|f: (Vec<u8>, Vec<u8>)| (f.0@, f.1@));
    let mut files = files;
    let mut orphans: Vec<Vec<u8>> = Vec::new();
    let ghost mut fpos: int = 0;
    proof {
        assert(fv.skip(0) =~= fv);
        assert(orphans@.map_values(|p: Vec<u8>| p@) =~= Seq::<Seq<u8>>::empty());
    }
    while files.len() > 0
        invariant
            0 <= fpos <= fv.len(),
            files@.map_values(|f: (Vec<u8>, Vec<u8>)| (f.0@, f.1@)) == fv.skip(fpos),
            orphan_list(fv, ids@) == orphans@.map_values(|p: Vec<u8>| p@) + orphan_list(
                fv.skip(fpos),
                ids@,
            ),
        decreases files@.len(),
    {
        let (p, _c) = files.remove(0);
        proof {
            assert(fv.skip(fpos)[0] == fv[fpos]);
            assert(p@ == fv[fpos].0);
            assert(fv.skip(fpos).drop_first() =~= fv.skip(fpos + 1));
            assert(files@.map_values(|f: (Vec<u8>, Vec<u8>)| (f.0@, f.1@)) =~= fv.skip(
                fpos + 1,
            ));
        }
        let ghost orphb = orphans@;
        if !listed_exec(ids, &p) {
            orphans.push(p);
            proof {
                assert(orphans@.map_values(|q: Vec<u8>| q@) =~= orphb.map_values(
                    |q: Vec<u8>| q@,
                ).push(fv[fpos].0));
                assert(orphan_list(fv.skip(fpos), ids@) == seq![fv[fpos].0]
                    + orphan_list(fv.skip(fpos + 1), ids@));
                assert(orphb.map_values(|q: Vec<u8>| q@) + (seq![fv[fpos].0]
                    + orphan_list(fv.skip(fpos + 1), ids@)) =~= orphans@.map_values(
                    |q: Vec<u8>| q@,
                ) + orphan_list(fv.skip(fpos + 1), ids@));
            }
        } else {
            proof {
                assert(orphan_list(fv.skip(fpos), ids@) == orphan_list(
                    fv.skip(fpos + 1),
                    ids@,
                ));
            }
        }
        proof {
            fpos = fpos + 1;
        }
    }
    proof {
        assert(fv.skip(fv.len() as int).len() == 0);
        assert(orphan_list(fv.skip(fv.len() as int), ids@) =~= Seq::<Seq<u8>>::empty());
        assert(orphans@.map_values(|p: Vec<u8>| p@) + Seq::<Seq<u8>>::empty()
            =~= orphans@.map_values(|p: Vec<u8>| p@));
    }
    orphans
}

/// Install replayed entries into a fresh memtable, in order: the last
/// entry for a key wins.
fn rebuild_requests(entries: Vec<Entry>) -> (requests: Vec<Entry>)
    ensures
        tbl_sorted(requests@),
        forall|k: Seq<u8>|
            #[trigger] tbl_find_val(requests@, k) == wal_fold_val(entries@, k),
{
    let ghost full = entries@;
    let mut entries = entries;
    let mut requests: Vec<Entry> = Vec::new();
    let ghost mut j: int = 0;
    proof {
        assert(full.take(0) =~= Seq::<Entry>::empty());
        assert forall|k: Seq<u8>|
            #[trigger] tbl_find_val(requests@, k) == wal_fold_val(full.take(0), k) by {
            assert(tbl_find(requests@, k) is None);
        }
    }
    while entries.len() > 0
        invariant
            0 <= j <= full.len(),
            entries@ == full.skip(j),
            tbl_sorted(requests@),
            forall|k: Seq<u8>|
                #[trigger] tbl_find_val(requests@, k) == wal_fold_val(full.take(j), k),
        decreases entries@.len(),
    {
        let e = entries.remove(0);
        proof {
            assert(e == full[j]);
            assert(full.skip(j).drop_first() =~= full.skip(j + 1));
        }
        tbl_insert(&mut requests, e);
        proof {
            assert(full.take(j + 1).drop_last() =~= full.take(j));
            assert(full.take(j + 1).last() == full[j]);
            assert forall|k: Seq<u8>|
                #[trigger] tbl_find_val(requests@, k) == wal_fold_val(
                full.take(j + 1),
                k,
            ) by {
                if k == key_of(e) {
                    assert(wal_fold_val(full.take(j + 1), k) == Some(val_of(e)));
                } else {
                    assert(wal_fold_val(full.take(j + 1), k) == wal_fold_val(
                        full.take(j),
                        k,
                    ));
                }
            }
            j = j + 1;
        }
    }
    proof {
        assert(full.take(full.len() as int) =~= full);
    }
    requests
}

impl MemTable {
    /// Recover the store from what is on disk: parse the manifest, load
    /// and validate every listed SST, report the unreferenced `.json`
    /// files for deletion, and replay the WAL into the memtable.
    pub fn startup(
        manifest_bytes: &Vec<u8>,
        files: Vec<(Vec<u8>, Vec<u8>)>,
        wal_bytes: &Vec<u8>,
    ) -> (r: Result<(MemTable, Vec<Vec<u8>>), KvError>)
        ensures
            ({
                let fv = files@.map_values(|f: (Vec<u8>, Vec<u8>)| (f.0@, f.1@));
                match r {
                    Ok((m, orphans)) => {
                        &&& startup_ok(manifest_bytes@, fv)
                        &&& m.wf()
                        &&& parse_manifest_spec(manifest_bytes@) == Some(
                            m.manifest_cache@,
                        )
                        &&& m.ssts@.len() == m.manifest_cache@.len()
                        &&& (forall|i: int|
                            0 <= i < m.manifest_cache@.len() ==> match file_lookup(
                                fv,
                                path_spec(#[trigger] m.manifest_cache@[i]),
                            ) {
                                Some(c) => parse_sst_spec(c) == Some(
                                    models_of(m.ssts@[i]@),
                                ),
                                None => false,
                            })
                        &&& models_of(m.wal.entries@) == replay_spec(wal_bytes@)
                        &&& m.negative_cache@.len() == 0
                        &&& m.mutations == 0
                        &&& orphans@.map_values(|p: Vec<u8>| p@) == orphan_list(
                            fv,
                            m.manifest_cache@,
                        )
                    },
                    Err(e) => {
                        &&& !startup_ok(manifest_bytes@, fv)
                        &&& (e is Io <==> startup_io(manifest_bytes@, fv))
                        &&& (e is Json <==> !startup_io(manifest_bytes@, fv))
                    },
                }
            }),
    {
        let ghost fv = files@.map_values(|f: (Vec<u8>, Vec<u8>)| (f.0@, f.1@));
        let ids = match crate::parse::parse_manifest(manifest_bytes) {
            Some(ids) => ids,
            None => {
                return Err(KvError::Json);
            },
        };
        if !validate_ids(&ids) {
            return Err(KvError::Json);
        }
        let ssts = match load_ssts(&files, &ids) {
            Ok(ssts) => ssts,
            Err(e) => {
                let r: Result<(MemTable, Vec<Vec<u8>>), KvError> = match e {
                    KvError::Io => Err(KvError::Io),
                    _ => Err(KvError::Json),
                };
                proof {
                    assert(!startup_ok(manifest_bytes@, fv));
                    assert(e is Io <==> startup_io(manifest_bytes@, fv));
                }
                return r;
            },
        };
        let orphans = collect_orphans(files, &ids);
        let mut wal = Wal::new();
        let entries = wal.startup(wal_bytes);
        let ghost full = entries@;
        let requests = rebuild_requests(entries);
        let m = MemTable {
            requests,
            wal,
            manifest_cache: ids,
            ssts,
            negative_cache: Vec::new(),
            mutations: 0,
        };
        proof {
            assert(m.wf()) by {
                assert(forall|i2: int|
                    0 <= i2 < m.negative_cache@.len() ==> m.visible(
                        #[trigger] m.negative_cache@[i2]@,
                    ) is None);
            }
            assert(startup_ok(manifest_bytes@, fv));
        }
        Ok((m, orphans))
    }
}

/// A failure at a loaded-but-invalid SST is never the missing-file case.
proof fn lemma_not_ok_not_io(
    mb: Seq<u8>,
    fv: Seq<(Seq<u8>, Seq<u8>)>,
    ids: Seq<u64>,
    g: int,
)
    requires
        parse_manifest_spec(mb) == Some(ids),
        ids_valid(ids),
        0 <= g < ids.len(),
        forall|m: int| 0 <= m < g ==> sst_file_ok(fv, #[trigger] ids[m]),
        !sst_file_ok(fv, ids[g]),
        file_lookup(fv, path_spec(ids[g])) is Some,
    ensures
        !startup_ok(mb, fv),
        !startup_io(mb, fv),
{
    if startup_io(mb, fv) {
        let i0 = choose|i0: int|
            0 <= i0 < ids.len() && file_lookup(fv, path_spec(#[trigger] ids[i0])) is None
                && (forall|m: int| 0 <= m < i0 ==> sst_file_ok(fv, #[trigger] ids[m]));
        if i0 <= g {
            assert(file_lookup(fv, path_spec(ids[g])) is Some);
            if i0 < g {
                assert(sst_file_ok(fv, ids[i0]));
            }
        } else {
            assert(sst_file_ok(fv, ids[g]));
        }
    }
}

proof fn lemma_u64_span(ids: Seq<u64>, m: int, n: int)
    requires
        forall|t: int| 0 <= t < ids.len() - 1 ==> #[trigger] ids[t] < ids[t + 1],
        0 <= m < n < ids.len(),
    ensures
        ids[m] < ids[n],
    decreases n - m,
{
    if n > m + 1 {
        lemma_u64_span(ids, m, n - 1);
    }
}

impl Default for MemTable {
    /// An empty store, as `new` builds it.
    fn default() -> (r: Self)
        ensures
            r.wf(),
            forall|k: Seq<u8>| r.visible(k) is None,
    {
        MemTable::new()
    }
}

} // verus!
