//! Flush triggering, shadowing across flushes, and compaction.

use kv::memtable::FsOp;
use kv::memtable::MemTable;
use kv::parse::parse_sst;
use kv::wal::Entry;

fn k(s: &str) -> Vec<u8> {
    s.as_bytes().to_vec()
}

#[test]
fn quiet_put_emits_only_the_wal_record() {
    let mut store = MemTable::new();
    let ops = store.put(k("solo"), 1);
    assert_eq!(ops.len(), 1);
    assert!(matches!(ops[0], FsOp::AppendWal(_)));
    let ops = store.delete(k("solo"));
    assert_eq!(ops.len(), 1);
    assert!(matches!(ops[0], FsOp::AppendWal(_)));
    assert_eq!(store.sst_count(), 0);
}

#[test]
fn flush_boundary_one_sst() {
    let mut store = MemTable::new();
    let mut sst_writes = 0;
    let mut last_ops: Vec<FsOp> = Vec::new();
    for i in 0..2000u32 {
        let ops = store.put(k(&format!("k{}", i)), i);
        for op in &ops {
            if matches!(op, FsOp::WriteSst { .. }) {
                sst_writes += 1;
            }
        }
        last_ops = ops;
    }
    // the threshold-crossing put logs, writes the SST, swaps the
    // manifest and truncates the log, in that order
    assert_eq!(last_ops.len(), 4);
    assert!(matches!(last_ops[0], FsOp::AppendWal(_)));
    assert!(matches!(last_ops[1], FsOp::WriteSst { .. }));
    assert!(matches!(last_ops[2], FsOp::PublishManifest(_)));
    assert!(matches!(last_ops[3], FsOp::TruncateWal));
    assert_eq!(sst_writes, 1);
    assert_eq!(store.sst_count(), 1);
    assert_eq!(store.wal_len(), 0);
    assert_eq!(store.size(), 0);
    assert_eq!(store.get(&k("k1999")), Some(1999));
    assert_eq!(store.get(&k("k0")), Some(0));
}

#[test]
fn overwrite_across_flush() {
    let mut store = MemTable::new();
    store.put(k("a"), 1);
    for i in 0..1999u32 {
        store.put(k(&format!("other{}", i)), i);
    }
    // "a" now lives in an SST; the fresh put must shadow it
    assert_eq!(store.sst_count(), 1);
    store.put(k("a"), 2);
    assert_eq!(store.get(&k("a")), Some(2));
}

#[test]
fn delete_across_flush() {
    let mut store = MemTable::new();
    store.put(k("a"), 7);
    for i in 0..1999u32 {
        store.put(k(&format!("pad{}", i)), i);
    }
    assert_eq!(store.sst_count(), 1);
    store.delete(k("a"));
    assert_eq!(store.get(&k("a")), None);
    // push the tombstone into a newer SST: it must shadow the older put
    for i in 0..1999u32 {
        store.put(k(&format!("pad{}", i)), i + 1);
    }
    assert_eq!(store.sst_count(), 2);
    assert_eq!(store.get(&k("a")), None);
}

#[test]
fn compaction_drops_tombstones() {
    let mut store = MemTable::new();
    let mut files: Vec<(Vec<u8>, Vec<u8>)> = Vec::new();
    let mut apply = |files: &mut Vec<(Vec<u8>, Vec<u8>)>, ops: Vec<FsOp>| {
        for op in ops {
            match op {
                FsOp::WriteSst { path, content } => {
                    files.retain(|f| f.0 != path);
                    files.push((path, content));
                },
                FsOp::DeleteSst(path) => {
                    files.retain(|f| f.0 != path);
                },
                _ => {},
            }
        }
    };
    // ten keys, five of them deleted
    for i in 0..10u32 {
        let ops = store.put(k(&format!("a{}", i)), i);
        apply(&mut files, ops);
    }
    for i in 0..5u32 {
        let ops = store.delete(k(&format!("a{}", i)));
        apply(&mut files, ops);
    }
    // drive the mutation counter to the compaction threshold
    for i in 0..9985u32 {
        let ops = store.put(k(&format!("k{}", i % 2000)), i);
        apply(&mut files, ops);
    }
    // compaction has rewritten the SST set without tombstones
    assert!(store.sst_count() >= 1);
    assert!(!files.is_empty());
    for (_path, content) in &files {
        let entries = parse_sst(content).expect("live SST parses");
        for e in &entries {
            assert!(matches!(e, Entry::Put(_)), "no tombstone survives compaction");
        }
    }
    // the deleted keys still read as absent, the others keep their values
    for i in 0..5u32 {
        assert_eq!(store.get(&k(&format!("a{}", i))), None);
    }
    for i in 5..10u32 {
        assert_eq!(store.get(&k(&format!("a{}", i))), Some(i));
    }
}

#[test]
fn manual_compaction_preserves_reads() {
    let mut store = MemTable::new();
    for i in 0..2000u32 {
        store.put(k(&format!("k{}", i)), i);
    }
    store.delete(k("k5"));
    for i in 0..1999u32 {
        store.put(k(&format!("m{}", i)), i);
    }
    assert_eq!(store.sst_count(), 2);
    let before: Vec<Option<u32>> = (0..10u32)
        .map(|i| store.get(&k(&format!("k{}", i))))
        .collect();
    store.compact();
    let after: Vec<Option<u32>> = (0..10u32)
        .map(|i| store.get(&k(&format!("k{}", i))))
        .collect();
    assert_eq!(before, after);
    assert_eq!(store.get(&k("k5")), None);
}
