//! Crash recovery: WAL replay, torn tails, orphan cleanup, durability.

use kv::error::KvError;
use kv::memtable::FsOp;
use kv::memtable::MemTable;

fn k(s: &str) -> Vec<u8> {
    s.as_bytes().to_vec()
}

struct Disk {
    wal: Vec<u8>,
    manifest: Vec<u8>,
    files: Vec<(Vec<u8>, Vec<u8>)>,
}

impl Disk {
    fn new() -> Disk {
        Disk { wal: Vec::new(), manifest: Vec::new(), files: Vec::new() }
    }

    fn apply(&mut self, ops: Vec<FsOp>) {
        for op in ops {
            match op {
                FsOp::AppendWal(line) => self.wal.extend_from_slice(&line),
                FsOp::TruncateWal => self.wal.clear(),
                FsOp::WriteSst { path, content } => {
                    self.files.retain(|f| f.0 != path);
                    self.files.push((path, content));
                },
                FsOp::PublishManifest(content) => self.manifest = content,
                FsOp::DeleteSst(path) => self.files.retain(|f| f.0 != path),
            }
        }
    }

    fn boot(&self) -> Result<(MemTable, Vec<Vec<u8>>), KvError> {
        MemTable::startup(&self.manifest, self.files.clone(), &self.wal)
    }

    fn clone_files(&self) -> Disk {
        Disk {
            wal: self.wal.clone(),
            manifest: self.manifest.clone(),
            files: self.files.clone(),
        }
    }
}

#[test]
fn recovery_of_unflushed_puts() {
    let mut disk = Disk::new();
    let mut store = MemTable::new();
    for i in 0..500u32 {
        let ops = store.put(k(&format!("r{}", i)), i + 1);
        disk.apply(ops);
    }
    // 500 intact records in the log, nothing flushed
    assert_eq!(disk.wal.iter().filter(|b| **b == b'\n').count(), 500);
    assert!(disk.files.is_empty());
    let (mut revived, orphans) = disk.boot().unwrap();
    assert!(orphans.is_empty());
    for i in 0..500u32 {
        assert_eq!(revived.get(&k(&format!("r{}", i))), Some(i + 1));
    }
    assert_eq!(revived.wal_len(), 500);
}

#[test]
fn torn_wal_tail_every_offset() {
    let mut disk = Disk::new();
    let mut store = MemTable::new();
    for i in 0..5u32 {
        let ops = store.put(k(&format!("t{}", i)), i + 10);
        disk.apply(ops);
    }
    // the byte offsets at which each record line ends (before its newline)
    let mut line_ends = Vec::new();
    for (pos, b) in disk.wal.iter().enumerate() {
        if *b == b'\n' {
            line_ends.push(pos);
        }
    }
    assert_eq!(line_ends.len(), 5);
    for cut in 0..=disk.wal.len() {
        let mut torn = disk.clone_files();
        torn.wal = disk.wal[..cut].to_vec();
        let (mut revived, _) = torn.boot().expect("a torn tail never fails startup");
        // a record is honored iff its whole line content lies within the
        // cut; losing only the trailing newline keeps it intact
        let intact = line_ends.iter().filter(|e| **e <= cut).count() as u32;
        for i in 0..5u32 {
            let expect = if i < intact { Some(i + 10) } else { None };
            assert_eq!(
                revived.get(&k(&format!("t{}", i))),
                expect,
                "cut at {}",
                cut
            );
        }
    }
}

#[test]
fn durability_across_restart() {
    let mut disk = Disk::new();
    let mut store = MemTable::new();
    for i in 0..2500u32 {
        let ops = store.put(k(&format!("d{}", i)), i);
        disk.apply(ops);
    }
    for i in 0..40u32 {
        let ops = store.delete(k(&format!("d{}", i * 3)));
        disk.apply(ops);
    }
    let (mut revived, orphans) = disk.boot().unwrap();
    assert!(orphans.is_empty());
    for i in 0..2500u32 {
        let key = k(&format!("d{}", i));
        let before = store.get(&key);
        assert_eq!(revived.get(&key), before, "key d{}", i);
    }
}

#[test]
fn orphans_are_reported() {
    let mut disk = Disk::new();
    let mut store = MemTable::new();
    for i in 0..2000u32 {
        let ops = store.put(k(&format!("o{}", i)), i);
        disk.apply(ops);
    }
    assert_eq!(disk.files.len(), 1);
    // a leftover from an interrupted flush, not referenced by the manifest
    disk.files.push((k("data/sst/sst-99.json"), k("leftover")));
    let (_revived, orphans) = disk.boot().unwrap();
    assert_eq!(orphans, vec![k("data/sst/sst-99.json")]);
}

#[test]
fn startup_missing_sst_is_io() {
    let mut disk = Disk::new();
    let mut store = MemTable::new();
    for i in 0..2000u32 {
        let ops = store.put(k(&format!("m{}", i)), i);
        disk.apply(ops);
    }
    disk.files.clear();
    assert!(matches!(disk.boot(), Err(KvError::Io)));
}

#[test]
fn startup_corrupt_sst_is_json() {
    let mut disk = Disk::new();
    let mut store = MemTable::new();
    for i in 0..2000u32 {
        let ops = store.put(k(&format!("c{}", i)), i);
        disk.apply(ops);
    }
    disk.files[0].1 = k("not json at all");
    assert!(matches!(disk.boot(), Err(KvError::Json)));
}

#[test]
fn startup_bad_manifest_is_json() {
    let mut disk = Disk::new();
    disk.manifest = k("what is this");
    assert!(matches!(disk.boot(), Err(KvError::Json)));
}

#[test]
fn startup_tolerates_manifest_trailing_newline() {
    let mut disk = Disk::new();
    let mut store = MemTable::new();
    for i in 0..2000u32 {
        let ops = store.put(k(&format!("n{}", i)), i);
        disk.apply(ops);
    }
    disk.manifest.push(b'\n');
    let (mut revived, _) = disk.boot().unwrap();
    assert_eq!(revived.get(&k("n1999")), Some(1999));
}
