//! Point operations, the record codecs, and the error taxonomy.

use kv::checksum::crc32;
use kv::codec::encode_manifest;
use kv::codec::encode_sst;
use kv::codec::encode_wal_line;
use kv::codec::path_of;
use kv::error::KvError;
use kv::memtable::Lookup;
use kv::memtable::MemTable;
use kv::num::u64_to_dec;
use kv::parse::decode_wal_line;
use kv::parse::parse_manifest;
use kv::parse::parse_sst;
use kv::wal::Entry;

fn k(s: &str) -> Vec<u8> {
    s.as_bytes().to_vec()
}

#[test]
fn empty_start_put_get_delete() {
    let mut store = MemTable::new();
    assert_eq!(store.get(&k("x")), None);
    store.put(k("x"), 1);
    assert_eq!(store.get(&k("x")), Some(1));
    store.put(k("x"), 2);
    assert_eq!(store.get(&k("x")), Some(2));
    store.delete(k("x"));
    assert_eq!(store.get(&k("x")), None);
}

#[test]
fn read_after_write_many_keys() {
    let mut store = MemTable::new();
    for i in 0..50u32 {
        store.put(k(&format!("key{}", i)), i * 7);
    }
    for i in 0..50u32 {
        assert_eq!(store.get(&k(&format!("key{}", i))), Some(i * 7));
    }
}

#[test]
fn last_write_wins_sequence() {
    let mut store = MemTable::new();
    store.put(k("a"), 1);
    store.put(k("a"), 2);
    store.delete(k("a"));
    store.put(k("a"), 3);
    store.put(k("b"), 9);
    store.put(k("a"), 4);
    assert_eq!(store.get(&k("a")), Some(4));
    assert_eq!(store.get(&k("b")), Some(9));
    store.delete(k("b"));
    assert_eq!(store.get(&k("b")), None);
}

#[test]
fn delete_then_put_again() {
    let mut store = MemTable::new();
    store.put(k("a"), 5);
    store.delete(k("a"));
    assert_eq!(store.get(&k("a")), None);
    store.put(k("a"), 8);
    assert_eq!(store.get(&k("a")), Some(8));
}

#[test]
fn negative_cache_invalidated_by_put() {
    let mut store = MemTable::new();
    // a confirmed miss populates the negative cache
    assert_eq!(store.get(&k("ghost")), None);
    assert_eq!(store.get(&k("ghost")), None);
    // a later put must invalidate it
    store.put(k("ghost"), 42);
    assert_eq!(store.get(&k("ghost")), Some(42));
}

#[test]
fn lookup_is_three_valued() {
    let mut store = MemTable::new();
    assert!(matches!(store.lookup(&k("a")), Lookup::Absent));
    store.put(k("a"), 11);
    assert!(matches!(store.lookup(&k("a")), Lookup::Found(11)));
    store.delete(k("a"));
    assert!(matches!(store.lookup(&k("a")), Lookup::Tombstoned));
}

#[test]
fn wal_line_round_trip() {
    let e = Entry::put(k("hello"), 123);
    let mut line = encode_wal_line(&e);
    assert_eq!(line.last(), Some(&b'\n'));
    line.pop();
    let back = decode_wal_line(&line).unwrap();
    match back {
        Entry::Put(r) => {
            assert_eq!(r.key, k("hello"));
            assert_eq!(r.value, 123);
        },
        Entry::Delete { .. } => panic!("expected a put"),
    }
    let d = Entry::delete(k("gone"));
    let mut line = encode_wal_line(&d);
    line.pop();
    assert!(matches!(decode_wal_line(&line), Ok(Entry::Delete { .. })));
}

#[test]
fn wal_line_exact_shape() {
    // {"hash":H,"entry":{"op":"put","key":"a","value":1}}
    let e = Entry::put(k("a"), 1);
    let line = encode_wal_line(&e);
    let text = String::from_utf8(line).unwrap();
    let payload = "{\"op\":\"put\",\"key\":\"a\",\"value\":1}";
    let h = crc32(&payload.as_bytes().to_vec());
    assert_eq!(text, format!("{{\"hash\":{},\"entry\":{}}}\n", h, payload));
}

#[test]
fn wal_line_checksum_mismatch() {
    let e = Entry::put(k("abc"), 7);
    let mut line = encode_wal_line(&e);
    line.pop();
    // flip a digit of the framed hash; the structure still parses
    let pos = "{\"hash\":".len();
    line[pos] = if line[pos] == b'1' { b'2' } else { b'1' };
    assert!(matches!(
        decode_wal_line(&line),
        Err(KvError::InvalidChecksum)
    ));
}

#[test]
fn wal_line_parse_error() {
    let e = Entry::put(k("abc"), 7);
    let mut line = encode_wal_line(&e);
    line.pop();
    line[0] = b'x';
    assert!(matches!(decode_wal_line(&line), Err(KvError::Json)));
}

#[test]
fn crc32_known_vector() {
    assert_eq!(crc32(&b"123456789".to_vec()), 0xCBF43926);
    assert_eq!(crc32(&Vec::new()), 0);
}

#[test]
fn decimal_codec_exact() {
    assert_eq!(u64_to_dec(0), b"0".to_vec());
    assert_eq!(u64_to_dec(4294967295), b"4294967295".to_vec());
    assert_eq!(u64_to_dec(1000), b"1000".to_vec());
}

#[test]
fn sst_path_exact() {
    assert_eq!(path_of(7), b"data/sst/sst-7.json".to_vec());
    assert_eq!(path_of(120), b"data/sst/sst-120.json".to_vec());
}

#[test]
fn sst_round_trip_and_shape() {
    let entries = vec![Entry::put(k("a"), 1), Entry::delete(k("b"))];
    let bytes = encode_sst(&entries);
    let text = String::from_utf8(bytes.clone()).unwrap();
    assert_eq!(
        text,
        "[{\"key\":\"a\",\"value\":1},{\"key\":\"b\",\"deleted\":true}]"
    );
    let back = parse_sst(&bytes).unwrap();
    assert_eq!(back.len(), 2);
    assert!(matches!(&back[0], Entry::Put(r) if r.key == k("a") && r.value == 1));
    assert!(matches!(&back[1], Entry::Delete { key } if *key == k("b")));
}

#[test]
fn sst_rejects_record_with_neither_value_nor_deleted() {
    let bytes = b"[{\"key\":\"a\"}]".to_vec();
    assert!(parse_sst(&bytes).is_none());
    // non-canonical numbers are rejected too
    let bytes = b"[{\"key\":\"a\",\"value\":007}]".to_vec();
    assert!(parse_sst(&bytes).is_none());
}

#[test]
fn manifest_codec_and_trailing_newline() {
    let ids = vec![1u64, 2];
    let bytes = encode_manifest(&ids);
    assert_eq!(
        String::from_utf8(bytes.clone()).unwrap(),
        "data/sst/sst-1.json\ndata/sst/sst-2.json"
    );
    assert_eq!(parse_manifest(&bytes).unwrap(), ids);
    let mut with_nl = bytes.clone();
    with_nl.push(b'\n');
    assert_eq!(parse_manifest(&with_nl).unwrap(), ids);
    assert_eq!(parse_manifest(&Vec::new()).unwrap(), Vec::<u64>::new());
    assert!(parse_manifest(&b"nonsense".to_vec()).is_none());
}

#[test]
fn escaped_keys_survive() {
    let weird = vec![b'a', b'"', b'\\', b'\n', b'\t', b'z'];
    let mut store = MemTable::new();
    store.put(weird.clone(), 77);
    assert_eq!(store.get(&weird), Some(77));
    let e = Entry::put(weird.clone(), 77);
    let mut line = encode_wal_line(&e);
    line.pop();
    match decode_wal_line(&line).unwrap() {
        Entry::Put(r) => {
            assert_eq!(r.key, weird);
            assert_eq!(r.value, 77);
        },
        Entry::Delete { .. } => panic!("expected a put"),
    }
}
