//! Write-ahead-log entries and the in-memory WAL state.

use crate::Key;
use crate::Value;
use crate::codec::enc_wal_line;
use crate::codec::encode_wal_line;
use crate::memtable::PutRequest;
use crate::memtable::copy_key;
use crate::parse::replay_spec;
use crate::parse::replay_wal;
use vstd::prelude::*;

verus! {

/// One logged mutation: an upsert or a tombstone.
pub enum Entry {
    Put(PutRequest),
    Delete { key: Key },
}

/// The key an entry is about.
pub open spec fn key_of(e: Entry) -> Seq<u8> {
    match e {
        Entry::Put(r) => r.key@,
        Entry::Delete { key } => key@,
    }
}

/// The value an entry binds: `None` for a tombstone.
pub open spec fn val_of(e: Entry) -> Option<u32> {
    match e {
        Entry::Put(r) => Some(r.value),
        Entry::Delete { .. } => None,
    }
}

/// The (key, value) model of each entry, in order.
pub open spec fn models_of(es: Seq<Entry>) -> Seq<(Seq<u8>, Option<u32>)> {
    es.map_values(|e: Entry| (key_of(e), val_of(e)))
}

impl Entry {
    pub fn put(key: Key, value: Value) -> (e: Entry)
        ensures
            key_of(e) == key@,
            val_of(e) == Some(value),
    {
        Entry::Put(PutRequest::new(key, value))
    }

    pub fn delete(key: Key) -> (e: Entry)
        ensures
            key_of(e) == key@,
            val_of(e) == None::<u32>,
    {
        Entry::Delete { key }
    }

    pub fn key(&self) -> (k: &Vec<u8>)
        ensures
            k@ == key_of(*self),
    {
        match self {
            Entry::Put(r) => &r.key,
            Entry::Delete { key } => key,
        }
    }

    pub fn is_put(&self) -> (b: bool)
        ensures
            b == (val_of(*self) is Some),
    {
        match self {
            Entry::Put(_) => true,
            Entry::Delete { .. } => false,
        }
    }
}

/// The write-ahead log as the engine sees it: a mirror of the entries
/// whose records have been handed out for appending since the last
/// truncation. The mirror is ghost; the engine emits the encoded record
/// lines as effects for the shell to write.
pub struct Wal {
    pub entries: Ghost<Seq<Entry>>,
    pub count: usize,
}

impl Wal {
    pub fn new() -> (w: Wal)
        ensures
            w.entries@ == Seq::<Entry>::empty(),
            w.count == 0,
    {
        Wal { entries: Ghost(Seq::empty()), count: 0 }
    }

    /// Log an upsert: returns the framed record line (newline included)
    /// that must be appended and fsynced before the write is acknowledged.
    pub fn put(&mut self, key: &Key, value: Value) -> (line: Vec<u8>)
        requires
            old(self).count < usize::MAX,
        ensures
            final(self).entries@.len() == old(self).entries@.len() + 1,
            final(self).entries@.drop_last() == old(self).entries@,
            key_of(final(self).entries@.last()) == key@,
            val_of(final(self).entries@.last()) == Some(value),
            line@ == enc_wal_line(key@, Some(value)) + seq![10u8],
            final(self).count == old(self).count + 1,
    {
        self.count = self.count + 1;
        let key_copy = copy_key(key);
        let e = Entry::put(key_copy, value);
        let line = encode_wal_line(&e);
        proof {
            self.entries@ = self.entries@.push(e);
            assert(final(self).entries@.drop_last() =~= old(self).entries@);
        }
        line
    }

    /// Log a tombstone.
    pub fn delete(&mut self, key: &Key) -> (line: Vec<u8>)
        requires
            old(self).count < usize::MAX,
        ensures
            final(self).entries@.len() == old(self).entries@.len() + 1,
            final(self).entries@.drop_last() == old(self).entries@,
            key_of(final(self).entries@.last()) == key@,
            val_of(final(self).entries@.last()) == None::<u32>,
            line@ == enc_wal_line(key@, None) + seq![10u8],
            final(self).count == old(self).count + 1,
    {
        self.count = self.count + 1;
        let key_copy = copy_key(key);
        let e = Entry::delete(key_copy);
        let line = encode_wal_line(&e);
        proof {
            self.entries@ = self.entries@.push(e);
            assert(final(self).entries@.drop_last() =~= old(self).entries@);
        }
        line
    }

    /// Forget the logged entries; called only after a successful flush has
    /// promoted them into a manifest-referenced SST.
    pub fn reset(&mut self)
        ensures
            final(self).entries@ == Seq::<Entry>::empty(),
            final(self).count == 0,
    {
        self.count = 0;
        proof {
            self.entries@ = Seq::empty();
        }
    }

    /// Replay the log read from disk: the entries of its longest validated
    /// prefix, which become both the mirror and the recovered memtable
    /// contents.
    pub fn startup(&mut self, bytes: &Vec<u8>) -> (entries: Vec<Entry>)
        ensures
            models_of(entries@) == replay_spec(bytes@),
            final(self).entries@ == entries@,
            final(self).count == entries@.len(),
    {
        let entries = replay_wal(bytes);
        self.count = entries.len();
        proof {
            self.entries@ = entries@;
        }
        entries
    }
}

} // verus!
