//! Core of a single-node log-structured merge (LSM) key-value store.
//!
//! The verified engine keeps the memtable, the manifest of live SSTs and an
//! in-memory mirror of the on-disk state; every mutation returns the ordered
//! list of file-system effects that an (unverified) shell must perform to make
//! the change durable.

use vstd::prelude::*;

pub mod checksum;
pub mod codec;
pub mod error;
pub mod laws;
pub mod memtable;
pub mod num;
pub mod order;
pub mod parse;
pub mod wal;

verus! {

/// Keys are opaque, non-empty byte strings.
pub type Key = Vec<u8>;

/// Values are unsigned 32-bit integers.
pub type Value = u32;

} // verus!
