//! Engine error taxonomy.

use vstd::prelude::*;

verus! {

/// Errors surfaced by the storage engine.
///
/// `Io` covers filesystem failures (reported by the shell that performs
/// the effects) and resource exhaustion; `Json` a record or manifest that
/// does not parse; `InvalidChecksum` a framed WAL record whose checksum
/// does not match (consumed internally as "stop replay here").
#[derive(Debug)]
pub enum KvError {
    Io,
    Json,
    InvalidChecksum,
}

} // verus!
