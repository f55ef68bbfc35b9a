//! A single-node, embedded key-value storage engine with a log-structured
//! design: every write is appended to a sequence of immutable segments, an
//! in-memory index maps each live key to the location of its most recent
//! record, and compaction rewrites the live records into a fresh segment to
//! reclaim the space of overwritten and deleted keys.
//!
//! The engine itself is purely computational: it keeps the contents of every
//! segment in memory and reports, after each write, exactly which bytes a
//! caller has to persist where.  A thin shell around the library performs the
//! actual file reads and writes.

use vstd::prelude::*;

pub mod codec;
pub mod engine;
pub mod index;
pub mod store;

verus! {

/// The ways an engine operation can fail.
///
/// I/O failures stay with the caller that performs the I/O; the engine itself
/// only ever reports that stored bytes do not form well-formed records.
#[derive(Clone, Copy, Debug, PartialEq, Eq, Structural)]
pub enum KvError {
    /// A segment's bytes do not decode as a sequence of records.
    Corrupt,
}

} // verus!
