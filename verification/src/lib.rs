//! Local-first log search and correlation engine: ingestion of security
//! events, a query language with an inverted index, an entity graph with
//! path search, and explainable detection rules.

pub mod text;
pub mod time;
pub mod trie;
pub mod union_find;
pub mod agree;
pub mod detect;
pub mod engine;
pub mod event;
pub mod graph;
pub mod heap;
pub mod index;
pub mod ingest;
pub mod postings;
pub mod query;
pub mod sort;
pub mod synthetic;

use crate::event::{sha256, sha256_of, EventRecord};
use crate::text::{chars_of, hex, push_hex, seq_eq};
use vstd::prelude::*;

verus! {

/// Name written into every persisted index.
pub const INDEX_FORMAT: &'static str = "traceforge-index";

/// Version of the persisted index layout.
pub const INDEX_VERSION: u32 = 1;

/// Versioned payload persisted by `build-index`: the events and the
/// SHA-256 of their serialized form.
#[derive(Debug, Clone)]
pub struct IndexSnapshot {
    pub format: String,
    pub version: u32,
    pub created_at: String,
    pub events: Vec<EventRecord>,
    pub sha256: String,
}

/// Why a persisted index is refused.
#[derive(Debug, Clone, Copy, PartialEq, Eq, Structural)]
pub enum SnapshotError {
    UnsupportedFormat,
    ChecksumMismatch,
}

impl SnapshotError {
    pub open spec fn text(self) -> Seq<char> {
        match self {
            SnapshotError::UnsupportedFormat => "unsupported index format or version"@,
            SnapshotError::ChecksumMismatch => "index checksum mismatch"@,
        }
    }

    pub fn message(self) -> (r: String)
        ensures
            r@ == self.text(),
    {
        match self {
            SnapshotError::UnsupportedFormat => String::from_str("unsupported index format or version"),
            SnapshotError::ChecksumMismatch => String::from_str("index checksum mismatch"),
        }
    }
}

/// Lowercase hex of the SHA-256 digest of `bytes`.
pub open spec fn digest_hex(bytes: Seq<u8>) -> Seq<char> {
    hex(sha256_of(bytes))
}

fn digest_hex_exec(bytes: &[u8]) -> (r: String)
    ensures
        r@ == digest_hex(bytes@),
{
    let d = sha256(bytes);
    let mut s = String::new();
    push_hex(&mut s, d.as_slice());
    s
}

impl IndexSnapshot {
    /// A snapshot of `events`, whose serialized form is `serialized`,
    /// stamped with the current format and version.
    pub fn seal(created_at: String, events: Vec<EventRecord>, serialized: &[u8]) -> (s: IndexSnapshot)
        ensures
            s.format@ == INDEX_FORMAT@,
            s.version == INDEX_VERSION,
            s.created_at == created_at,
            s.events == events,
            s.sha256@ == digest_hex(serialized@),
    {
        IndexSnapshot {
            format: String::from_str(INDEX_FORMAT),
            version: INDEX_VERSION,
            created_at,
            events,
            sha256: digest_hex_exec(serialized),
        }
    }

    /// What loading decides for a snapshot whose events serialize to
    /// `serialized`.
    pub open spec fn verdict(self, serialized: Seq<u8>) -> Result<(), SnapshotError> {
        if self.format@ != INDEX_FORMAT@ || self.version != INDEX_VERSION {
            Err(SnapshotError::UnsupportedFormat)
        } else if self.sha256@ != digest_hex(serialized) {
            Err(SnapshotError::ChecksumMismatch)
        } else {
            Ok(())
        }
    }

    /// Accepts a loaded snapshot whose events serialize to `serialized`:
    /// it must carry the current format and version and a matching digest.
    pub fn check(&self, serialized: &[u8]) -> (r: Result<(), SnapshotError>)
        ensures
            r == self.verdict(serialized@),
    {
        let f = chars_of(self.format.as_str());
        let expected = chars_of(INDEX_FORMAT);
        if !seq_eq(f.as_slice(), expected.as_slice()) || self.version != INDEX_VERSION {
            return Err(SnapshotError::UnsupportedFormat);
        }
        let actual = digest_hex_exec(serialized);
        let a = chars_of(actual.as_str());
        let stored = chars_of(self.sha256.as_str());
        if !seq_eq(a.as_slice(), stored.as_slice()) {
            return Err(SnapshotError::ChecksumMismatch);
        }
        Ok(())
    }
}

/// A snapshot as `seal` makes it is accepted by `check` when its events
/// serialize to the same bytes again.
pub proof fn lemma_sealed_snapshot_accepted(s: IndexSnapshot, serialized: Seq<u8>)
    requires
        s.format@ == INDEX_FORMAT@,
        s.version == INDEX_VERSION,
        s.sha256@ == digest_hex(serialized),
    ensures
        s.verdict(serialized) == Ok::<(), SnapshotError>(()),
{
}

/// A snapshot is refused when its bytes hash differently from what it
/// records, even with the current format and version.
pub proof fn lemma_tampered_snapshot_refused(s: IndexSnapshot, serialized: Seq<u8>)
    requires
        s.format@ == INDEX_FORMAT@,
        s.version == INDEX_VERSION,
        s.sha256@ != digest_hex(serialized),
    ensures
        s.verdict(serialized) == Err::<(), SnapshotError>(SnapshotError::ChecksumMismatch),
{
}

} // verus!
