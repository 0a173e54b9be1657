use traceforge::synthetic::{generate_events, Scenario};
use traceforge::{IndexSnapshot, SnapshotError, INDEX_FORMAT, INDEX_VERSION};

#[test]
fn sealed_snapshot_passes_its_own_check() {
    let events = generate_events(3, 1, Scenario::Baseline);
    let bytes = b"[serialized events]";
    let snapshot = IndexSnapshot::seal("2026-01-01T00:00:00+00:00".to_string(), events, bytes);
    assert_eq!(snapshot.format, INDEX_FORMAT);
    assert_eq!(snapshot.version, INDEX_VERSION);
    assert_eq!(snapshot.sha256.len(), 64);
    assert_eq!(snapshot.check(bytes), Ok(()));
    assert_eq!(snapshot.check(b"[other]"), Err(SnapshotError::ChecksumMismatch));
}

#[test]
fn digest_is_sha256_in_lowercase_hex() {
    let snapshot = IndexSnapshot::seal(String::new(), Vec::new(), b"abc");
    assert_eq!(snapshot.sha256, "ba7816bf8f01cfea414140de5dae2223b00361a396177a9cb410ff61f20015ad");
}

#[test]
fn foreign_format_or_version_is_refused() {
    let mut snapshot = IndexSnapshot::seal(String::new(), Vec::new(), b"x");
    snapshot.version = 2;
    assert_eq!(snapshot.check(b"x"), Err(SnapshotError::UnsupportedFormat));
    snapshot.version = INDEX_VERSION;
    snapshot.format = "other".to_string();
    assert_eq!(snapshot.check(b"x"), Err(SnapshotError::UnsupportedFormat));
    assert_eq!(SnapshotError::UnsupportedFormat.message(), "unsupported index format or version");
    assert_eq!(SnapshotError::ChecksumMismatch.message(), "index checksum mismatch");
}
