//! Manifests of snapshots.

use openjd::hash::{HashAlgorithm, DEFAULT_FILE_CHUNK_SIZE, WHOLE_FILE_CHUNK_SIZE};
use openjd::manifest::{
    AbsSnapshot, AbsSnapshotDiff, DirEntry, FileEntry, Manifest, ManifestError, Snapshot,
    SnapshotDiff,
};

fn abs_snapshot(files: Vec<FileEntry>) -> AbsSnapshot {
    Manifest::new(HashAlgorithm::Xxh128, DEFAULT_FILE_CHUNK_SIZE).with_files(files)
}

fn abs_diff(files: Vec<FileEntry>) -> AbsSnapshotDiff {
    Manifest::new(HashAlgorithm::Xxh128, DEFAULT_FILE_CHUNK_SIZE).with_files(files)
}

fn rel_snapshot(files: Vec<FileEntry>) -> Snapshot {
    Manifest::new(HashAlgorithm::Xxh128, DEFAULT_FILE_CHUNK_SIZE).with_files(files)
}

fn rel_diff(files: Vec<FileEntry>) -> SnapshotDiff {
    Manifest::new(HashAlgorithm::Xxh128, DEFAULT_FILE_CHUNK_SIZE).with_files(files)
}

fn hashed_file(path: &str, hash: &str, size: u64, mtime: u64) -> FileEntry {
    let mut f = FileEntry::file(path, size, mtime);
    f.hash = Some(hash.into());
    f
}

#[test]
fn clear_hashes_clears_hash_from_regular_files() {
    let mut m = abs_snapshot(vec![
        hashed_file("/a/file1.txt", "abc123", 100, 1000),
        hashed_file("/a/file2.txt", "def456", 200, 2000),
    ]);
    m.clear_hashes();
    assert!(m.files[0].hash.is_none());
    assert!(m.files[1].hash.is_none());
}

#[test]
fn clear_hashes_clears_chunkhashes_from_large_files() {
    let mut f = FileEntry::file("/a/large.bin", 512 * 1024 * 1024, 1000);
    f.chunk_hashes = Some(vec!["chunk1".into(), "chunk2".into()]);
    let mut m = abs_snapshot(vec![f]);
    m.clear_hashes();
    assert!(m.files[0].chunk_hashes.is_none());
}

#[test]
fn clear_hashes_preserves_symlinks() {
    let mut m = abs_snapshot(vec![FileEntry::symlink("/a/link", "/a/target")]);
    m.clear_hashes();
    assert_eq!(m.files[0].symlink_target.as_deref(), Some("/a/target"));
}

#[test]
fn clear_hashes_preserves_deleted_entries() {
    let mut m = abs_diff(vec![FileEntry::deleted("/a/deleted.txt")]);
    m.clear_hashes();
    assert!(m.files[0].deleted);
}

#[test]
fn clear_hashes_works_on_abs_snapshot() {
    let mut m = abs_snapshot(vec![hashed_file("/a/file.txt", "abc", 100, 1000)]);
    m.clear_hashes();
    assert!(m.files[0].hash.is_none());
}

#[test]
fn clear_hashes_works_on_abs_snapshot_diff() {
    let mut m = abs_diff(vec![hashed_file("/a/file.txt", "abc", 100, 1000)]);
    m.clear_hashes();
    assert!(m.files[0].hash.is_none());
}

#[test]
fn clear_hashes_works_on_rel_snapshot() {
    let mut m = rel_snapshot(vec![hashed_file("file.txt", "abc", 100, 1000)]);
    m.clear_hashes();
    assert!(m.files[0].hash.is_none());
}

#[test]
fn clear_hashes_works_on_rel_snapshot_diff() {
    let mut m = rel_diff(vec![hashed_file("file.txt", "abc", 100, 1000)]);
    m.clear_hashes();
    assert!(m.files[0].hash.is_none());
}

#[test]
fn clear_hashes_preserves_other_file_metadata() {
    let mut f = hashed_file("/a/file.txt", "abc123", 100, 1000);
    f.runnable = true;
    let mut m = abs_snapshot(vec![f]);
    m.clear_hashes();
    let entry = &m.files[0];
    assert_eq!(entry.path, "/a/file.txt");
    assert_eq!(entry.size, Some(100));
    assert_eq!(entry.mtime, Some(1000));
    assert!(entry.runnable);
}

#[test]
fn clear_hashes_mixed_entries() {
    let mut chunked = FileEntry::file("/a/chunked.bin", 512 * 1024 * 1024, 2000);
    chunked.chunk_hashes = Some(vec!["c1".into(), "c2".into()]);

    let mut m = abs_diff(vec![
        hashed_file("/a/hashed.txt", "abc", 100, 1000),
        chunked,
        FileEntry::symlink("/a/link", "/a/target"),
        FileEntry::deleted("/a/deleted.txt"),
        FileEntry::file("/a/unhashed.txt", 50, 3000),
    ]);
    m.clear_hashes();

    assert!(m.files[0].hash.is_none());
    assert!(m.files[1].chunk_hashes.is_none());
    assert_eq!(m.files[2].symlink_target.as_deref(), Some("/a/target"));
    assert!(m.files[3].deleted);
    assert!(m.files[4].hash.is_none());
}

#[test]
fn validate_rejects_duplicate_file_paths() {
    let m = rel_snapshot(vec![
        FileEntry::file("a.txt", 10, 100),
        FileEntry::file("a.txt", 20, 200),
    ]);
    let err = m.validate().unwrap_err().to_string();
    assert!(err.contains("duplicate path: a.txt"));
}

#[test]
fn validate_rejects_duplicate_dir_paths() {
    let m: Snapshot = Manifest::new(HashAlgorithm::Xxh128, DEFAULT_FILE_CHUNK_SIZE)
        .with_dirs(vec![DirEntry::new("dir"), DirEntry::new("dir")]);
    let err = m.validate().unwrap_err().to_string();
    assert!(err.contains("duplicate path: dir"));
}

#[test]
fn validate_rejects_file_dir_same_path() {
    let mut m = rel_snapshot(vec![FileEntry::file("a", 10, 100)]);
    m.dirs = vec![DirEntry::new("a")];
    let err = m.validate().unwrap_err().to_string();
    assert!(err.contains("duplicate path: a"));
}

#[test]
fn validate_accepts_unique_paths() {
    let mut m = rel_snapshot(vec![
        FileEntry::file("a.txt", 10, 100),
        FileEntry::file("b.txt", 20, 200),
    ]);
    m.dirs = vec![DirEntry::new("c")];
    assert!(m.validate().is_ok());
}

/// `Manifest::validate()` rejects negative `file_chunk_size_bytes` values other
/// than `-1` (`WHOLE_FILE_CHUNK_SIZE`) with a sensible, self-describing error.
#[test]
fn validate_rejects_bad_negative_chunk_size_with_sensible_message() {
    let mut f = FileEntry::file("a.bin", 1024, 1);
    f.chunk_hashes = Some(vec!["a".into(), "b".into()]);
    let m: Snapshot = Manifest::new(HashAlgorithm::Xxh128, -2).with_files(vec![f]);
    let err = m.validate().unwrap_err().to_string();
    assert_eq!(
        err,
        "Manifest validation error: invalid fileChunkSizeBytes: got -2, \
         must be -1 (WHOLE_FILE_CHUNK_SIZE) or a positive integer",
    );
}

/// The chunk-size invariant is manifest-level, so `validate()` must reject a
/// bad value even when no file declares `chunk_hashes` (i.e. before any
/// chunk-count computation would ever run).
#[test]
fn validate_rejects_bad_negative_chunk_size_without_chunked_files() {
    let m: Snapshot =
        Manifest::new(HashAlgorithm::Xxh128, -2).with_files(vec![FileEntry::file("a.bin", 10, 1)]);
    let err = m.validate().unwrap_err().to_string();
    assert_eq!(
        err,
        "Manifest validation error: invalid fileChunkSizeBytes: got -2, \
         must be -1 (WHOLE_FILE_CHUNK_SIZE) or a positive integer",
    );
}

/// `Manifest::validate()` rejects `file_chunk_size_bytes = 0` with a sensible
/// error.
#[test]
fn validate_rejects_zero_chunk_size_with_sensible_message() {
    let mut f = FileEntry::file("a.bin", 3, 1);
    f.chunk_hashes = Some(vec!["a".into()]);
    let m: Snapshot = Manifest::new(HashAlgorithm::Xxh128, 0).with_files(vec![f]);
    let err = m.validate().unwrap_err().to_string();
    assert_eq!(
        err,
        "Manifest validation error: invalid fileChunkSizeBytes: got 0, \
         must be -1 (WHOLE_FILE_CHUNK_SIZE) or a positive integer",
    );
}

/// Same as above: zero is rejected even without any chunked files.
#[test]
fn validate_rejects_zero_chunk_size_without_chunked_files() {
    let m: Snapshot =
        Manifest::new(HashAlgorithm::Xxh128, 0).with_files(vec![FileEntry::file("a.bin", 10, 1)]);
    let err = m.validate().unwrap_err().to_string();
    assert_eq!(
        err,
        "Manifest validation error: invalid fileChunkSizeBytes: got 0, \
         must be -1 (WHOLE_FILE_CHUNK_SIZE) or a positive integer",
    );
}

/// Sanity: `file_chunk_size_bytes = -1` (`WHOLE_FILE_CHUNK_SIZE`) is accepted —
/// it's the sentinel meaning "no chunking".
#[test]
fn validate_accepts_whole_file_chunk_size_sentinel() {
    let m: Snapshot = Manifest::new(HashAlgorithm::Xxh128, WHOLE_FILE_CHUNK_SIZE)
        .with_files(vec![FileEntry::file("a.bin", 10, 1)]);
    assert!(m.validate().is_ok());
}

/// Sanity: a positive `file_chunk_size_bytes` is accepted.
#[test]
fn validate_accepts_positive_chunk_size() {
    let m: Snapshot = Manifest::new(HashAlgorithm::Xxh128, 1024)
        .with_files(vec![FileEntry::file("a.bin", 10, 1)]);
    assert!(m.validate().is_ok());
}

/// The files of a manifest in JSON.
fn read_files(json: &str) -> Vec<FileEntry> {
    let manifest: serde_json::Value = serde_json::from_str(json).expect("JSON");
    let text = |v: &serde_json::Value| v.as_str().map(str::to_owned);
    manifest["files"]
        .as_array()
        .expect("a list of files")
        .iter()
        .map(|f| FileEntry {
            path: text(&f["path"]).expect("a path"),
            hash: text(&f["hash"]),
            size: f["size"].as_u64(),
            mtime: f["mtime"].as_u64(),
            chunk_hashes: None,
            symlink_target: text(&f["symlinkTarget"]),
            runnable: f["runnable"].as_bool().unwrap_or(false),
            deleted: f["deleted"].as_bool().unwrap_or(false),
        })
        .collect()
}

/// The path style is not written, so absolute paths are read into a manifest of
/// relative ones; `validate()` rejects them.
#[test]
fn deserialization_accepts_mismatched_paths_and_validate_rejects_them() {
    let json = r#"{"hashAlg":"xxh128","fileChunkSizeBytes":-1,"files":[{"path":"/absolute/path.txt",
        "hash":"abc123","size":100,"mtime":1000,"runnable":false,"deleted":false}],"dirs":[]}"#;
    let abs: AbsSnapshot = Manifest::new(HashAlgorithm::Xxh128, WHOLE_FILE_CHUNK_SIZE)
        .with_files(read_files(json));
    assert!(abs.validate().is_ok());
    assert_eq!(abs.files[0].hash.as_deref(), Some("abc123"));
    assert_eq!(abs.files[0].size, Some(100));
    assert_eq!(abs.files[0].mtime, Some(1000));

    let rel: Snapshot = Manifest::new(HashAlgorithm::Xxh128, WHOLE_FILE_CHUNK_SIZE)
        .with_files(read_files(json));

    let err = rel.validate().unwrap_err().to_string();
    assert_eq!(
        err,
        "Manifest validation error: expected relative path, got: /absolute/path.txt",
    );
}

#[test]
fn absolute_manifests_reject_relative_paths() {
    let m = abs_snapshot(vec![FileEntry::file("a/b.txt", 1, 1)]);
    match m.validate() {
        Err(ManifestError::NotAbsolute(path)) => assert_eq!(path, "a/b.txt"),
        other => panic!("unexpected: {other:?}"),
    }
    assert!(abs_snapshot(vec![FileEntry::file("/a/b.txt", 1, 1)]).validate().is_ok());
}

#[test]
fn clearing_twice_changes_nothing_more() {
    let mut m = rel_diff(vec![hashed_file("x", "h", 1, 2), FileEntry::deleted("y")]);
    m.clear_hashes();
    let once = format!("{:?}", m.files);
    m.clear_hashes();
    assert_eq!(format!("{:?}", m.files), once);
}
