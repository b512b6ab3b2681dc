//! Hashes of data and files, and sizes in words.

use openjd::hash::{
    hash_data, human_readable_file_size, require_chunk_size, require_file_size, ChunkError,
    ChunkHasher, FileHasher, HashAlgorithm,
};

/// Hashes data as a file that is read in chunks.
fn chunked(data: &[u8], chunk_size: u64) -> Vec<String> {
    let mut hasher = ChunkHasher::new(chunk_size, data.len() as u64);
    let mut at = 0;
    loop {
        let len = hasher.next_len() as usize;
        if len == 0 {
            return hasher.finish();
        }
        hasher.push(&data[at..at + len]);
        at += len;
    }
}

#[test]
fn hash_known_data() {
    let h = hash_data(b"hello world");
    assert_eq!(h.len(), 32);
    // Deterministic: the same input always has the same hash.
    assert_eq!(h, hash_data(b"hello world"));
    // Different input has a different hash.
    assert_ne!(h, hash_data(b"goodbye"));
}

#[test]
fn hash_empty_data() {
    let h = hash_data(b"");
    assert_eq!(h.len(), 32);
    assert_eq!(h, "99aa06d3014798d86001c324468d497f");
}

#[test]
fn pieces_hash_like_the_whole() {
    let data: Vec<u8> = (0..3000u32).map(|i| (i % 251) as u8).collect();
    let mut hasher = FileHasher::new();
    assert_eq!(hasher.finish(), hash_data(b""));
    hasher.update(&data[..1]);
    hasher.update(&data[1..1000]);
    assert_eq!(hasher.finish(), hash_data(&data[..1000]));
    hasher.update(&data[1000..]);
    assert_eq!(hasher.finish(), hash_data(&data));
}

#[test]
fn hash_temp_file() {
    let mut hasher = FileHasher::new();
    hasher.update(b"file content");
    assert_eq!(hasher.finish(), hash_data(b"file content"));
}

#[test]
fn hash_chunked_file() {
    // 10 bytes in chunks of 4 are 3 chunks (4 + 4 + 2).
    let hashes = chunked(&[0u8; 10], 4);
    assert_eq!(hashes.len(), 3);
    assert_eq!(hashes[0], hash_data(&[0u8; 4]));
    assert_eq!(hashes[2], hash_data(&[0u8; 2]));
}

#[test]
fn hash_chunked_file_is_deterministic() {
    let chunk_size: u64 = 1024;
    let data: Vec<u8> = (0..3 * chunk_size).map(|i| (i % 256) as u8).collect();
    let h1 = chunked(&data, chunk_size);
    let h2 = chunked(&data, chunk_size);
    assert_eq!(h1.len(), 3);
    assert_eq!(h1, h2);
}

#[test]
fn hash_chunked_empty_file() {
    let hashes = chunked(&[], 4);
    assert_eq!(hashes.len(), 1);
    assert_eq!(hashes[0], hash_data(b""));
}

#[test]
fn hash_chunked_rejects_zero_chunk_size() {
    let err = require_chunk_size(0).unwrap_err();
    assert!(matches!(err, ChunkError::ZeroChunkSize));
    assert!(err.message().contains("chunk_size > 0"));
    assert!(require_chunk_size(1).is_ok());
}

#[test]
fn hash_chunked_size_mismatch_longer_on_disk() {
    // The manifest says 5 bytes but the file is 10 bytes.
    let err = require_file_size("f.bin", 5, 10).unwrap_err();
    assert!(matches!(err, ChunkError::SizeMismatch { expected: 5, actual: 10, .. }));
    assert!(err.message().contains("size"), "{}", err.message());
}

#[test]
fn hash_chunked_size_mismatch_shorter_on_disk() {
    // The manifest says 10 bytes but the file is 5 bytes.
    let err = require_file_size("f.bin", 10, 5).unwrap_err();
    assert!(matches!(err, ChunkError::SizeMismatch { expected: 10, actual: 5, .. }));
    assert!(err.message().contains("size"), "{}", err.message());
    assert!(require_file_size("f.bin", 5, 5).is_ok());
}

#[test]
fn each_chunk_has_its_own_hash() {
    let data: Vec<u8> = (0..1000u32).map(|i| (i * 7 % 256) as u8).collect();
    for chunk in [1usize, 3, 250, 999, 1000, 1001] {
        let hashes = chunked(&data, chunk as u64);
        let expected: Vec<String> = data.chunks(chunk).map(hash_data).collect();
        assert_eq!(hashes, expected);
    }
}

#[test]
fn hash_algorithm_extension() {
    assert_eq!(HashAlgorithm::Xxh128.extension(), "xxh128");
    assert_eq!(HashAlgorithm::Xxh128.to_string(), "xxh128");
}

#[test]
fn human_readable_bytes() {
    assert_eq!(human_readable_file_size(0), "0 B");
    assert_eq!(human_readable_file_size(1), "1 B");
    assert_eq!(human_readable_file_size(999), "999 B");
}

#[test]
fn human_readable_kilobytes() {
    assert_eq!(human_readable_file_size(1_000), "1 KB");
    assert_eq!(human_readable_file_size(1_500), "1.5 KB");
}

#[test]
fn human_readable_megabytes() {
    assert_eq!(human_readable_file_size(1_000_000), "1 MB");
    assert_eq!(human_readable_file_size(256 * 1024 * 1024), "268.44 MB");
}

#[test]
fn human_readable_gigabytes() {
    assert_eq!(human_readable_file_size(1_000_000_000), "1 GB");
}

#[test]
fn human_readable_terabytes() {
    assert_eq!(human_readable_file_size(1_000_000_000_000), "1 TB");
}

#[test]
fn human_readable_petabytes() {
    assert_eq!(human_readable_file_size(1_000_000_000_000_000), "1 PB");
}

#[test]
fn human_readable_exabytes() {
    assert_eq!(human_readable_file_size(1_000_000_000_000_000_000), "1 EB");
    assert_eq!(human_readable_file_size(u64::MAX), "18.45 EB");
}

#[test]
fn sizes_are_those_of_floating_point() {
    // A size is rounded to hundredths and, unless that is below a thousand,
    // divided by a thousand.
    let mut seed: u64 = 7;
    for _ in 0..2000 {
        seed = seed.wrapping_mul(6364136223846793005).wrapping_add(1442695040888963407);
        let bytes = seed >> (seed % 61);
        let mut size = bytes as f64;
        let mut expected = String::new();
        for unit in ["B", "KB", "MB", "GB", "TB", "PB", "EB"] {
            let rounded = (size * 100.0).round() / 100.0;
            if rounded < 1000.0 {
                expected = format!("{rounded} {unit}");
                break;
            }
            size /= 1000.0;
        }
        assert_eq!(human_readable_file_size(bytes), expected, "{bytes}");
    }
    assert_eq!(human_readable_file_size(999_995), "1 MB");
}
