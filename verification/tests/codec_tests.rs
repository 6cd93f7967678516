use tinysearch::codec::DecodeError;
use tinysearch::score::Score;
use tinysearch::storage::{generate_filters, PostId, Storage};
use tinysearch::tokenizer::tokenize;

fn post_id(source: &str, name: &str) -> PostId {
    (source.to_string(), name.to_string())
}

fn decode_err(bytes: &[u8]) -> DecodeError {
    match Storage::from_bytes(bytes) {
        Ok(_) => panic!("expected the blob to be rejected"),
        Err(e) => e,
    }
}

fn sample_storage() -> Storage {
    let posts = vec![
        (post_id("blog", "doc1"), "Rust is great".to_string()),
        (post_id("blog", "doc2"), "Go is great too".to_string()),
        (post_id("notes", "empty"), "".to_string()),
    ];
    Storage::from(generate_filters(posts).unwrap())
}

#[test]
fn round_trip_keeps_all_keys() {
    let storage = sample_storage();
    let bytes = storage.to_bytes();
    let restored = Storage::from_bytes(&bytes).unwrap();
    assert_eq!(restored.filters.len(), storage.filters.len());
    for (before, after) in storage.filters.iter().zip(restored.filters.iter()) {
        assert_eq!(before.0, after.0);
    }
}

#[test]
fn round_trip_no_false_negative() {
    let texts = ["Rust is great", "Go is great too", ""];
    let storage = sample_storage();
    let bytes = storage.to_bytes();
    let restored = Storage::from_bytes(&bytes).unwrap();
    for (k, text) in texts.iter().enumerate() {
        for token in tokenize(text) {
            assert!(restored.filters[k].1.contains(&token));
        }
    }
}

#[test]
fn round_trip_scores_unchanged() {
    let storage = sample_storage();
    let bytes = storage.to_bytes();
    let restored = Storage::from_bytes(&bytes).unwrap();
    let queries: Vec<Vec<String>> = vec![
        vec!["great".to_string(), "rust".to_string()],
        vec!["go".to_string()],
        vec!["missing".to_string()],
        vec![],
    ];
    for q in &queries {
        for (before, after) in storage.filters.iter().zip(restored.filters.iter()) {
            assert_eq!(before.1.score(q), after.1.score(q));
        }
    }
}

#[test]
fn empty_storage_round_trips() {
    let storage = Storage::from(Vec::new());
    let bytes = storage.to_bytes();
    let restored = Storage::from_bytes(&bytes).unwrap();
    assert!(restored.filters.is_empty());
}

#[test]
fn empty_blob_is_malformed() {
    assert_eq!(decode_err(&[]), DecodeError::Malformed);
}

#[test]
fn wrong_version_is_rejected() {
    let mut bytes = Vec::new();
    bytes.extend_from_slice(&2u64.to_le_bytes());
    bytes.extend_from_slice(&0u64.to_le_bytes());
    assert_eq!(decode_err(&bytes), DecodeError::UnsupportedVersion);
}

#[test]
fn truncated_blob_is_malformed() {
    let storage = sample_storage();
    let bytes = storage.to_bytes();
    let truncated = &bytes[..bytes.len() - 1];
    assert_eq!(decode_err(truncated), DecodeError::Malformed);
}

#[test]
fn trailing_bytes_are_malformed() {
    let storage = sample_storage();
    let mut bytes = storage.to_bytes();
    bytes.push(0);
    assert_eq!(decode_err(&bytes), DecodeError::Malformed);
}

#[test]
fn truncated_entry_count_is_malformed() {
    let mut bytes = Vec::new();
    bytes.extend_from_slice(&1u64.to_le_bytes());
    bytes.extend_from_slice(&5u64.to_le_bytes());
    assert_eq!(decode_err(&bytes), DecodeError::Malformed);
}

#[test]
fn invalid_utf8_id_is_malformed() {
    let mut bytes = Vec::new();
    bytes.extend_from_slice(&1u64.to_le_bytes());
    bytes.extend_from_slice(&1u64.to_le_bytes());
    bytes.extend_from_slice(&1u64.to_le_bytes());
    bytes.push(0xff);
    assert_eq!(decode_err(&bytes), DecodeError::Malformed);
}

#[test]
fn empty_filter_byte_run_is_rejected() {
    // version 1, one entry, two empty id strings, an empty bucket run and a
    // zero element count: the empty bucket run must be rejected, not turned
    // into a filter with no buckets.
    let mut bytes = Vec::new();
    bytes.extend_from_slice(&1u64.to_le_bytes());
    bytes.extend_from_slice(&1u64.to_le_bytes());
    bytes.extend_from_slice(&0u64.to_le_bytes());
    bytes.extend_from_slice(&0u64.to_le_bytes());
    bytes.extend_from_slice(&0u64.to_le_bytes());
    bytes.extend_from_slice(&0u64.to_le_bytes());
    assert_eq!(decode_err(&bytes), DecodeError::Malformed);
}

#[test]
fn single_bucket_blob_loads_and_scores() {
    // version 1, one entry, empty id strings, a one-bucket run of four bytes
    // and a zero element count: accepted, and querying it cannot panic.
    let mut bytes = Vec::new();
    bytes.extend_from_slice(&1u64.to_le_bytes());
    bytes.extend_from_slice(&1u64.to_le_bytes());
    bytes.extend_from_slice(&0u64.to_le_bytes());
    bytes.extend_from_slice(&0u64.to_le_bytes());
    bytes.extend_from_slice(&4u64.to_le_bytes());
    bytes.extend_from_slice(&[100u8, 100, 100, 100]);
    bytes.extend_from_slice(&0u64.to_le_bytes());
    let restored = Storage::from_bytes(&bytes).unwrap();
    assert_eq!(restored.filters.len(), 1);
    assert_eq!(restored.filters[0].1.score(&vec!["anything".to_string()]), 0);
}

#[test]
fn blob_starts_with_version_tag() {
    let storage = sample_storage();
    let bytes = storage.to_bytes();
    assert_eq!(&bytes[..8], &1u64.to_le_bytes());
}
