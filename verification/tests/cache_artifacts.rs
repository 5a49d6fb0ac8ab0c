use jsonl_index::cache_manager::{
    decode_inverted_index_artifact, decode_line_offset_artifact, decode_ngram_index_artifact,
    encode_line_offset_artifact, CacheError, CacheFingerprint, InvertedIndexCacheWrapper,
    LineOffsetCacheWrapper, NGramIndexCacheWrapper,
};
use jsonl_index::indexing_service::LineOffset;
use jsonl_index::inverted_index::build_inverted_index;
use jsonl_index::line_access::MemoryLines;
use jsonl_index::ngram_index::build_ngram_index;

fn fingerprint() -> CacheFingerprint {
    CacheFingerprint {
        file_size: 1234,
        mod_time_secs: 1_700_000_000,
        mod_time_nanos: 987_654_321,
    }
}

fn sample_offsets() -> Vec<LineOffset> {
    vec![
        LineOffset { offset: 0, length: 12 },
        LineOffset { offset: 12, length: 12 },
        LineOffset { offset: 24, length: 9 },
        LineOffset { offset: 33, length: 3 },
    ]
}

#[test]
fn offsets_round_trip_when_fingerprint_unchanged() {
    let fp = fingerprint();
    let wrapper = LineOffsetCacheWrapper { fingerprint: fp, index_data: sample_offsets() };
    let bytes = wrapper.encode();
    let loaded = decode_line_offset_artifact(&bytes, &fp).unwrap();
    assert_eq!(loaded, Some(sample_offsets()));
}

#[test]
fn offsets_stale_when_any_fingerprint_field_changes() {
    let fp = fingerprint();
    let bytes = encode_line_offset_artifact(&fp, &sample_offsets());
    let mut size_changed = fp;
    size_changed.file_size += 1;
    assert_eq!(decode_line_offset_artifact(&bytes, &size_changed).unwrap(), None);
    let mut secs_changed = fp;
    secs_changed.mod_time_secs += 1;
    assert_eq!(decode_line_offset_artifact(&bytes, &secs_changed).unwrap(), None);
    let mut nanos_changed = fp;
    nanos_changed.mod_time_nanos += 1;
    assert_eq!(decode_line_offset_artifact(&bytes, &nanos_changed).unwrap(), None);
}

#[test]
fn truncated_artifact_is_corrupt_not_stale() {
    let fp = fingerprint();
    let bytes = encode_line_offset_artifact(&fp, &sample_offsets());
    let truncated = &bytes[..bytes.len() - 3];
    assert_eq!(
        decode_line_offset_artifact(truncated, &fp),
        Err(CacheError::Corrupt)
    );
    assert_eq!(decode_line_offset_artifact(&[], &fp), Err(CacheError::Corrupt));
}

#[test]
fn inverted_index_round_trip_preserves_postings() {
    let acc = MemoryLines {
        lines: vec![
            "{\"a\":\"x y\"}".to_string(),
            "{\"a\":\"x y\"}".to_string(),
            "not json".to_string(),
            "{}".to_string(),
        ],
    };
    let idx = build_inverted_index(4, &acc).unwrap();
    let fp = fingerprint();
    let wrapper = InvertedIndexCacheWrapper { fingerprint: fp, index_data: idx };
    let bytes = wrapper.encode();

    let reloaded = match decode_inverted_index_artifact(&bytes, &fp) {
        Ok(Some(ix)) => ix,
        _ => panic!("expected a fresh inverted index"),
    };
    assert_eq!(reloaded.postings(&"a".to_string()), Some(&vec![0u32, 1]));
    assert_eq!(reloaded.postings(&"x".to_string()), Some(&vec![0u32, 1]));
    assert_eq!(reloaded.postings(&"y".to_string()), Some(&vec![0u32, 1]));
    assert_eq!(reloaded.postings(&"json".to_string()), None);
    assert_eq!(reloaded.term_count(), 3);

    let mut other = fp;
    other.file_size += 7;
    assert!(matches!(
        decode_inverted_index_artifact(&bytes, &other),
        Ok(None)
    ));
    assert!(matches!(
        decode_inverted_index_artifact(&bytes[..10], &fp),
        Err(CacheError::Corrupt)
    ));
}

#[test]
fn ngram_index_round_trip_preserves_postings() {
    let acc = MemoryLines {
        lines: vec!["abcd".to_string(), "xabc".to_string()],
    };
    let idx = build_ngram_index(2, &acc).unwrap();
    let fp = fingerprint();
    let wrapper = NGramIndexCacheWrapper { fingerprint: fp, index_data: idx };
    let bytes = wrapper.encode();

    let reloaded = match decode_ngram_index_artifact(&bytes, &fp) {
        Ok(Some(ix)) => ix,
        _ => panic!("expected a fresh n-gram index"),
    };
    assert_eq!(reloaded.postings(&b"abc".to_vec()), Some(&vec![0u32, 1]));
    assert_eq!(reloaded.postings(&b"bcd".to_vec()), Some(&vec![0u32]));
    assert_eq!(reloaded.postings(&b"xab".to_vec()), Some(&vec![1u32]));

    let mut other = fp;
    other.mod_time_nanos = 0;
    assert!(matches!(decode_ngram_index_artifact(&bytes, &other), Ok(None)));
    assert!(matches!(
        decode_ngram_index_artifact(&bytes[..1], &fp),
        Err(CacheError::Corrupt)
    ));
}
