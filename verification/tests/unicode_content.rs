use jsonl_index::cache_manager::{decode_inverted_index_artifact, InvertedIndexCacheWrapper};
use jsonl_index::cache_manager::CacheFingerprint;
use jsonl_index::inverted_index::build_inverted_index;
use jsonl_index::line_access::MemoryLines;
use jsonl_index::ngram_utils::generate_ngrams_from_line;
use jsonl_index::token_utils::tokenize_json_line;

#[test]
fn non_ascii_terms_are_lowercased_and_kept_whole() {
    let mut terms = tokenize_json_line("{\"Ort\":\"K\u{f6}ln M\u{dc}NCHEN\"}");
    terms.sort();
    assert_eq!(
        terms,
        vec![
            "k\u{f6}ln".to_string(),
            "m\u{fc}nchen".to_string(),
            "ort".to_string(),
        ]
    );
}

#[test]
fn ngram_windows_run_over_utf8_bytes() {
    // One two-byte character: the windows slide over bytes, not chars.
    let line = "a\u{e9}b";
    let bytes = line.as_bytes();
    assert_eq!(bytes.len(), 4);
    let ngrams = generate_ngrams_from_line(line);
    assert_eq!(ngrams.len(), 2);
    assert_eq!(ngrams[0].as_slice(), &bytes[0..3]);
    assert_eq!(ngrams[1].as_slice(), &bytes[1..4]);
}

#[test]
fn non_ascii_index_survives_the_cache() {
    let acc = MemoryLines {
        lines: vec!["{\"stra\u{df}e\":\"F\u{fc}\u{df}e\"}".to_string()],
    };
    let idx = build_inverted_index(1, &acc).unwrap();
    let fp = CacheFingerprint { file_size: 5, mod_time_secs: 6, mod_time_nanos: 7 };
    let bytes = InvertedIndexCacheWrapper { fingerprint: fp, index_data: idx }.encode();
    let reloaded = match decode_inverted_index_artifact(&bytes, &fp) {
        Ok(Some(ix)) => ix,
        _ => panic!("expected a fresh index"),
    };
    assert_eq!(
        reloaded.postings(&"stra\u{df}e".to_string()),
        Some(&vec![0u32])
    );
    assert_eq!(
        reloaded.postings(&"f\u{fc}\u{df}e".to_string()),
        Some(&vec![0u32])
    );
}
