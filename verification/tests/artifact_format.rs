//! Tests that spell the artifact byte format out by hand, so a change
//! to the layout or to the validity checks cannot pass unnoticed.

use jsonl_index::cache_manager::{
    decode_inverted_index_artifact, decode_line_offset_artifact, CacheError, CacheFingerprint,
};
use jsonl_index::indexing_service::LineOffset;

fn le64(x: u64, out: &mut Vec<u8>) {
    out.extend_from_slice(&x.to_le_bytes());
}

fn le32(x: u32, out: &mut Vec<u8>) {
    out.extend_from_slice(&x.to_le_bytes());
}

fn fp_bytes(fp: &CacheFingerprint, out: &mut Vec<u8>) {
    le64(fp.file_size, out);
    le64(fp.mod_time_secs, out);
    le32(fp.mod_time_nanos, out);
}

fn sample_fp() -> CacheFingerprint {
    CacheFingerprint { file_size: 99, mod_time_secs: 1000, mod_time_nanos: 55 }
}

fn string_entry(key: &str, postings: &[u32], out: &mut Vec<u8>) {
    le64(key.len() as u64, out);
    out.extend_from_slice(key.as_bytes());
    le64(postings.len() as u64, out);
    for p in postings {
        le32(*p, out);
    }
}

#[test]
fn hand_built_offsets_artifact_decodes() {
    let fp = sample_fp();
    let mut bytes = Vec::new();
    fp_bytes(&fp, &mut bytes);
    le64(2, &mut bytes);
    le64(0, &mut bytes);
    le64(6, &mut bytes);
    le64(6, &mut bytes);
    le64(4, &mut bytes);
    let loaded = decode_line_offset_artifact(&bytes, &fp).unwrap();
    assert_eq!(
        loaded,
        Some(vec![
            LineOffset { offset: 0, length: 6 },
            LineOffset { offset: 6, length: 4 },
        ])
    );
}

#[test]
fn trailing_bytes_are_tolerated() {
    let fp = sample_fp();
    let mut bytes = Vec::new();
    fp_bytes(&fp, &mut bytes);
    le64(0, &mut bytes);
    bytes.extend_from_slice(b"leftover");
    let loaded = decode_line_offset_artifact(&bytes, &fp).unwrap();
    assert_eq!(loaded, Some(vec![]));
}

#[test]
fn duplicate_keys_are_corrupt() {
    let fp = sample_fp();
    let mut bytes = Vec::new();
    fp_bytes(&fp, &mut bytes);
    le64(2, &mut bytes);
    string_entry("same", &[0], &mut bytes);
    string_entry("same", &[1], &mut bytes);
    assert!(matches!(
        decode_inverted_index_artifact(&bytes, &fp),
        Err(CacheError::Corrupt)
    ));
}

#[test]
fn empty_postings_list_is_corrupt() {
    let fp = sample_fp();
    let mut bytes = Vec::new();
    fp_bytes(&fp, &mut bytes);
    le64(1, &mut bytes);
    string_entry("term", &[], &mut bytes);
    assert!(matches!(
        decode_inverted_index_artifact(&bytes, &fp),
        Err(CacheError::Corrupt)
    ));
}

#[test]
fn invalid_utf8_key_is_corrupt() {
    let fp = sample_fp();
    let mut bytes = Vec::new();
    fp_bytes(&fp, &mut bytes);
    le64(1, &mut bytes);
    le64(2, &mut bytes);
    bytes.extend_from_slice(&[0xff, 0xfe]);
    le64(1, &mut bytes);
    le32(0, &mut bytes);
    assert!(matches!(
        decode_inverted_index_artifact(&bytes, &fp),
        Err(CacheError::Corrupt)
    ));
}
