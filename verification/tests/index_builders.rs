use jsonl_index::inverted_index::build_inverted_index;
use jsonl_index::line_access::MemoryLines;
use jsonl_index::ngram_index::build_ngram_index;

fn four_line_log() -> MemoryLines {
    MemoryLines {
        lines: vec![
            "{\"a\":\"x y\"}".to_string(),
            "{\"a\":\"x y\"}".to_string(),
            "not json".to_string(),
            "{}".to_string(),
        ],
    }
}

#[test]
fn four_line_log_scenario_inverted_index() {
    let acc = four_line_log();
    let idx = build_inverted_index(4, &acc).unwrap();
    assert_eq!(idx.term_count(), 3);
    assert_eq!(idx.postings(&"a".to_string()), Some(&vec![0u32, 1]));
    assert_eq!(idx.postings(&"x".to_string()), Some(&vec![0u32, 1]));
    assert_eq!(idx.postings(&"y".to_string()), Some(&vec![0u32, 1]));
    // Lines 2 ("not json") and 3 ("{}") contribute no terms at all.
    assert_eq!(idx.postings(&"not".to_string()), None);
    assert_eq!(idx.postings(&"json".to_string()), None);
}

#[test]
fn blank_and_missing_lines_contribute_nothing() {
    let acc = MemoryLines {
        lines: vec!["   ".to_string(), "{\"k\":1}".to_string()],
    };
    // Total line count larger than what the accessor holds: the extra
    // lines are unavailable and skipped.
    let idx = build_inverted_index(5, &acc).unwrap();
    assert_eq!(idx.postings(&"k".to_string()), Some(&vec![1u32]));
    assert_eq!(idx.postings(&"1".to_string()), Some(&vec![1u32]));
    assert_eq!(idx.term_count(), 2);
}

#[test]
fn ngram_index_records_each_line_once_per_window() {
    let acc = MemoryLines {
        lines: vec!["aaaa".to_string(), "baaa".to_string()],
    };
    let idx = build_ngram_index(2, &acc).unwrap();
    // "aaaa" holds the window "aaa" at two positions, yet line 0
    // appears once in its postings list.
    assert_eq!(idx.postings(&b"aaa".to_vec()), Some(&vec![0u32, 1]));
    assert_eq!(idx.postings(&b"baa".to_vec()), Some(&vec![1u32]));
    assert_eq!(idx.postings(&b"bbb".to_vec()), None);
}

#[test]
fn ngram_postings_are_sorted_and_duplicate_free() {
    let acc = MemoryLines {
        lines: vec![
            "abcd".to_string(),
            "zzzz".to_string(),
            "abab".to_string(),
            "xabc".to_string(),
        ],
    };
    let idx = build_ngram_index(4, &acc).unwrap();
    let pl = idx.postings(&b"abc".to_vec()).unwrap().clone();
    assert_eq!(pl, vec![0u32, 3]);
    for w in pl.windows(2) {
        assert!(w[0] < w[1]);
    }
}
