use jsonl_index::indexing_service::{build_line_offset_index, LineOffset, OffsetIndexer};

#[test]
fn empty_input_has_no_lines() {
    let offsets = build_line_offset_index(b"");
    assert!(offsets.is_empty());
}

#[test]
fn single_unterminated_line() {
    let offsets = build_line_offset_index(b"hello");
    assert_eq!(offsets, vec![LineOffset { offset: 0, length: 5 }]);
}

#[test]
fn single_terminated_line() {
    let offsets = build_line_offset_index(b"hello\n");
    assert_eq!(offsets, vec![LineOffset { offset: 0, length: 6 }]);
}

#[test]
fn entries_cover_whole_file_contiguously() {
    let data = b"alpha\nbb\n\nlast";
    let offsets = build_line_offset_index(data);
    assert_eq!(offsets.len(), 4);
    assert_eq!(offsets[0], LineOffset { offset: 0, length: 6 });
    assert_eq!(offsets[1], LineOffset { offset: 6, length: 3 });
    assert_eq!(offsets[2], LineOffset { offset: 9, length: 1 });
    assert_eq!(offsets[3], LineOffset { offset: 10, length: 4 });
    // Offsets strictly increasing, each entry starting where the
    // previous one ended, and the last ending at the total size.
    let mut expected_start = 0u64;
    for e in &offsets {
        assert_eq!(e.offset, expected_start);
        expected_start += e.length as u64;
    }
    assert_eq!(expected_start, data.len() as u64);
}

#[test]
fn streaming_chunks_match_single_pass() {
    let data = b"one\ntwo\nthree\nfour and more\n";
    let whole = build_line_offset_index(data);
    for chunk_size in [1usize, 2, 3, 5, 7, 100] {
        let mut indexer = OffsetIndexer::new();
        for chunk in data.chunks(chunk_size) {
            indexer.feed(chunk);
        }
        assert_eq!(indexer.finish(), whole);
    }
}

#[test]
fn four_line_log_scenario_offsets() {
    let data = b"{\"a\":\"x y\"}\n{\"a\":\"x y\"}\nnot json\n{}\n";
    let offsets = build_line_offset_index(data);
    assert_eq!(offsets.len(), 4);
}
