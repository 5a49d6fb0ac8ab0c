use jsonl_index::ngram_utils::generate_ngrams_from_line;
use jsonl_index::token_utils::tokenize_json_line;

fn sorted(mut v: Vec<String>) -> Vec<String> {
    v.sort();
    v
}

#[test]
fn object_keys_and_string_fragments_become_terms() {
    let terms = sorted(tokenize_json_line("{\"a\":\"x y\"}"));
    assert_eq!(terms, vec!["a".to_string(), "x".to_string(), "y".to_string()]);
}

#[test]
fn invalid_json_yields_no_terms() {
    assert!(tokenize_json_line("not json").is_empty());
}

#[test]
fn empty_object_yields_no_terms() {
    assert!(tokenize_json_line("{}").is_empty());
}

#[test]
fn repeated_terms_appear_once() {
    let terms = sorted(tokenize_json_line("{\"dup\":\"dup dup dup\"}"));
    assert_eq!(terms, vec!["dup".to_string()]);
}

#[test]
fn terms_are_lowercased() {
    let terms = sorted(tokenize_json_line("{\"Key\":\"VALUE Mixed\"}"));
    assert_eq!(
        terms,
        vec!["key".to_string(), "mixed".to_string(), "value".to_string()]
    );
}

#[test]
fn numbers_booleans_null_and_arrays() {
    let terms = sorted(tokenize_json_line(
        "{\"n\":42,\"b\":true,\"z\":null,\"arr\":[\"deep\",false]}",
    ));
    assert_eq!(
        terms,
        vec![
            "42".to_string(),
            "arr".to_string(),
            "b".to_string(),
            "deep".to_string(),
            "false".to_string(),
            "n".to_string(),
            "true".to_string(),
            "z".to_string(),
        ]
    );
}

#[test]
fn punctuation_splits_string_values() {
    let terms = sorted(tokenize_json_line("{\"msg\":\"err-code:404, retry!\"}"));
    assert_eq!(
        terms,
        vec![
            "404".to_string(),
            "code".to_string(),
            "err".to_string(),
            "msg".to_string(),
            "retry".to_string(),
        ]
    );
}

#[test]
fn three_byte_windows_over_abcd() {
    let ngrams = generate_ngrams_from_line("abcd");
    assert_eq!(ngrams, vec![b"abc".to_vec(), b"bcd".to_vec()]);
}

#[test]
fn short_lines_yield_no_ngrams() {
    assert!(generate_ngrams_from_line("").is_empty());
    assert!(generate_ngrams_from_line("a").is_empty());
    assert!(generate_ngrams_from_line("ab").is_empty());
    assert_eq!(generate_ngrams_from_line("abc"), vec![b"abc".to_vec()]);
}

#[test]
fn window_count_is_length_minus_width_plus_one() {
    let line = "0123456789";
    let ngrams = generate_ngrams_from_line(line);
    assert_eq!(ngrams.len(), line.len() - 3 + 1);
    for (i, g) in ngrams.iter().enumerate() {
        assert_eq!(g.as_slice(), &line.as_bytes()[i..i + 3]);
    }
}
