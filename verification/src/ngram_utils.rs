//! Fixed-width byte windows over a line's UTF-8 encoding, used for
//! substring-level search.

use vstd::prelude::*;
use vstd::utf8::encode_utf8;
use crate::NGRAM_SIZE;

verus! {

/// Number of n-gram windows a byte sequence yields: one per position at
/// which a full window of `NGRAM_SIZE` bytes fits, none when the sequence
/// is shorter than the window.
pub open spec fn ngram_count(bytes: Seq<u8>) -> int {
    if bytes.len() < NGRAM_SIZE {
        0
    } else {
        bytes.len() - NGRAM_SIZE + 1
    }
}

/// The ordered sequence of all contiguous `NGRAM_SIZE`-byte windows of
/// `bytes`, stride 1, no deduplication.
pub open spec fn ngram_windows(bytes: Seq<u8>) -> Seq<Seq<u8>> {
    Seq::new(ngram_count(bytes) as nat, |i: int| bytes.subrange(i, i + NGRAM_SIZE))
}

/// All contiguous `NGRAM_SIZE`-byte windows of the line's UTF-8 bytes, in
/// order of their starting position. A line whose encoding is shorter than
/// the window width yields no windows at all.
pub fn generate_ngrams_from_line(line_content: &str) -> (ngrams: Vec<Vec<u8>>)
    ensures
        ngrams@.len() == ngram_count(encode_utf8(line_content@)),
        forall|i: int|
            0 <= i < ngrams@.len() ==> ngrams@[i]@ == ngram_windows(encode_utf8(line_content@))[i],
{
    let bytes: &[u8] = line_content.as_bytes();
    let mut ngrams: Vec<Vec<u8>> = Vec::new();

    if bytes.len() < NGRAM_SIZE {
        return ngrams;
    }

    let last_start: usize = bytes.len() - NGRAM_SIZE;
    let mut i: usize = 0;
    while i <= last_start
        invariant
            bytes@ == encode_utf8(line_content@),
            bytes@.len() <= usize::MAX,
            NGRAM_SIZE <= bytes@.len(),
            last_start == bytes@.len() - NGRAM_SIZE,
            i <= last_start + 1,
            ngrams@.len() == i,
            forall|k: int|
                0 <= k < i ==> ngrams@[k]@ == bytes@.subrange(k, k + NGRAM_SIZE),
        decreases last_start + 1 - i,
    {
        let mut window: Vec<u8> = Vec::new();
        let mut j: usize = 0;
        while j < NGRAM_SIZE
            invariant
                i + NGRAM_SIZE <= bytes@.len() <= usize::MAX,
                j <= NGRAM_SIZE,
                window@.len() == j,
                forall|k: int| 0 <= k < j ==> window@[k] == bytes@[i + k],
            decreases NGRAM_SIZE - j,
        {
            window.push(bytes[i + j]);
            j += 1;
        }
        assert(window@ =~= bytes@.subrange(i as int, i + NGRAM_SIZE));
        ngrams.push(window);
        i += 1;
    }
    ngrams
}

} // verus!
