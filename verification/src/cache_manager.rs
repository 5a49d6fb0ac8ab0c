//! Cache artifacts: each index is persisted together with a fingerprint
//! of its source file, and retrieved only while the file's current
//! fingerprint still matches exactly. A mismatch yields a stale result
//! (absent), never a partial index; bytes that do not parse yield a
//! corruption error, distinct from staleness.

use vstd::prelude::*;
use crate::codec::{
    dec_bytes_at, dec_string_at, dec_u32_at, dec_u64_at, enc_bytes, enc_le, enc_string,
    lemma_dec_bytes_at, lemma_dec_string_at, lemma_enc_le_len, lemma_le_roundtrip, lemma_pow256_8,
    pow256, push_bytes, push_string, push_u32, push_u64, read_bytes, read_string, read_u32,
    read_u64,
};
use crate::indexing_service::LineOffset;
use crate::inverted_index::{map_of_pairs, pair_views, pairs_wf, InvertedIndex};
use crate::ngram_index::{gram_pair_views, gram_pairs_wf, map_of_gram_pairs, NGram, NGramIndex};

verus! {

/// The identity of a source file at one moment: its byte size and its
/// modification time. Two fingerprints are equal exactly when all
/// three fields are; equality is the sole freshness criterion.
#[derive(Clone, Copy, Debug, PartialEq, Eq, Structural)]
pub struct CacheFingerprint {
    pub file_size: u64,
    pub mod_time_secs: u64,
    pub mod_time_nanos: u32,
}

/// A stored artifact exists but cannot be read back: its bytes do not
/// parse as an artifact. Distinct from a stale (absent) result.
#[derive(Clone, Copy, Debug, PartialEq, Eq, Structural)]
pub enum CacheError {
    Corrupt,
}

/// The byte encoding of a fingerprint.
pub open spec fn enc_fingerprint(fp: CacheFingerprint) -> Seq<u8> {
    enc_le(fp.file_size as int, 8) + enc_le(fp.mod_time_secs as int, 8) + enc_le(
        fp.mod_time_nanos as int,
        4,
    )
}

/// What reading a fingerprint at `pos` yields.
pub open spec fn dec_fingerprint_at(b: Seq<u8>, pos: int) -> Option<(CacheFingerprint, int)> {
    match dec_u64_at(b, pos) {
        Some((sz, p1)) => match dec_u64_at(b, p1) {
            Some((secs, p2)) => match dec_u32_at(b, p2) {
                Some((nanos, p3)) => Some(
                    (
                        CacheFingerprint {
                            file_size: sz as u64,
                            mod_time_secs: secs as u64,
                            mod_time_nanos: nanos as u32,
                        },
                        p3,
                    ),
                ),
                None => None,
            },
            None => None,
        },
        None => None,
    }
}

/// Reading at a position holding an encoded fingerprint yields it.
pub proof fn lemma_dec_fingerprint_at(b: Seq<u8>, pos: int, fp: CacheFingerprint)
    requires
        0 <= pos,
        pos + 20 <= b.len(),
        b.subrange(pos, pos + 20) == enc_fingerprint(fp),
    ensures
        dec_fingerprint_at(b, pos) == Some((fp, pos + 20)),
{
    lemma_pow256_8();
    lemma_enc_le_len(fp.file_size as int, 8);
    lemma_enc_le_len(fp.mod_time_secs as int, 8);
    lemma_enc_le_len(fp.mod_time_nanos as int, 4);
    assert(b.subrange(pos, pos + 8) =~= enc_fingerprint(fp).subrange(0, 8));
    assert(enc_fingerprint(fp).subrange(0, 8) =~= enc_le(fp.file_size as int, 8));
    lemma_le_roundtrip(fp.file_size as int, 8, pow256(8));
    assert(b.subrange(pos + 8, pos + 16) =~= enc_fingerprint(fp).subrange(8, 16));
    assert(enc_fingerprint(fp).subrange(8, 16) =~= enc_le(fp.mod_time_secs as int, 8));
    lemma_le_roundtrip(fp.mod_time_secs as int, 8, pow256(8));
    assert(b.subrange(pos + 16, pos + 20) =~= enc_fingerprint(fp).subrange(16, 20));
    assert(enc_fingerprint(fp).subrange(16, 20) =~= enc_le(fp.mod_time_nanos as int, 4));
    lemma_le_roundtrip(fp.mod_time_nanos as int, 4, pow256(4));
}

/// Append an encoded fingerprint.
pub fn push_fingerprint(out: &mut Vec<u8>, fp: &CacheFingerprint)
    ensures
        final(out)@ == old(out)@ + enc_fingerprint(*fp),
{
    push_u64(out, fp.file_size);
    push_u64(out, fp.mod_time_secs);
    push_u32(out, fp.mod_time_nanos);
    proof {
        assert(final(out)@ =~= old(out)@ + enc_fingerprint(*fp));
    }
}

/// Read a fingerprint.
pub fn read_fingerprint(bytes: &[u8], pos: usize) -> (r: Option<(CacheFingerprint, usize)>)
    ensures
        match r {
            Some(p) => dec_fingerprint_at(bytes@, pos as int) == Some((p.0, p.1 as int)),
            None => dec_fingerprint_at(bytes@, pos as int) is None,
        },
{
    let (sz, p1) = match read_u64(bytes, pos) {
        Some(x) => x,
        None => {
            return None;
        },
    };
    let (secs, p2) = match read_u64(bytes, p1) {
        Some(x) => x,
        None => {
            return None;
        },
    };
    let (nanos, p3) = match read_u32(bytes, p2) {
        Some(x) => x,
        None => {
            return None;
        },
    };
    Some((CacheFingerprint { file_size: sz, mod_time_secs: secs, mod_time_nanos: nanos }, p3))
}

// --- Line offset artifact ---

/// One line offset record: start position, then byte length.
pub open spec fn enc_offset_entry(e: LineOffset) -> Seq<u8> {
    enc_le(e.offset as int, 8) + enc_le(e.length as int, 8)
}

/// The records of the whole sequence, one after the other.
pub open spec fn enc_offsets(es: Seq<LineOffset>) -> Seq<u8>
    decreases es.len(),
{
    if es.len() == 0 {
        Seq::empty()
    } else {
        enc_offset_entry(es[0]) + enc_offsets(es.drop_first())
    }
}

pub proof fn lemma_enc_offsets_len(es: Seq<LineOffset>)
    ensures
        enc_offsets(es).len() == 16 * es.len(),
    decreases es.len(),
{
    if es.len() > 0 {
        lemma_enc_le_len(es[0].offset as int, 8);
        lemma_enc_le_len(es[0].length as int, 8);
        lemma_enc_offsets_len(es.drop_first());
    }
}

/// One more record at the end extends the encoding at the end.
pub proof fn lemma_enc_offsets_push(es: Seq<LineOffset>, e: LineOffset)
    ensures
        enc_offsets(es.push(e)) == enc_offsets(es) + enc_offset_entry(e),
    decreases es.len(),
{
    if es.len() == 0 {
        assert(es.push(e)[0] == e);
        assert(es.push(e).drop_first() =~= Seq::<LineOffset>::empty());
        assert(enc_offsets(Seq::<LineOffset>::empty()) == Seq::<u8>::empty());
        assert(es =~= Seq::<LineOffset>::empty());
        assert(enc_offsets(es.push(e)) =~= enc_offsets(es) + enc_offset_entry(e));
    } else {
        assert(es.push(e)[0] == es[0]);
        assert(es.push(e).drop_first() =~= es.drop_first().push(e));
        lemma_enc_offsets_push(es.drop_first(), e);
        assert(enc_offsets(es.push(e)) =~= enc_offsets(es) + enc_offset_entry(e));
    }
}

/// What reading `count` line offset records at `pos` yields.
pub open spec fn dec_offsets_at(b: Seq<u8>, pos: int, count: int) -> Option<(Seq<LineOffset>, int)>
    decreases count,
{
    if count <= 0 {
        Some((Seq::empty(), pos))
    } else {
        match dec_u64_at(b, pos) {
            Some((o, p1)) => match dec_u64_at(b, p1) {
                Some((l, p2)) => if l <= usize::MAX {
                    match dec_offsets_at(b, p2, count - 1) {
                        Some((rest, p3)) => Some(
                            (seq![LineOffset { offset: o as u64, length: l as usize }] + rest, p3),
                        ),
                        None => None,
                    }
                } else {
                    None
                },
                None => None,
            },
            None => None,
        }
    }
}

/// Reading at a position holding encoded records yields those records.
pub proof fn lemma_dec_offsets_at(b: Seq<u8>, pos: int, es: Seq<LineOffset>)
    requires
        0 <= pos,
        pos + 16 * es.len() <= b.len(),
        b.subrange(pos, pos + 16 * es.len()) == enc_offsets(es),
    ensures
        dec_offsets_at(b, pos, es.len() as int) == Some((es, pos + 16 * es.len())),
    decreases es.len(),
{
    lemma_pow256_8();
    if es.len() > 0 {
        let e = es[0];
        lemma_enc_le_len(e.offset as int, 8);
        lemma_enc_le_len(e.length as int, 8);
        lemma_enc_offsets_len(es.drop_first());
        assert(b.subrange(pos, pos + 8) =~= enc_le(e.offset as int, 8)) by {
            assert(enc_offsets(es).subrange(0, 8) =~= enc_le(e.offset as int, 8));
            assert(b.subrange(pos, pos + 8) =~= enc_offsets(es).subrange(0, 8));
        }
        lemma_le_roundtrip(e.offset as int, 8, pow256(8));
        assert(b.subrange(pos + 8, pos + 16) =~= enc_le(e.length as int, 8)) by {
            assert(enc_offsets(es).subrange(8, 16) =~= enc_le(e.length as int, 8));
            assert(b.subrange(pos + 8, pos + 16) =~= enc_offsets(es).subrange(8, 16));
        }
        lemma_le_roundtrip(e.length as int, 8, pow256(8));
        assert(b.subrange(pos + 16, pos + 16 + 16 * (es.len() - 1)) =~= enc_offsets(
            es.drop_first(),
        )) by {
            assert(b.subrange(pos + 16, pos + 16 * es.len() as int) =~= enc_offsets(es).subrange(
                16,
                16 * es.len() as int,
            ));
            assert(enc_offsets(es).subrange(16, 16 * es.len() as int) =~= enc_offsets(es.drop_first()));
        }
        lemma_dec_offsets_at(b, pos + 16, es.drop_first());
        assert(seq![LineOffset { offset: e.offset, length: e.length }] + es.drop_first() =~= es);
        assert(LineOffset { offset: e.offset, length: e.length } == e);
    }
}

/// The full artifact: fingerprint, record count, records.
pub open spec fn enc_offsets_artifact(fp: CacheFingerprint, es: Seq<LineOffset>) -> Seq<u8> {
    enc_fingerprint(fp) + enc_le(es.len() as int, 8) + enc_offsets(es)
}

/// What the artifact's bytes hold, if they parse.
pub open spec fn parse_offsets_artifact(b: Seq<u8>) -> Option<(CacheFingerprint, Seq<LineOffset>)> {
    match dec_fingerprint_at(b, 0) {
        Some((fp, p1)) => match dec_u64_at(b, p1) {
            Some((n, p2)) => match dec_offsets_at(b, p2, n) {
                Some((es, p3)) => Some((fp, es)),
                None => None,
            },
            None => None,
        },
        None => None,
    }
}

/// What loading the artifact against the file's current fingerprint
/// yields: the records while fresh, absence while stale, an error when
/// the bytes do not parse.
pub open spec fn offsets_load_outcome(b: Seq<u8>, current: CacheFingerprint) -> Result<
    Option<Seq<LineOffset>>,
    CacheError,
> {
    match parse_offsets_artifact(b) {
        Some((fp, es)) => if fp == current {
            Ok(Some(es))
        } else {
            Ok(None)
        },
        None => Err(CacheError::Corrupt),
    }
}

/// An artifact parses back to exactly the fingerprint and records that
/// were encoded.
pub proof fn lemma_parse_offsets_artifact(fp: CacheFingerprint, es: Seq<LineOffset>)
    requires
        es.len() <= usize::MAX,
    ensures
        parse_offsets_artifact(enc_offsets_artifact(fp, es)) == Some((fp, es)),
{
    lemma_pow256_8();
    let b = enc_offsets_artifact(fp, es);
    lemma_enc_le_len(es.len() as int, 8);
    lemma_enc_offsets_len(es);
    lemma_enc_le_len(fp.file_size as int, 8);
    lemma_enc_le_len(fp.mod_time_secs as int, 8);
    lemma_enc_le_len(fp.mod_time_nanos as int, 4);
    assert(b.subrange(0, 20) =~= enc_fingerprint(fp));
    lemma_dec_fingerprint_at(b, 0, fp);
    assert(b.subrange(20, 28) =~= enc_le(es.len() as int, 8));
    lemma_le_roundtrip(es.len() as int, 8, pow256(8));
    assert(b.subrange(28, 28 + 16 * es.len() as int) =~= enc_offsets(es));
    lemma_dec_offsets_at(b, 28, es);
}

/// Law: an untouched source file gives back exactly what was saved.
/// Loading the encoded artifact against the very fingerprint it was
/// saved with returns the saved records.
pub proof fn lemma_offsets_cache_round_trip(fp: CacheFingerprint, es: Seq<LineOffset>)
    requires
        es.len() <= usize::MAX,
    ensures
        offsets_load_outcome(enc_offsets_artifact(fp, es), fp) == Ok::<Option<Seq<LineOffset>>, CacheError>(Some(es)),
{
    lemma_parse_offsets_artifact(fp, es);
}

/// Law: a changed file size or modification time makes the load come
/// back absent. Any fingerprint other than the one saved with — one
/// field differing is enough — yields a stale result, never the records.
pub proof fn lemma_offsets_cache_stale(
    fp: CacheFingerprint,
    current: CacheFingerprint,
    es: Seq<LineOffset>,
)
    requires
        es.len() <= usize::MAX,
        fp != current,
    ensures
        offsets_load_outcome(enc_offsets_artifact(fp, es), current) == Ok::<
            Option<Seq<LineOffset>>,
            CacheError,
        >(None),
{
    lemma_parse_offsets_artifact(fp, es);
}

/// Encode a line offset index with its source file's fingerprint.
pub fn encode_line_offset_artifact(fp: &CacheFingerprint, index_data: &Vec<LineOffset>) -> (r: Vec<
    u8,
>)
    ensures
        r@ == enc_offsets_artifact(*fp, index_data@),
{
    let mut out: Vec<u8> = Vec::new();
    push_fingerprint(&mut out, fp);
    push_u64(&mut out, index_data.len() as u64);
    let ghost head = out@;
    let n = index_data.len();
    let mut i: usize = 0;
    proof {
        assert(out@ =~= head + enc_offsets(index_data@.take(0)));
    }
    while i < n
        invariant
            n == index_data@.len(),
            i <= n,
            out@ == head + enc_offsets(index_data@.take(i as int)),
        decreases n - i,
    {
        let e = index_data[i];
        let ghost pre = out@;
        push_u64(&mut out, e.offset);
        push_u64(&mut out, e.length as u64);
        proof {
            assert(index_data@.take(i + 1) =~= index_data@.take(i as int).push(e));
            lemma_enc_offsets_push(index_data@.take(i as int), e);
            assert(out@ =~= head + enc_offsets(index_data@.take(i + 1)));
        }
        i += 1;
    }
    proof {
        assert(index_data@.take(n as int) =~= index_data@);
        assert(out@ =~= enc_offsets_artifact(*fp, index_data@));
    }
    out
}

/// Decode a line offset artifact and check it against the file's
/// current fingerprint: the records while fresh, absence while stale,
/// a corruption error when the bytes do not parse.
#[verifier::loop_isolation(false)]
pub fn decode_line_offset_artifact(bytes: &[u8], current: &CacheFingerprint) -> (r: Result<
    Option<Vec<LineOffset>>,
    CacheError,
>)
    ensures
        match r {
            Ok(Some(v)) => offsets_load_outcome(bytes@, *current) == Ok::<Option<Seq<LineOffset>>, CacheError>(Some(v@)),
            Ok(None) => offsets_load_outcome(bytes@, *current) == Ok::<Option<Seq<LineOffset>>, CacheError>(None),
            Err(e) => offsets_load_outcome(bytes@, *current) == Err::<
                Option<Seq<LineOffset>>,
                CacheError,
            >(e),
        },
{
    let (fp, p1) = match read_fingerprint(bytes, 0) {
        Some(x) => x,
        None => {
            return Err(CacheError::Corrupt);
        },
    };
    let (n, p2) = match read_u64(bytes, p1) {
        Some(x) => x,
        None => {
            return Err(CacheError::Corrupt);
        },
    };
    let mut out: Vec<LineOffset> = Vec::new();
    let mut pos: usize = p2;
    let mut i: u64 = 0;
    while i < n
        invariant
            i <= n,
            out@.len() == i,
            match dec_offsets_at(bytes@, pos as int, (n - i) as int) {
                Some((rest, pend)) => dec_offsets_at(bytes@, p2 as int, n as int) == Some(
                    (out@ + rest, pend),
                ),
                None => dec_offsets_at(bytes@, p2 as int, n as int) is None,
            },
        decreases n - i,
    {
        let (o, q1) = match read_u64(bytes, pos) {
            Some(x) => x,
            None => {
                return Err(CacheError::Corrupt);
            },
        };
        let (l, q2) = match read_u64(bytes, q1) {
            Some(x) => x,
            None => {
                return Err(CacheError::Corrupt);
            },
        };
        if l > usize::MAX as u64 {
            return Err(CacheError::Corrupt);
        }
        let e = LineOffset { offset: o, length: l as usize };
        out.push(e);
        pos = q2;
        proof {
            assert(out@.drop_last() + seq![e] =~= out@);
            match dec_offsets_at(bytes@, pos as int, (n - i - 1) as int) {
                Some((rest, pend)) => {
                    assert(out@.drop_last() + (seq![e] + rest) =~= out@ + rest);
                },
                None => {},
            }
        }
        i += 1;
    }
    proof {
        assert(out@ + Seq::<LineOffset>::empty() =~= out@);
    }
    if fp == *current {
        Ok(Some(out))
    } else {
        Ok(None)
    }
}

// --- Postings lists ---

/// The flat encoding of a postings list's numbers.
pub open spec fn enc_u32s(ps: Seq<u32>) -> Seq<u8>
    decreases ps.len(),
{
    if ps.len() == 0 {
        Seq::empty()
    } else {
        enc_le(ps[0] as int, 4) + enc_u32s(ps.drop_first())
    }
}

pub proof fn lemma_enc_u32s_len(ps: Seq<u32>)
    ensures
        enc_u32s(ps).len() == 4 * ps.len(),
    decreases ps.len(),
{
    if ps.len() > 0 {
        lemma_enc_le_len(ps[0] as int, 4);
        lemma_enc_u32s_len(ps.drop_first());
    }
}

pub proof fn lemma_enc_u32s_push(ps: Seq<u32>, x: u32)
    ensures
        enc_u32s(ps.push(x)) == enc_u32s(ps) + enc_le(x as int, 4),
    decreases ps.len(),
{
    if ps.len() == 0 {
        assert(ps.push(x)[0] == x);
        assert(ps.push(x).drop_first() =~= Seq::<u32>::empty());
        assert(enc_u32s(Seq::<u32>::empty()) == Seq::<u8>::empty());
        assert(ps =~= Seq::<u32>::empty());
        assert(enc_u32s(ps.push(x)) =~= enc_u32s(ps) + enc_le(x as int, 4));
    } else {
        assert(ps.push(x)[0] == ps[0]);
        assert(ps.push(x).drop_first() =~= ps.drop_first().push(x));
        lemma_enc_u32s_push(ps.drop_first(), x);
        assert(enc_u32s(ps.push(x)) =~= enc_u32s(ps) + enc_le(x as int, 4));
    }
}

/// A length-prefixed postings list.
pub open spec fn enc_postings(ps: Seq<u32>) -> Seq<u8> {
    enc_le(ps.len() as int, 8) + enc_u32s(ps)
}

/// What reading `count` numbers at `pos` yields.
pub open spec fn dec_u32s_at(b: Seq<u8>, pos: int, count: int) -> Option<(Seq<u32>, int)>
    decreases count,
{
    if count <= 0 {
        Some((Seq::empty(), pos))
    } else {
        match dec_u32_at(b, pos) {
            Some((x, p1)) => match dec_u32s_at(b, p1, count - 1) {
                Some((rest, p2)) => Some((seq![x as u32] + rest, p2)),
                None => None,
            },
            None => None,
        }
    }
}

/// What reading a length-prefixed postings list at `pos` yields.
pub open spec fn dec_postings_at(b: Seq<u8>, pos: int) -> Option<(Seq<u32>, int)> {
    match dec_u64_at(b, pos) {
        Some((n, p)) => dec_u32s_at(b, p, n),
        None => None,
    }
}

proof fn lemma_dec_u32s_at(b: Seq<u8>, pos: int, ps: Seq<u32>)
    requires
        0 <= pos,
        pos + 4 * ps.len() <= b.len(),
        b.subrange(pos, pos + 4 * ps.len()) == enc_u32s(ps),
    ensures
        dec_u32s_at(b, pos, ps.len() as int) == Some((ps, pos + 4 * ps.len())),
    decreases ps.len(),
{
    lemma_pow256_8();
    if ps.len() > 0 {
        let x = ps[0];
        lemma_enc_le_len(x as int, 4);
        lemma_enc_u32s_len(ps.drop_first());
        assert(b.subrange(pos, pos + 4) =~= enc_le(x as int, 4)) by {
            assert(enc_u32s(ps).subrange(0, 4) =~= enc_le(x as int, 4));
            assert(b.subrange(pos, pos + 4) =~= enc_u32s(ps).subrange(0, 4));
        }
        lemma_le_roundtrip(x as int, 4, pow256(4));
        assert(b.subrange(pos + 4, pos + 4 + 4 * (ps.len() - 1)) =~= enc_u32s(ps.drop_first()))
            by {
            assert(b.subrange(pos + 4, pos + 4 * ps.len() as int) =~= enc_u32s(ps).subrange(
                4,
                4 * ps.len() as int,
            ));
            assert(enc_u32s(ps).subrange(4, 4 * ps.len() as int) =~= enc_u32s(ps.drop_first()));
        }
        lemma_dec_u32s_at(b, pos + 4, ps.drop_first());
        assert(seq![x] + ps.drop_first() =~= ps);
    }
}

/// Reading at a position holding an encoded postings list yields it.
pub proof fn lemma_dec_postings_at(b: Seq<u8>, pos: int, ps: Seq<u32>)
    requires
        0 <= pos,
        ps.len() <= usize::MAX,
        pos + 8 + 4 * ps.len() <= b.len(),
        b.subrange(pos, pos + 8 + 4 * ps.len()) == enc_postings(ps),
    ensures
        dec_postings_at(b, pos) == Some((ps, pos + 8 + 4 * ps.len())),
{
    lemma_pow256_8();
    lemma_enc_le_len(ps.len() as int, 8);
    lemma_enc_u32s_len(ps);
    assert(b.subrange(pos, pos + 8) =~= enc_le(ps.len() as int, 8)) by {
        assert(enc_postings(ps).subrange(0, 8) =~= enc_le(ps.len() as int, 8));
        assert(b.subrange(pos, pos + 8) =~= enc_postings(ps).subrange(0, 8));
    }
    lemma_le_roundtrip(ps.len() as int, 8, pow256(8));
    assert(b.subrange(pos + 8, pos + 8 + 4 * ps.len()) =~= enc_u32s(ps)) by {
        assert(enc_postings(ps).subrange(8, 8 + 4 * ps.len() as int) =~= enc_u32s(ps));
        assert(b.subrange(pos + 8, pos + 8 + 4 * ps.len()) =~= enc_postings(ps).subrange(
            8,
            8 + 4 * ps.len() as int,
        ));
    }
    lemma_dec_u32s_at(b, pos + 8, ps);
}

/// Append a length-prefixed postings list.
pub fn push_postings(out: &mut Vec<u8>, ps: &Vec<u32>)
    ensures
        final(out)@ == old(out)@ + enc_postings(ps@),
{
    push_u64(out, ps.len() as u64);
    let ghost head = out@;
    let n = ps.len();
    let mut i: usize = 0;
    proof {
        assert(out@ =~= head + enc_u32s(ps@.take(0)));
    }
    while i < n
        invariant
            n == ps@.len(),
            i <= n,
            out@ == head + enc_u32s(ps@.take(i as int)),
        decreases n - i,
    {
        push_u32(out, ps[i]);
        proof {
            assert(ps@.take(i + 1) =~= ps@.take(i as int).push(ps@[i as int]));
            lemma_enc_u32s_push(ps@.take(i as int), ps@[i as int]);
            assert(out@ =~= head + enc_u32s(ps@.take(i + 1)));
        }
        i += 1;
    }
    proof {
        assert(ps@.take(n as int) =~= ps@);
        assert(out@ =~= old(out)@ + enc_postings(ps@));
    }
}

/// Read a length-prefixed postings list.
#[verifier::loop_isolation(false)]
pub fn read_postings(bytes: &[u8], pos: usize) -> (r: Option<(Vec<u32>, usize)>)
    ensures
        match r {
            Some(p) => dec_postings_at(bytes@, pos as int) == Some((p.0@, p.1 as int)),
            None => dec_postings_at(bytes@, pos as int) is None,
        },
{
    let (n, p) = match read_u64(bytes, pos) {
        Some(x) => x,
        None => {
            return None;
        },
    };
    let mut out: Vec<u32> = Vec::new();
    let mut cur: usize = p;
    let mut i: u64 = 0;
    while i < n
        invariant
            i <= n,
            out@.len() == i,
            match dec_u32s_at(bytes@, cur as int, (n - i) as int) {
                Some((rest, pend)) => dec_u32s_at(bytes@, p as int, n as int) == Some(
                    (out@ + rest, pend),
                ),
                None => dec_u32s_at(bytes@, p as int, n as int) is None,
            },
        decreases n - i,
    {
        let (x, q) = match read_u32(bytes, cur) {
            Some(v) => v,
            None => {
                return None;
            },
        };
        out.push(x);
        cur = q;
        proof {
            assert(out@.drop_last() + seq![x] =~= out@);
            match dec_u32s_at(bytes@, cur as int, (n - i - 1) as int) {
                Some((rest, pend)) => {
                    assert(out@.drop_last() + (seq![x] + rest) =~= out@ + rest);
                },
                None => {},
            }
        }
        i += 1;
    }
    proof {
        assert(out@ + Seq::<u32>::empty() =~= out@);
    }
    Some((out, cur))
}

// --- Inverted index artifact ---

/// One inverted index entry: the term, then its postings list.
pub open spec fn enc_ientry(p: (Seq<char>, Seq<u32>)) -> Seq<u8> {
    enc_string(p.0) + enc_postings(p.1)
}

/// The entries of the whole sequence, one after the other.
pub open spec fn enc_ientries(ps: Seq<(Seq<char>, Seq<u32>)>) -> Seq<u8>
    decreases ps.len(),
{
    if ps.len() == 0 {
        Seq::empty()
    } else {
        enc_ientry(ps[0]) + enc_ientries(ps.drop_first())
    }
}

pub proof fn lemma_enc_ientries_push(ps: Seq<(Seq<char>, Seq<u32>)>, e: (Seq<char>, Seq<u32>))
    ensures
        enc_ientries(ps.push(e)) == enc_ientries(ps) + enc_ientry(e),
    decreases ps.len(),
{
    if ps.len() == 0 {
        assert(ps.push(e)[0] == e);
        assert(ps.push(e).drop_first() =~= Seq::<(Seq<char>, Seq<u32>)>::empty());
        assert(enc_ientries(Seq::<(Seq<char>, Seq<u32>)>::empty()) == Seq::<u8>::empty());
        assert(ps =~= Seq::<(Seq<char>, Seq<u32>)>::empty());
        assert(enc_ientries(ps.push(e)) =~= enc_ientries(ps) + enc_ientry(e));
    } else {
        assert(ps.push(e)[0] == ps[0]);
        assert(ps.push(e).drop_first() =~= ps.drop_first().push(e));
        lemma_enc_ientries_push(ps.drop_first(), e);
        assert(enc_ientries(ps.push(e)) =~= enc_ientries(ps) + enc_ientry(e));
    }
}

/// Every component of every entry fits the machine's limits, as any
/// entry held in memory does.
pub open spec fn ientries_encodable(ps: Seq<(Seq<char>, Seq<u32>)>) -> bool {
    forall|i: int|
        0 <= i < ps.len() ==> vstd::utf8::encode_utf8((#[trigger] ps[i]).0).len() <= usize::MAX
            && ps[i].1.len() <= usize::MAX
}

/// What reading `count` entries at `pos` yields.
pub open spec fn dec_ientries_at(b: Seq<u8>, pos: int, count: int) -> Option<
    (Seq<(Seq<char>, Seq<u32>)>, int),
>
    decreases count,
{
    if count <= 0 {
        Some((Seq::empty(), pos))
    } else {
        match dec_string_at(b, pos) {
            Some((key, p1)) => match dec_postings_at(b, p1) {
                Some((ps0, p2)) => match dec_ientries_at(b, p2, count - 1) {
                    Some((rest, p3)) => Some((seq![(key, ps0)] + rest, p3)),
                    None => None,
                },
                None => None,
            },
            None => None,
        }
    }
}

/// Reading at a position holding encoded entries yields those entries.
proof fn lemma_dec_ientries_at(b: Seq<u8>, pos: int, ps: Seq<(Seq<char>, Seq<u32>)>)
    requires
        0 <= pos,
        ientries_encodable(ps),
        pos + enc_ientries(ps).len() <= b.len(),
        b.subrange(pos, pos + enc_ientries(ps).len() as int) == enc_ientries(ps),
    ensures
        dec_ientries_at(b, pos, ps.len() as int) == Some(
            (ps, pos + enc_ientries(ps).len() as int),
        ),
    decreases ps.len(),
{
    if ps.len() > 0 {
        let e = ps[0];
        let klen = 8 + vstd::utf8::encode_utf8(e.0).len() as int;
        let plen = 8 + 4 * e.1.len() as int;
        proof_enc_sizes(e);
        let total = enc_ientries(ps).len() as int;
        assert(enc_ientries(ps) == enc_ientry(e) + enc_ientries(ps.drop_first()));
        assert(b.subrange(pos, pos + klen) =~= enc_string(e.0)) by {
            assert(enc_ientries(ps).subrange(0, klen) =~= enc_string(e.0));
            assert(b.subrange(pos, pos + klen) =~= enc_ientries(ps).subrange(0, klen));
        }
        lemma_dec_string_at(b, pos, e.0);
        assert(b.subrange(pos + klen, pos + klen + plen) =~= enc_postings(e.1)) by {
            assert(enc_ientries(ps).subrange(klen, klen + plen) =~= enc_postings(e.1));
            assert(b.subrange(pos + klen, pos + klen + plen) =~= enc_ientries(ps).subrange(
                klen,
                klen + plen,
            ));
        }
        lemma_dec_postings_at(b, pos + klen, e.1);
        assert(forall|k: int| 0 <= k < ps.len() - 1 ==> ps.drop_first()[k] == ps[k + 1]);
        assert(b.subrange(pos + klen + plen, pos + total) =~= enc_ientries(ps.drop_first())) by {
            assert(enc_ientries(ps).subrange(klen + plen, total) =~= enc_ientries(
                ps.drop_first(),
            ));
            assert(b.subrange(pos + klen + plen, pos + total) =~= enc_ientries(ps).subrange(
                klen + plen,
                total,
            ));
        }
        lemma_dec_ientries_at(b, pos + klen + plen, ps.drop_first());
        assert(seq![(e.0, e.1)] + ps.drop_first() =~= ps);
        assert((e.0, e.1) == e);
    }
}

/// The byte sizes of one entry's parts.
proof fn proof_enc_sizes(e: (Seq<char>, Seq<u32>))
    ensures
        enc_string(e.0).len() == 8 + vstd::utf8::encode_utf8(e.0).len(),
        enc_postings(e.1).len() == 8 + 4 * e.1.len(),
        enc_ientry(e).len() == enc_string(e.0).len() + enc_postings(e.1).len(),
{
    lemma_enc_le_len(vstd::utf8::encode_utf8(e.0).len() as int, 8);
    lemma_enc_le_len(e.1.len() as int, 8);
    lemma_enc_u32s_len(e.1);
}

/// The full artifact: fingerprint, entry count, entries.
pub open spec fn enc_inverted_artifact(
    fp: CacheFingerprint,
    ps: Seq<(Seq<char>, Seq<u32>)>,
) -> Seq<u8> {
    enc_fingerprint(fp) + enc_le(ps.len() as int, 8) + enc_ientries(ps)
}

/// What the artifact's bytes hold, if they parse.
pub open spec fn parse_inverted_artifact(b: Seq<u8>) -> Option<
    (CacheFingerprint, Seq<(Seq<char>, Seq<u32>)>),
> {
    match dec_fingerprint_at(b, 0) {
        Some((fp, p1)) => match dec_u64_at(b, p1) {
            Some((n, p2)) => match dec_ientries_at(b, p2, n) {
                Some((ps, p3)) => Some((fp, ps)),
                None => None,
            },
            None => None,
        },
        None => None,
    }
}

/// What loading the artifact against the file's current fingerprint
/// yields: the mapping while fresh, absence while stale, an error when
/// the bytes do not parse or do not form a well-formed index.
pub open spec fn inverted_load_outcome(b: Seq<u8>, current: CacheFingerprint) -> Result<
    Option<Map<Seq<char>, Seq<u32>>>,
    CacheError,
> {
    match parse_inverted_artifact(b) {
        Some((fp, ps)) => if !pairs_wf(ps) {
            Err(CacheError::Corrupt)
        } else if fp == current {
            Ok(Some(map_of_pairs(ps)))
        } else {
            Ok(None)
        },
        None => Err(CacheError::Corrupt),
    }
}

/// An artifact parses back to exactly the fingerprint and entries that
/// were encoded.
pub proof fn lemma_parse_inverted_artifact(fp: CacheFingerprint, ps: Seq<(Seq<char>, Seq<u32>)>)
    requires
        ps.len() <= usize::MAX,
        ientries_encodable(ps),
    ensures
        parse_inverted_artifact(enc_inverted_artifact(fp, ps)) == Some((fp, ps)),
{
    lemma_pow256_8();
    let b = enc_inverted_artifact(fp, ps);
    lemma_enc_le_len(ps.len() as int, 8);
    lemma_enc_le_len(fp.file_size as int, 8);
    lemma_enc_le_len(fp.mod_time_secs as int, 8);
    lemma_enc_le_len(fp.mod_time_nanos as int, 4);
    assert(b.subrange(0, 20) =~= enc_fingerprint(fp));
    lemma_dec_fingerprint_at(b, 0, fp);
    assert(b.subrange(20, 28) =~= enc_le(ps.len() as int, 8));
    lemma_le_roundtrip(ps.len() as int, 8, pow256(8));
    assert(b.subrange(28, 28 + enc_ientries(ps).len() as int) =~= enc_ientries(ps));
    lemma_dec_ientries_at(b, 28, ps);
}

/// Law: an untouched source file gives back exactly what was saved.
pub proof fn lemma_inverted_cache_round_trip(fp: CacheFingerprint, ps: Seq<(Seq<char>, Seq<u32>)>)
    requires
        ps.len() <= usize::MAX,
        ientries_encodable(ps),
        pairs_wf(ps),
    ensures
        inverted_load_outcome(enc_inverted_artifact(fp, ps), fp) == Ok::<
            Option<Map<Seq<char>, Seq<u32>>>,
            CacheError,
        >(Some(map_of_pairs(ps))),
{
    lemma_parse_inverted_artifact(fp, ps);
}

/// Law: a changed fingerprint makes the load come back absent.
pub proof fn lemma_inverted_cache_stale(
    fp: CacheFingerprint,
    current: CacheFingerprint,
    ps: Seq<(Seq<char>, Seq<u32>)>,
)
    requires
        ps.len() <= usize::MAX,
        ientries_encodable(ps),
        pairs_wf(ps),
        fp != current,
    ensures
        inverted_load_outcome(enc_inverted_artifact(fp, ps), current) == Ok::<
            Option<Map<Seq<char>, Seq<u32>>>,
            CacheError,
        >(None),
{
    lemma_parse_inverted_artifact(fp, ps);
}

/// Encode an inverted index with its source file's fingerprint.
pub fn encode_inverted_index_artifact(fp: &CacheFingerprint, index_data: &InvertedIndex) -> (r:
    Vec<u8>)
    ensures
        r@ == enc_inverted_artifact(*fp, index_data.entry_views()),
{
    let mut out: Vec<u8> = Vec::new();
    push_fingerprint(&mut out, fp);
    let n = index_data.entry_count();
    push_u64(&mut out, n as u64);
    let ghost head = out@;
    let mut i: usize = 0;
    proof {
        assert(out@ =~= head + enc_ientries(index_data.entry_views().take(0)));
    }
    while i < n
        invariant
            n == index_data.entry_views().len(),
            i <= n,
            out@ == head + enc_ientries(index_data.entry_views().take(i as int)),
        decreases n - i,
    {
        let (key, ps0) = index_data.entry_at(i);
        push_string(&mut out, key.as_str());
        push_postings(&mut out, ps0);
        proof {
            let ev = index_data.entry_views();
            assert(ev.take(i + 1) =~= ev.take(i as int).push(ev[i as int]));
            lemma_enc_ientries_push(ev.take(i as int), ev[i as int]);
            assert(out@ =~= head + enc_ientries(ev.take(i + 1)));
        }
        i += 1;
    }
    proof {
        let ev = index_data.entry_views();
        assert(ev.take(n as int) =~= ev);
        assert(out@ =~= enc_inverted_artifact(*fp, ev));
    }
    out
}

/// Decode an inverted index artifact and check it against the file's
/// current fingerprint.
#[verifier::loop_isolation(false)]
pub fn decode_inverted_index_artifact(bytes: &[u8], current: &CacheFingerprint) -> (r: Result<
    Option<InvertedIndex>,
    CacheError,
>)
    ensures
        match r {
            Ok(Some(ix)) => ix.wf() && inverted_load_outcome(bytes@, *current) == Ok::<
                Option<Map<Seq<char>, Seq<u32>>>,
                CacheError,
            >(Some(ix@)),
            Ok(None) => inverted_load_outcome(bytes@, *current) == Ok::<
                Option<Map<Seq<char>, Seq<u32>>>,
                CacheError,
            >(None),
            Err(e) => inverted_load_outcome(bytes@, *current) == Err::<
                Option<Map<Seq<char>, Seq<u32>>>,
                CacheError,
            >(e),
        },
{
    let (fp, p1) = match read_fingerprint(bytes, 0) {
        Some(x) => x,
        None => {
            return Err(CacheError::Corrupt);
        },
    };
    let (n, p2) = match read_u64(bytes, p1) {
        Some(x) => x,
        None => {
            return Err(CacheError::Corrupt);
        },
    };
    let mut out: Vec<(String, Vec<u32>)> = Vec::new();
    let mut pos: usize = p2;
    let mut i: u64 = 0;
    proof {
        assert(pair_views(out@) + Seq::<(Seq<char>, Seq<u32>)>::empty() =~= pair_views(out@));
    }
    while i < n
        invariant
            i <= n,
            out@.len() == i,
            match dec_ientries_at(bytes@, pos as int, (n - i) as int) {
                Some((rest, pend)) => dec_ientries_at(bytes@, p2 as int, n as int) == Some(
                    (pair_views(out@) + rest, pend),
                ),
                None => dec_ientries_at(bytes@, p2 as int, n as int) is None,
            },
        decreases n - i,
    {
        let (key, q1) = match read_string(bytes, pos) {
            Some(x) => x,
            None => {
                return Err(CacheError::Corrupt);
            },
        };
        let (ps0, q2) = match read_postings(bytes, q1) {
            Some(x) => x,
            None => {
                return Err(CacheError::Corrupt);
            },
        };
        let ghost kview = key@;
        let ghost pview = ps0@;
        out.push((key, ps0));
        pos = q2;
        proof {
            assert(pair_views(out@).drop_last() =~= pair_views(out@.drop_last()));
            assert(pair_views(out@.drop_last()) + seq![(kview, pview)] =~= pair_views(out@));
            match dec_ientries_at(bytes@, pos as int, (n - i - 1) as int) {
                Some((rest, pend)) => {
                    assert(pair_views(out@.drop_last()) + (seq![(kview, pview)] + rest)
                        =~= pair_views(out@) + rest);
                },
                None => {},
            }
        }
        i += 1;
    }
    proof {
        assert(pair_views(out@) + Seq::<(Seq<char>, Seq<u32>)>::empty() =~= pair_views(out@));
    }
    let ghost parsed = pair_views(out@);
    match InvertedIndex::from_entries(out) {
        Some(ix) => {
            proof {
                ix.lemma_entry_views();
            }
            if fp == *current {
                Ok(Some(ix))
            } else {
                Ok(None)
            }
        },
        None => Err(CacheError::Corrupt),
    }
}

// --- N-gram index artifact ---

/// One n-gram index entry: the window's bytes, then its postings list.
pub open spec fn enc_gentry(p: (Seq<u8>, Seq<u32>)) -> Seq<u8> {
    enc_bytes(p.0) + enc_postings(p.1)
}

/// The entries of the whole sequence, one after the other.
pub open spec fn enc_gentries(ps: Seq<(Seq<u8>, Seq<u32>)>) -> Seq<u8>
    decreases ps.len(),
{
    if ps.len() == 0 {
        Seq::empty()
    } else {
        enc_gentry(ps[0]) + enc_gentries(ps.drop_first())
    }
}

pub proof fn lemma_enc_gentries_push(ps: Seq<(Seq<u8>, Seq<u32>)>, e: (Seq<u8>, Seq<u32>))
    ensures
        enc_gentries(ps.push(e)) == enc_gentries(ps) + enc_gentry(e),
    decreases ps.len(),
{
    if ps.len() == 0 {
        assert(ps.push(e)[0] == e);
        assert(ps.push(e).drop_first() =~= Seq::<(Seq<u8>, Seq<u32>)>::empty());
        assert(enc_gentries(Seq::<(Seq<u8>, Seq<u32>)>::empty()) == Seq::<u8>::empty());
        assert(ps =~= Seq::<(Seq<u8>, Seq<u32>)>::empty());
        assert(enc_gentries(ps.push(e)) =~= enc_gentries(ps) + enc_gentry(e));
    } else {
        assert(ps.push(e)[0] == ps[0]);
        assert(ps.push(e).drop_first() =~= ps.drop_first().push(e));
        lemma_enc_gentries_push(ps.drop_first(), e);
        assert(enc_gentries(ps.push(e)) =~= enc_gentries(ps) + enc_gentry(e));
    }
}

/// Every component of every entry fits the machine's limits.
pub open spec fn gentries_encodable(ps: Seq<(Seq<u8>, Seq<u32>)>) -> bool {
    forall|i: int|
        0 <= i < ps.len() ==> (#[trigger] ps[i]).0.len() <= usize::MAX && ps[i].1.len()
            <= usize::MAX
}

/// What reading `count` entries at `pos` yields.
pub open spec fn dec_gentries_at(b: Seq<u8>, pos: int, count: int) -> Option<
    (Seq<(Seq<u8>, Seq<u32>)>, int),
>
    decreases count,
{
    if count <= 0 {
        Some((Seq::empty(), pos))
    } else {
        match dec_bytes_at(b, pos) {
            Some((key, p1)) => match dec_postings_at(b, p1) {
                Some((ps0, p2)) => match dec_gentries_at(b, p2, count - 1) {
                    Some((rest, p3)) => Some((seq![(key, ps0)] + rest, p3)),
                    None => None,
                },
                None => None,
            },
            None => None,
        }
    }
}

/// The byte sizes of one entry's parts.
proof fn proof_genc_sizes(e: (Seq<u8>, Seq<u32>))
    ensures
        enc_bytes(e.0).len() == 8 + e.0.len(),
        enc_postings(e.1).len() == 8 + 4 * e.1.len(),
        enc_gentry(e).len() == enc_bytes(e.0).len() + enc_postings(e.1).len(),
{
    lemma_enc_le_len(e.0.len() as int, 8);
    lemma_enc_le_len(e.1.len() as int, 8);
    lemma_enc_u32s_len(e.1);
}

/// Reading at a position holding encoded entries yields those entries.
proof fn lemma_dec_gentries_at(b: Seq<u8>, pos: int, ps: Seq<(Seq<u8>, Seq<u32>)>)
    requires
        0 <= pos,
        gentries_encodable(ps),
        pos + enc_gentries(ps).len() <= b.len(),
        b.subrange(pos, pos + enc_gentries(ps).len() as int) == enc_gentries(ps),
    ensures
        dec_gentries_at(b, pos, ps.len() as int) == Some(
            (ps, pos + enc_gentries(ps).len() as int),
        ),
    decreases ps.len(),
{
    if ps.len() > 0 {
        let e = ps[0];
        let klen = 8 + e.0.len() as int;
        let plen = 8 + 4 * e.1.len() as int;
        proof_genc_sizes(e);
        let total = enc_gentries(ps).len() as int;
        assert(enc_gentries(ps) == enc_gentry(e) + enc_gentries(ps.drop_first()));
        assert(b.subrange(pos, pos + klen) =~= enc_bytes(e.0)) by {
            assert(enc_gentries(ps).subrange(0, klen) =~= enc_bytes(e.0));
            assert(b.subrange(pos, pos + klen) =~= enc_gentries(ps).subrange(0, klen));
        }
        lemma_dec_bytes_at(b, pos, e.0);
        assert(b.subrange(pos + klen, pos + klen + plen) =~= enc_postings(e.1)) by {
            assert(enc_gentries(ps).subrange(klen, klen + plen) =~= enc_postings(e.1));
            assert(b.subrange(pos + klen, pos + klen + plen) =~= enc_gentries(ps).subrange(
                klen,
                klen + plen,
            ));
        }
        lemma_dec_postings_at(b, pos + klen, e.1);
        assert(forall|k: int| 0 <= k < ps.len() - 1 ==> ps.drop_first()[k] == ps[k + 1]);
        assert(b.subrange(pos + klen + plen, pos + total) =~= enc_gentries(ps.drop_first())) by {
            assert(enc_gentries(ps).subrange(klen + plen, total) =~= enc_gentries(
                ps.drop_first(),
            ));
            assert(b.subrange(pos + klen + plen, pos + total) =~= enc_gentries(ps).subrange(
                klen + plen,
                total,
            ));
        }
        lemma_dec_gentries_at(b, pos + klen + plen, ps.drop_first());
        assert(seq![(e.0, e.1)] + ps.drop_first() =~= ps);
        assert((e.0, e.1) == e);
    }
}

/// The full artifact: fingerprint, entry count, entries.
pub open spec fn enc_ngram_artifact(fp: CacheFingerprint, ps: Seq<(Seq<u8>, Seq<u32>)>) -> Seq<
    u8,
> {
    enc_fingerprint(fp) + enc_le(ps.len() as int, 8) + enc_gentries(ps)
}

/// What the artifact's bytes hold, if they parse.
pub open spec fn parse_ngram_artifact(b: Seq<u8>) -> Option<
    (CacheFingerprint, Seq<(Seq<u8>, Seq<u32>)>),
> {
    match dec_fingerprint_at(b, 0) {
        Some((fp, p1)) => match dec_u64_at(b, p1) {
            Some((n, p2)) => match dec_gentries_at(b, p2, n) {
                Some((ps, p3)) => Some((fp, ps)),
                None => None,
            },
            None => None,
        },
        None => None,
    }
}

/// What loading the artifact against the file's current fingerprint
/// yields.
pub open spec fn ngram_load_outcome(b: Seq<u8>, current: CacheFingerprint) -> Result<
    Option<Map<Seq<u8>, Seq<u32>>>,
    CacheError,
> {
    match parse_ngram_artifact(b) {
        Some((fp, ps)) => if !gram_pairs_wf(ps) {
            Err(CacheError::Corrupt)
        } else if fp == current {
            Ok(Some(map_of_gram_pairs(ps)))
        } else {
            Ok(None)
        },
        None => Err(CacheError::Corrupt),
    }
}

/// An artifact parses back to exactly the fingerprint and entries that
/// were encoded.
pub proof fn lemma_parse_ngram_artifact(fp: CacheFingerprint, ps: Seq<(Seq<u8>, Seq<u32>)>)
    requires
        ps.len() <= usize::MAX,
        gentries_encodable(ps),
    ensures
        parse_ngram_artifact(enc_ngram_artifact(fp, ps)) == Some((fp, ps)),
{
    lemma_pow256_8();
    let b = enc_ngram_artifact(fp, ps);
    lemma_enc_le_len(ps.len() as int, 8);
    lemma_enc_le_len(fp.file_size as int, 8);
    lemma_enc_le_len(fp.mod_time_secs as int, 8);
    lemma_enc_le_len(fp.mod_time_nanos as int, 4);
    assert(b.subrange(0, 20) =~= enc_fingerprint(fp));
    lemma_dec_fingerprint_at(b, 0, fp);
    assert(b.subrange(20, 28) =~= enc_le(ps.len() as int, 8));
    lemma_le_roundtrip(ps.len() as int, 8, pow256(8));
    assert(b.subrange(28, 28 + enc_gentries(ps).len() as int) =~= enc_gentries(ps));
    lemma_dec_gentries_at(b, 28, ps);
}

/// Law: an untouched source file gives back exactly what was saved.
pub proof fn lemma_ngram_cache_round_trip(fp: CacheFingerprint, ps: Seq<(Seq<u8>, Seq<u32>)>)
    requires
        ps.len() <= usize::MAX,
        gentries_encodable(ps),
        gram_pairs_wf(ps),
    ensures
        ngram_load_outcome(enc_ngram_artifact(fp, ps), fp) == Ok::<
            Option<Map<Seq<u8>, Seq<u32>>>,
            CacheError,
        >(Some(map_of_gram_pairs(ps))),
{
    lemma_parse_ngram_artifact(fp, ps);
}

/// Law: a changed fingerprint makes the load come back absent.
pub proof fn lemma_ngram_cache_stale(
    fp: CacheFingerprint,
    current: CacheFingerprint,
    ps: Seq<(Seq<u8>, Seq<u32>)>,
)
    requires
        ps.len() <= usize::MAX,
        gentries_encodable(ps),
        gram_pairs_wf(ps),
        fp != current,
    ensures
        ngram_load_outcome(enc_ngram_artifact(fp, ps), current) == Ok::<
            Option<Map<Seq<u8>, Seq<u32>>>,
            CacheError,
        >(None),
{
    lemma_parse_ngram_artifact(fp, ps);
}

/// Encode an n-gram index with its source file's fingerprint.
pub fn encode_ngram_index_artifact(fp: &CacheFingerprint, index_data: &NGramIndex) -> (r: Vec<u8>)
    ensures
        r@ == enc_ngram_artifact(*fp, index_data.entry_views()),
{
    let mut out: Vec<u8> = Vec::new();
    push_fingerprint(&mut out, fp);
    let n = index_data.entry_count();
    push_u64(&mut out, n as u64);
    let ghost head = out@;
    let mut i: usize = 0;
    proof {
        assert(out@ =~= head + enc_gentries(index_data.entry_views().take(0)));
    }
    while i < n
        invariant
            n == index_data.entry_views().len(),
            i <= n,
            out@ == head + enc_gentries(index_data.entry_views().take(i as int)),
        decreases n - i,
    {
        let (key, ps0) = index_data.entry_at(i);
        push_bytes(&mut out, key);
        push_postings(&mut out, ps0);
        proof {
            let ev = index_data.entry_views();
            assert(ev.take(i + 1) =~= ev.take(i as int).push(ev[i as int]));
            lemma_enc_gentries_push(ev.take(i as int), ev[i as int]);
            assert(out@ =~= head + enc_gentries(ev.take(i + 1)));
        }
        i += 1;
    }
    proof {
        let ev = index_data.entry_views();
        assert(ev.take(n as int) =~= ev);
        assert(out@ =~= enc_ngram_artifact(*fp, ev));
    }
    out
}

/// Decode an n-gram index artifact and check it against the file's
/// current fingerprint.
#[verifier::loop_isolation(false)]
pub fn decode_ngram_index_artifact(bytes: &[u8], current: &CacheFingerprint) -> (r: Result<
    Option<NGramIndex>,
    CacheError,
>)
    ensures
        match r {
            Ok(Some(ix)) => ix.wf() && ngram_load_outcome(bytes@, *current) == Ok::<
                Option<Map<Seq<u8>, Seq<u32>>>,
                CacheError,
            >(Some(ix@)),
            Ok(None) => ngram_load_outcome(bytes@, *current) == Ok::<
                Option<Map<Seq<u8>, Seq<u32>>>,
                CacheError,
            >(None),
            Err(e) => ngram_load_outcome(bytes@, *current) == Err::<
                Option<Map<Seq<u8>, Seq<u32>>>,
                CacheError,
            >(e),
        },
{
    let (fp, p1) = match read_fingerprint(bytes, 0) {
        Some(x) => x,
        None => {
            return Err(CacheError::Corrupt);
        },
    };
    let (n, p2) = match read_u64(bytes, p1) {
        Some(x) => x,
        None => {
            return Err(CacheError::Corrupt);
        },
    };
    let mut out: Vec<(NGram, Vec<u32>)> = Vec::new();
    let mut pos: usize = p2;
    let mut i: u64 = 0;
    proof {
        assert(gram_pair_views(out@) + Seq::<(Seq<u8>, Seq<u32>)>::empty() =~= gram_pair_views(
            out@,
        ));
    }
    while i < n
        invariant
            i <= n,
            out@.len() == i,
            match dec_gentries_at(bytes@, pos as int, (n - i) as int) {
                Some((rest, pend)) => dec_gentries_at(bytes@, p2 as int, n as int) == Some(
                    (gram_pair_views(out@) + rest, pend),
                ),
                None => dec_gentries_at(bytes@, p2 as int, n as int) is None,
            },
        decreases n - i,
    {
        let (key, q1) = match read_bytes(bytes, pos) {
            Some(x) => x,
            None => {
                return Err(CacheError::Corrupt);
            },
        };
        let (ps0, q2) = match read_postings(bytes, q1) {
            Some(x) => x,
            None => {
                return Err(CacheError::Corrupt);
            },
        };
        let ghost kview = key@;
        let ghost pview = ps0@;
        out.push((key, ps0));
        pos = q2;
        proof {
            assert(gram_pair_views(out@).drop_last() =~= gram_pair_views(out@.drop_last()));
            assert(gram_pair_views(out@.drop_last()) + seq![(kview, pview)] =~= gram_pair_views(
                out@,
            ));
            match dec_gentries_at(bytes@, pos as int, (n - i - 1) as int) {
                Some((rest, pend)) => {
                    assert(gram_pair_views(out@.drop_last()) + (seq![(kview, pview)] + rest)
                        =~= gram_pair_views(out@) + rest);
                },
                None => {},
            }
        }
        i += 1;
    }
    proof {
        assert(gram_pair_views(out@) + Seq::<(Seq<u8>, Seq<u32>)>::empty() =~= gram_pair_views(
            out@,
        ));
    }
    match NGramIndex::from_entries(out) {
        Some(ix) => {
            proof {
                ix.lemma_entry_views();
            }
            if fp == *current {
                Ok(Some(ix))
            } else {
                Ok(None)
            }
        },
        None => Err(CacheError::Corrupt),
    }
}

/// An index together with the fingerprint it was saved under: the
/// in-memory form of one cache artifact.
pub struct LineOffsetCacheWrapper {
    pub fingerprint: CacheFingerprint,
    pub index_data: Vec<LineOffset>,
}

impl LineOffsetCacheWrapper {
    /// The artifact's bytes.
    pub fn encode(&self) -> (r: Vec<u8>)
        ensures
            r@ == enc_offsets_artifact(self.fingerprint, self.index_data@),
    {
        encode_line_offset_artifact(&self.fingerprint, &self.index_data)
    }
}

/// An inverted index together with the fingerprint it was saved under.
pub struct InvertedIndexCacheWrapper {
    pub fingerprint: CacheFingerprint,
    pub index_data: InvertedIndex,
}

impl InvertedIndexCacheWrapper {
    /// The artifact's bytes.
    pub fn encode(&self) -> (r: Vec<u8>)
        ensures
            r@ == enc_inverted_artifact(self.fingerprint, self.index_data.entry_views()),
    {
        encode_inverted_index_artifact(&self.fingerprint, &self.index_data)
    }
}

/// An n-gram index together with the fingerprint it was saved under.
pub struct NGramIndexCacheWrapper {
    pub fingerprint: CacheFingerprint,
    pub index_data: NGramIndex,
}

impl NGramIndexCacheWrapper {
    /// The artifact's bytes.
    pub fn encode(&self) -> (r: Vec<u8>)
        ensures
            r@ == enc_ngram_artifact(self.fingerprint, self.index_data.entry_views()),
    {
        encode_ngram_index_artifact(&self.fingerprint, &self.index_data)
    }
}

} // verus!
