//! The byte format of cache artifacts: little-endian integers,
//! length-prefixed byte strings, UTF-8 text. Encoding and decoding are
//! both specified as functions on byte sequences, and decoding an
//! encoding provably returns the value that went in.

use vstd::prelude::*;
use vstd::arithmetic::div_mod::lemma_fundamental_div_mod;

verus! {

/// The value of a little-endian byte sequence.
pub open spec fn le_value(s: Seq<u8>) -> int
    decreases s.len(),
{
    if s.len() == 0 {
        0
    } else {
        s[0] + 256 * le_value(s.drop_first())
    }
}

/// The `n`-byte little-endian encoding of `x`.
pub open spec fn enc_le(x: int, n: int) -> Seq<u8>
    decreases n,
{
    if n <= 0 {
        Seq::empty()
    } else {
        seq![(x % 256) as u8] + enc_le(x / 256, n - 1)
    }
}

pub proof fn lemma_enc_le_len(x: int, n: int)
    requires
        0 <= n,
    ensures
        enc_le(x, n).len() == n,
    decreases n,
{
    if n > 0 {
        lemma_enc_le_len(x / 256, n - 1)
    }
}

/// Decoding an `n`-byte encoding of a non-negative value below
/// `256^n` returns the value.
pub proof fn lemma_le_roundtrip(x: int, n: int, bound: int)
    requires
        0 <= n,
        0 <= x < bound,
        bound == pow256(n),
    ensures
        le_value(enc_le(x, n)) == x,
    decreases n,
{
    if n > 0 {
        lemma_fundamental_div_mod(x, 256);
        assert(x / 256 < pow256(n - 1)) by {
            if x / 256 >= pow256(n - 1) {
                assert(x >= 256 * (x / 256)) by {
                    lemma_fundamental_div_mod(x, 256);
                }
                assert(256 * (x / 256) >= 256 * pow256(n - 1)) by (nonlinear_arith)
                    requires
                        x / 256 >= pow256(n - 1),
                ;
            }
        }
        lemma_le_roundtrip(x / 256, n - 1, pow256(n - 1));
        assert(enc_le(x, n).drop_first() =~= enc_le(x / 256, n - 1));
    }
}

/// Powers of 256.
pub open spec fn pow256(n: int) -> int
    decreases n,
{
    if n <= 0 {
        1
    } else {
        256 * pow256(n - 1)
    }
}

/// Append the 4-byte little-endian encoding of `x`.
pub fn push_u32(out: &mut Vec<u8>, x: u32)
    ensures
        final(out)@ == old(out)@ + enc_le(x as int, 4),
{
    let x0: u32 = x;
    let x1: u32 = x0 / 256;
    let x2: u32 = x1 / 256;
    let x3: u32 = x2 / 256;
    out.push((x0 % 256) as u8);
    out.push((x1 % 256) as u8);
    out.push((x2 % 256) as u8);
    out.push((x3 % 256) as u8);
    proof {
        assert(enc_le(x0 as int, 4) == seq![(x0 as int % 256) as u8] + enc_le(x1 as int, 3));
        assert(enc_le(x1 as int, 3) == seq![(x1 as int % 256) as u8] + enc_le(x2 as int, 2));
        assert(enc_le(x2 as int, 2) == seq![(x2 as int % 256) as u8] + enc_le(x3 as int, 1));
        assert(enc_le(x3 as int, 1) == seq![(x3 as int % 256) as u8] + enc_le(x3 as int / 256, 0));
        assert(final(out)@ =~= old(out)@ + enc_le(x as int, 4));
    }
}

/// Append the 8-byte little-endian encoding of `x`.
pub fn push_u64(out: &mut Vec<u8>, x: u64)
    ensures
        final(out)@ == old(out)@ + enc_le(x as int, 8),
{
    let x0: u64 = x;
    let x1: u64 = x0 / 256;
    let x2: u64 = x1 / 256;
    let x3: u64 = x2 / 256;
    let x4: u64 = x3 / 256;
    let x5: u64 = x4 / 256;
    let x6: u64 = x5 / 256;
    let x7: u64 = x6 / 256;
    out.push((x0 % 256) as u8);
    out.push((x1 % 256) as u8);
    out.push((x2 % 256) as u8);
    out.push((x3 % 256) as u8);
    out.push((x4 % 256) as u8);
    out.push((x5 % 256) as u8);
    out.push((x6 % 256) as u8);
    out.push((x7 % 256) as u8);
    proof {
        assert(enc_le(x0 as int, 8) == seq![(x0 as int % 256) as u8] + enc_le(x1 as int, 7));
        assert(enc_le(x1 as int, 7) == seq![(x1 as int % 256) as u8] + enc_le(x2 as int, 6));
        assert(enc_le(x2 as int, 6) == seq![(x2 as int % 256) as u8] + enc_le(x3 as int, 5));
        assert(enc_le(x3 as int, 5) == seq![(x3 as int % 256) as u8] + enc_le(x4 as int, 4));
        assert(enc_le(x4 as int, 4) == seq![(x4 as int % 256) as u8] + enc_le(x5 as int, 3));
        assert(enc_le(x5 as int, 3) == seq![(x5 as int % 256) as u8] + enc_le(x6 as int, 2));
        assert(enc_le(x6 as int, 2) == seq![(x6 as int % 256) as u8] + enc_le(x7 as int, 1));
        assert(enc_le(x7 as int, 1) == seq![(x7 as int % 256) as u8] + enc_le(x7 as int / 256, 0));
        assert(final(out)@ =~= old(out)@ + enc_le(x as int, 8));
    }
}

/// Unfold an 8-byte little-endian value into its byte sum.
proof fn lemma_le_value8(s: Seq<u8>)
    requires
        s.len() == 8,
    ensures
        le_value(s) == s[0] + 256 * (s[1] + 256 * (s[2] + 256 * (s[3] + 256 * (s[4] + 256 * (s[5]
            + 256 * (s[6] + 256 * s[7])))))),
{
    let s1 = s.drop_first();
    let s2 = s1.drop_first();
    let s3 = s2.drop_first();
    let s4 = s3.drop_first();
    let s5 = s4.drop_first();
    let s6 = s5.drop_first();
    let s7 = s6.drop_first();
    assert(le_value(s) == s[0] + 256 * le_value(s1));
    assert(le_value(s1) == s1[0] + 256 * le_value(s2));
    assert(le_value(s2) == s2[0] + 256 * le_value(s3));
    assert(le_value(s3) == s3[0] + 256 * le_value(s4));
    assert(le_value(s4) == s4[0] + 256 * le_value(s5));
    assert(le_value(s5) == s5[0] + 256 * le_value(s6));
    assert(le_value(s6) == s6[0] + 256 * le_value(s7));
    assert(s7.len() == 1 && le_value(s7) == s7[0] + 256 * le_value(s7.drop_first()));
    assert(le_value(s7.drop_first()) == 0);
}

/// Unfold a 4-byte little-endian value into its byte sum.
proof fn lemma_le_value4(s: Seq<u8>)
    requires
        s.len() == 4,
    ensures
        le_value(s) == s[0] + 256 * (s[1] + 256 * (s[2] + 256 * s[3])),
{
    let s1 = s.drop_first();
    let s2 = s1.drop_first();
    let s3 = s2.drop_first();
    assert(le_value(s) == s[0] + 256 * le_value(s1));
    assert(le_value(s1) == s1[0] + 256 * le_value(s2));
    assert(le_value(s2) == s2[0] + 256 * le_value(s3));
    assert(s3.len() == 1 && le_value(s3) == s3[0] + 256 * le_value(s3.drop_first()));
    assert(le_value(s3.drop_first()) == 0);
}

/// What reading a 4-byte value at `pos` yields.
pub open spec fn dec_u32_at(b: Seq<u8>, pos: int) -> Option<(int, int)> {
    if 0 <= pos && pos + 4 <= b.len() {
        Some((le_value(b.subrange(pos, pos + 4)), pos + 4))
    } else {
        None
    }
}

/// What reading an 8-byte value at `pos` yields.
pub open spec fn dec_u64_at(b: Seq<u8>, pos: int) -> Option<(int, int)> {
    if 0 <= pos && pos + 8 <= b.len() {
        Some((le_value(b.subrange(pos, pos + 8)), pos + 8))
    } else {
        None
    }
}

/// Read a 4-byte little-endian value.
pub fn read_u32(bytes: &[u8], pos: usize) -> (r: Option<(u32, usize)>)
    ensures
        match r {
            Some(p) => dec_u32_at(bytes@, pos as int) == Some((p.0 as int, p.1 as int)),
            None => dec_u32_at(bytes@, pos as int) is None,
        },
{
    if bytes.len() < 4 || pos > bytes.len() - 4 {
        return None;
    }
    let b0: u32 = bytes[pos] as u32;
    let b1: u32 = bytes[pos + 1] as u32;
    let b2: u32 = bytes[pos + 2] as u32;
    let b3: u32 = bytes[pos + 3] as u32;
    let v: u32 = b0 + 256 * (b1 + 256 * (b2 + 256 * b3));
    proof {
        let s = bytes@.subrange(pos as int, pos as int + 4);
        lemma_le_value4(s);
        assert(s[0] == b0 && s[1] == b1 && s[2] == b2 && s[3] == b3);
    }
    Some((v, pos + 4))
}

/// Read an 8-byte little-endian value.
pub fn read_u64(bytes: &[u8], pos: usize) -> (r: Option<(u64, usize)>)
    ensures
        match r {
            Some(p) => dec_u64_at(bytes@, pos as int) == Some((p.0 as int, p.1 as int)),
            None => dec_u64_at(bytes@, pos as int) is None,
        },
{
    if bytes.len() < 8 || pos > bytes.len() - 8 {
        return None;
    }
    let b0: u64 = bytes[pos] as u64;
    let b1: u64 = bytes[pos + 1] as u64;
    let b2: u64 = bytes[pos + 2] as u64;
    let b3: u64 = bytes[pos + 3] as u64;
    let b4: u64 = bytes[pos + 4] as u64;
    let b5: u64 = bytes[pos + 5] as u64;
    let b6: u64 = bytes[pos + 6] as u64;
    let b7: u64 = bytes[pos + 7] as u64;
    let v: u64 = b0 + 256 * (b1 + 256 * (b2 + 256 * (b3 + 256 * (b4 + 256 * (b5 + 256 * (b6 + 256
        * b7))))));
    proof {
        let s = bytes@.subrange(pos as int, pos as int + 8);
        lemma_le_value8(s);
        assert(s[0] == b0 && s[1] == b1 && s[2] == b2 && s[3] == b3 && s[4] == b4 && s[5] == b5
            && s[6] == b6 && s[7] == b7);
    }
    Some((v, pos + 8))
}

pub proof fn lemma_pow256_8()
    ensures
        pow256(4) == 0x1_0000_0000,
        pow256(8) == 0x1_0000_0000_0000_0000,
{
    assert(pow256(0) == 1 && pow256(1) == 256 && pow256(2) == 65536 && pow256(3) == 16777216
        && pow256(4) == 0x1_0000_0000 && pow256(5) == 0x100_0000_0000 && pow256(6)
        == 0x1_0000_0000_0000 && pow256(7) == 0x100_0000_0000_0000 && pow256(8)
        == 0x1_0000_0000_0000_0000);
}

/// A length-prefixed byte string.
pub open spec fn enc_bytes(s: Seq<u8>) -> Seq<u8> {
    enc_le(s.len() as int, 8) + s
}

/// What reading a length-prefixed byte string at `pos` yields.
pub open spec fn dec_bytes_at(b: Seq<u8>, pos: int) -> Option<(Seq<u8>, int)> {
    match dec_u64_at(b, pos) {
        Some((n, p)) => if p + n <= b.len() {
            Some((b.subrange(p, p + n), p + n))
        } else {
            None
        },
        None => None,
    }
}

/// Reading at a position holding an encoded byte string yields that
/// byte string and stops right after it.
pub proof fn lemma_dec_bytes_at(b: Seq<u8>, pos: int, s: Seq<u8>)
    requires
        0 <= pos,
        s.len() <= usize::MAX,
        pos + 8 + s.len() <= b.len(),
        b.subrange(pos, pos + 8 + s.len()) == enc_bytes(s),
    ensures
        dec_bytes_at(b, pos) == Some((s, pos + 8 + s.len())),
{
    lemma_pow256_8();
    lemma_enc_le_len(s.len() as int, 8);
    lemma_le_roundtrip(s.len() as int, 8, pow256(8));
    assert(b.subrange(pos, pos + 8) =~= enc_bytes(s).subrange(0, 8));
    assert(enc_bytes(s).subrange(0, 8) =~= enc_le(s.len() as int, 8));
    assert(b.subrange(pos + 8, pos + 8 + s.len()) =~= enc_bytes(s).subrange(8, 8 + s.len() as int));
    assert(enc_bytes(s).subrange(8, 8 + s.len() as int) =~= s);
}

/// Append a length-prefixed byte string.
pub fn push_bytes(out: &mut Vec<u8>, s: &Vec<u8>)
    ensures
        final(out)@ == old(out)@ + enc_bytes(s@),
{
    push_u64(out, s.len() as u64);
    let ghost mid = out@;
    let n = s.len();
    let mut i: usize = 0;
    while i < n
        invariant
            n == s@.len(),
            i <= n,
            out@ == mid + s@.take(i as int),
        decreases n - i,
    {
        out.push(s[i]);
        proof {
            assert(out@ =~= mid + s@.take(i + 1));
        }
        i += 1;
    }
    proof {
        assert(s@.take(n as int) =~= s@);
        assert(out@ =~= old(out)@ + enc_bytes(s@));
    }
}

/// Read a length-prefixed byte string.
pub fn read_bytes(bytes: &[u8], pos: usize) -> (r: Option<(Vec<u8>, usize)>)
    ensures
        match r {
            Some(p) => dec_bytes_at(bytes@, pos as int) == Some((p.0@, p.1 as int)),
            None => dec_bytes_at(bytes@, pos as int) is None,
        },
{
    let (n64, p) = match read_u64(bytes, pos) {
        Some(x) => x,
        None => {
            return None;
        },
    };
    if n64 > bytes.len() as u64 || p > bytes.len() - (n64 as usize) {
        proof {
            assert(p + n64 > bytes@.len());
        }
        return None;
    }
    let n: usize = n64 as usize;
    let mut v: Vec<u8> = Vec::new();
    let mut i: usize = 0;
    while i < n
        invariant
            p + n <= bytes@.len() <= usize::MAX,
            i <= n,
            v@ == bytes@.subrange(p as int, p as int + i as int),
        decreases n - i,
    {
        v.push(bytes[p + i]);
        proof {
            assert(v@ =~= bytes@.subrange(p as int, p as int + i + 1));
        }
        i += 1;
    }
    Some((v, p + n))
}

/// A length-prefixed UTF-8 string.
pub open spec fn enc_string(s: Seq<char>) -> Seq<u8> {
    enc_bytes(vstd::utf8::encode_utf8(s))
}

/// What reading a length-prefixed UTF-8 string at `pos` yields:
/// nothing when the bytes are not valid UTF-8.
pub open spec fn dec_string_at(b: Seq<u8>, pos: int) -> Option<(Seq<char>, int)> {
    match dec_bytes_at(b, pos) {
        Some((bs, p)) => if vstd::utf8::valid_utf8(bs) {
            Some((vstd::utf8::decode_utf8(bs), p))
        } else {
            None
        },
        None => None,
    }
}

/// Reading at a position holding an encoded string yields that string.
pub proof fn lemma_dec_string_at(b: Seq<u8>, pos: int, s: Seq<char>)
    requires
        0 <= pos,
        vstd::utf8::encode_utf8(s).len() <= usize::MAX,
        pos + 8 + vstd::utf8::encode_utf8(s).len() <= b.len(),
        b.subrange(pos, pos + 8 + vstd::utf8::encode_utf8(s).len()) == enc_string(s),
    ensures
        dec_string_at(b, pos) == Some((s, pos + 8 + vstd::utf8::encode_utf8(s).len())),
{
    let bs = vstd::utf8::encode_utf8(s);
    lemma_dec_bytes_at(b, pos, bs);
    vstd::utf8::encode_utf8_valid_utf8(s);
    vstd::utf8::encode_utf8_decode_utf8(s);
}

/// Relies on String::from_utf8: succeeds exactly on valid UTF-8, and
/// returns the string those bytes spell.
#[verifier::external_body]
fn utf8_to_string(bytes: Vec<u8>) -> (r: Option<String>)
    ensures
        match r {
            Some(s) => vstd::utf8::valid_utf8(bytes@) && s@ == vstd::utf8::decode_utf8(bytes@),
            None => !vstd::utf8::valid_utf8(bytes@),
        },
{
    String::from_utf8(bytes).ok()
}

/// Append a length-prefixed UTF-8 string.
pub fn push_string(out: &mut Vec<u8>, s: &str)
    ensures
        final(out)@ == old(out)@ + enc_string(s@),
{
    let bv = s.as_bytes_vec();
    push_bytes(out, &bv);
}

/// Read a length-prefixed UTF-8 string.
pub fn read_string(bytes: &[u8], pos: usize) -> (r: Option<(String, usize)>)
    ensures
        match r {
            Some(p) => dec_string_at(bytes@, pos as int) == Some((p.0@, p.1 as int)),
            None => dec_string_at(bytes@, pos as int) is None,
        },
{
    let (bv, p) = match read_bytes(bytes, pos) {
        Some(x) => x,
        None => {
            return None;
        },
    };
    match utf8_to_string(bv) {
        Some(s) => Some((s, p)),
        None => None,
    }
}

} // verus!
