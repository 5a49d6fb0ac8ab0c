//! Line offset indexing: one sequential pass over a file's bytes that
//! records, for every line, where it starts and how many bytes it spans
//! (line terminator included). The pass is streaming: bytes arrive in
//! chunks of any size and the indexer keeps only the entries built so far
//! plus the running position.

use vstd::prelude::*;

verus! {

/// The byte that terminates a line.
pub const LINE_TERMINATOR: u8 = 10;

/// Where one line sits in the file: its starting byte position and its
/// byte count, terminator included.
#[derive(Clone, Copy, Debug, PartialEq, Eq, Structural)]
pub struct LineOffset {
    pub offset: u64,
    pub length: usize,
}

/// No line terminator anywhere in `bytes[lo .. hi)`.
pub open spec fn terminator_free(bytes: Seq<u8>, lo: int, hi: int) -> bool {
    forall|j: int| lo <= j < hi ==> bytes[j] != LINE_TERMINATOR
}

/// The position of the first line terminator at or after `pos`, or
/// `bytes.len()` when none remains.
pub open spec fn find_terminator(bytes: Seq<u8>, pos: int) -> int
    decreases bytes.len() - pos when 0 <= pos <= bytes.len()
{
    if pos >= bytes.len() {
        bytes.len() as int
    } else if bytes[pos] == LINE_TERMINATOR {
        pos
    } else {
        find_terminator(bytes, pos + 1)
    }
}

/// The (start, length) spans of all lines of `bytes` from position `pos`
/// on: each line runs up to and including the next terminator, and a
/// trailing unterminated line still yields a span.
pub open spec fn line_spans_from(bytes: Seq<u8>, pos: int) -> Seq<(int, int)>
    decreases bytes.len() - pos when 0 <= pos <= bytes.len()
{
    if pos >= bytes.len() {
        Seq::empty()
    } else {
        let nl = find_terminator(bytes, pos);
        let stop = if pos <= nl && nl < bytes.len() {
            nl + 1
        } else {
            bytes.len() as int
        };
        seq![(pos, stop - pos)] + line_spans_from(bytes, stop)
    }
}

/// The (start, length) spans of all lines of `bytes`.
pub open spec fn line_spans(bytes: Seq<u8>) -> Seq<(int, int)> {
    line_spans_from(bytes, 0)
}

/// The spans that a sequence of `LineOffset` entries denotes.
pub open spec fn spans_of(entries: Seq<LineOffset>) -> Seq<(int, int)> {
    Seq::new(entries.len(), |i: int| (entries[i].offset as int, entries[i].length as int))
}

/// `entries` tile `bytes[pos .. upto)` with completed lines: they are
/// contiguous from position `pos`, each holds at least its terminator,
/// each ends with a terminator byte, and none holds one anywhere else.
pub open spec fn tiles(entries: Seq<LineOffset>, bytes: Seq<u8>, pos: int, upto: int) -> bool {
    &&& 0 <= pos <= upto <= bytes.len()
    &&& (entries.len() == 0 ==> upto == pos)
    &&& (entries.len() > 0 ==> entries[0].offset == pos && entries.last().offset
        + entries.last().length == upto)
    &&& (forall|i: int|
        0 < i < entries.len() ==> (#[trigger] entries[i]).offset == entries[i - 1].offset
            + entries[i - 1].length)
    &&& (forall|i: int| 0 <= i < entries.len() ==> (#[trigger] entries[i]).length >= 1)
    &&& (forall|i: int|
        0 <= i < entries.len() ==> bytes[(#[trigger] entries[i]).offset + entries[i].length
            - 1] == LINE_TERMINATOR)
    &&& (forall|i: int|
        0 <= i < entries.len() ==> terminator_free(
            bytes,
            (#[trigger] entries[i]).offset as int,
            entries[i].offset + entries[i].length - 1,
        ))
    &&& (forall|i: int|
        0 <= i < entries.len() ==> pos <= (#[trigger] entries[i]).offset && entries[i].offset
            + entries[i].length <= upto)
}

proof fn lemma_find_terminator_bounds(bytes: Seq<u8>, pos: int)
    requires
        0 <= pos <= bytes.len(),
    ensures
        pos <= find_terminator(bytes, pos) <= bytes.len(),
        find_terminator(bytes, pos) < bytes.len() ==> bytes[find_terminator(bytes, pos)]
            == LINE_TERMINATOR,
        terminator_free(bytes, pos, find_terminator(bytes, pos)),
    decreases bytes.len() - pos,
{
    if pos < bytes.len() && bytes[pos] != LINE_TERMINATOR {
        lemma_find_terminator_bounds(bytes, pos + 1);
    }
}

/// `find_terminator` returns exactly the position known to hold the first
/// terminator at or after `pos`.
proof fn lemma_find_terminator_exact(bytes: Seq<u8>, pos: int, nl: int)
    requires
        0 <= pos <= nl <= bytes.len(),
        terminator_free(bytes, pos, nl),
        nl < bytes.len() ==> bytes[nl] == LINE_TERMINATOR,
    ensures
        find_terminator(bytes, pos) == nl,
    decreases nl - pos,
{
    if pos < nl {
        lemma_find_terminator_exact(bytes, pos + 1, nl);
    }
}

/// Entries that tile `bytes[pos .. upto)` with completed lines, followed
/// by a terminator-free tail, are exactly the line spans from `pos`:
/// the tail, when non-empty, is one final unterminated span.
proof fn lemma_tiles_spans(entries: Seq<LineOffset>, bytes: Seq<u8>, pos: int, upto: int)
    requires
        tiles(entries, bytes, pos, upto),
        terminator_free(bytes, upto, bytes.len() as int),
    ensures
        line_spans_from(bytes, pos) == spans_of(entries) + (if upto < bytes.len() {
            seq![(upto, bytes.len() - upto)]
        } else {
            Seq::<(int, int)>::empty()
        }),
    decreases entries.len(),
{
    let tail: Seq<(int, int)> = if upto < bytes.len() {
        seq![(upto, bytes.len() - upto)]
    } else {
        Seq::empty()
    };
    if entries.len() == 0 {
        assert(line_spans_from(bytes, bytes.len() as int) == Seq::<(int, int)>::empty());
        if pos < bytes.len() {
            lemma_find_terminator_exact(bytes, pos, bytes.len() as int);
            assert(line_spans_from(bytes, pos) =~= spans_of(entries) + tail);
        } else {
            assert(line_spans_from(bytes, pos) =~= spans_of(entries) + tail);
        }
    } else {
        let head = entries[0];
        let stop = head.offset + head.length;
        // The first line span is exactly the first entry.
        assert(terminator_free(bytes, pos, stop - 1) && bytes[stop - 1] == LINE_TERMINATOR);
        lemma_find_terminator_exact(bytes, pos, stop - 1);
        let rest = entries.drop_first();
        // Entry i+1 of `entries` is entry i of `rest`; all tiling facts carry over.
        assert(forall|i: int| 0 <= i < rest.len() ==> rest[i] == entries[i + 1]);
        assert(rest.len() > 0 ==> rest[0].offset == stop && rest.last() == entries.last());
        lemma_tiles_spans(rest, bytes, stop, upto);
        assert(line_spans_from(bytes, pos) == seq![(pos, stop - pos)] + (spans_of(rest) + tail));
        assert(spans_of(entries) =~= seq![(pos, stop - pos)] + spans_of(rest));
        assert(spans_of(entries) + tail =~= seq![(pos, stop - pos)] + (spans_of(rest) + tail));
    }
}

/// Tiling looks only at bytes before `upto`, so appending bytes keeps it.
proof fn lemma_tiles_grow(entries: Seq<LineOffset>, bytes: Seq<u8>, pos: int, upto: int, more: Seq<
    u8,
>)
    requires
        tiles(entries, bytes, pos, upto),
    ensures
        tiles(entries, bytes + more, pos, upto),
{
    let grown = bytes + more;
    assert forall|i: int| 0 <= i < entries.len() implies grown[(#[trigger] entries[i]).offset
        + entries[i].length - 1] == LINE_TERMINATOR by {
        let p = entries[i].offset + entries[i].length - 1;
        assert(grown[p] == bytes[p]);
    }
    assert forall|i: int| 0 <= i < entries.len() implies terminator_free(
        grown,
        (#[trigger] entries[i]).offset as int,
        entries[i].offset + entries[i].length - 1,
    ) by {
        let lo = entries[i].offset as int;
        let hi = entries[i].offset + entries[i].length - 1;
        assert(terminator_free(bytes, lo, hi));
        assert forall|j: int| lo <= j < hi implies grown[j] != LINE_TERMINATOR by {
            assert(grown[j] == bytes[j]);
        }
    }
}

/// One more completed line, starting exactly at `upto`, extends a tiling.
proof fn lemma_tiles_extend(
    entries: Seq<LineOffset>,
    bytes: Seq<u8>,
    pos: int,
    upto: int,
    e: LineOffset,
)
    requires
        tiles(entries, bytes, pos, upto),
        e.offset == upto,
        e.length >= 1,
        upto + e.length <= bytes.len(),
        bytes[upto + e.length - 1] == LINE_TERMINATOR,
        terminator_free(bytes, upto, upto + e.length - 1),
    ensures
        tiles(entries.push(e), bytes, pos, upto + e.length),
{
    let grown = entries.push(e);
    assert(forall|i: int| 0 <= i < entries.len() ==> grown[i] == entries[i]);
    assert(grown.last() == e);
}

/// How many line terminators `bytes` holds at or after `pos`.
pub open spec fn terminator_count_from(bytes: Seq<u8>, pos: int) -> int
    decreases bytes.len() - pos when 0 <= pos <= bytes.len()
{
    if pos >= bytes.len() {
        0
    } else {
        (if bytes[pos] == LINE_TERMINATOR {
            1int
        } else {
            0int
        }) + terminator_count_from(bytes, pos + 1)
    }
}

/// How many lines `bytes` holds: one per terminator, plus a final
/// unterminated line when the last byte is no terminator.
pub open spec fn line_count(bytes: Seq<u8>) -> int {
    terminator_count_from(bytes, 0) + (if bytes.len() > 0 && bytes.last() != LINE_TERMINATOR {
        1int
    } else {
        0int
    })
}

proof fn lemma_terminator_count_skip(bytes: Seq<u8>, pos: int, upto: int)
    requires
        0 <= pos <= upto <= bytes.len(),
        terminator_free(bytes, pos, upto),
    ensures
        terminator_count_from(bytes, pos) == terminator_count_from(bytes, upto),
    decreases upto - pos,
{
    if pos < upto {
        lemma_terminator_count_skip(bytes, pos + 1, upto);
    }
}

proof fn lemma_spans_count(bytes: Seq<u8>, pos: int)
    requires
        0 <= pos <= bytes.len(),
    ensures
        line_spans_from(bytes, pos).len() == terminator_count_from(bytes, pos) + (if pos
            < bytes.len() && bytes.last() != LINE_TERMINATOR {
            1int
        } else {
            0int
        }),
    decreases bytes.len() - pos,
{
    if pos < bytes.len() {
        lemma_find_terminator_bounds(bytes, pos);
        let nl = find_terminator(bytes, pos);
        if nl < bytes.len() {
            lemma_spans_count(bytes, nl + 1);
            lemma_terminator_count_skip(bytes, pos, nl);
            assert(terminator_count_from(bytes, nl) == 1 + terminator_count_from(bytes, nl + 1));
        } else {
            lemma_spans_count(bytes, bytes.len() as int);
            lemma_terminator_count_skip(bytes, pos, bytes.len() as int);
            assert(bytes.last() != LINE_TERMINATOR);
        }
    }
}

proof fn lemma_line_spans_from_shape(bytes: Seq<u8>, pos: int)
    requires
        0 <= pos <= bytes.len(),
    ensures
        line_spans_from(bytes, pos).len() == 0 <==> pos == bytes.len(),
        line_spans_from(bytes, pos).len() > 0 ==> line_spans_from(bytes, pos)[0].0 == pos,
        line_spans_from(bytes, pos).len() > 0 ==> line_spans_from(bytes, pos).last().0
            + line_spans_from(bytes, pos).last().1 == bytes.len(),
        forall|i: int|
            0 <= i < line_spans_from(bytes, pos).len() ==> (#[trigger] line_spans_from(bytes, pos)[i]).1
                >= 1,
        forall|i: int|
            0 < i < line_spans_from(bytes, pos).len() ==> (#[trigger] line_spans_from(bytes, pos)[i]).0
                == line_spans_from(bytes, pos)[i - 1].0 + line_spans_from(bytes, pos)[i - 1].1,
    decreases bytes.len() - pos,
{
    if pos < bytes.len() {
        lemma_find_terminator_bounds(bytes, pos);
        let nl = find_terminator(bytes, pos);
        let stop = if pos <= nl && nl < bytes.len() {
            nl + 1
        } else {
            bytes.len() as int
        };
        lemma_line_spans_from_shape(bytes, stop);
        let s = line_spans_from(bytes, pos);
        let rest = line_spans_from(bytes, stop);
        assert(forall|i: int| 0 < i < s.len() ==> s[i] == rest[i - 1]);
    }
}

/// The shape every line offset index has: exactly one span per line of
/// the file, the first starting at byte 0, each at least one byte long,
/// each later span starting exactly where the one before it ended — so
/// starts are strictly increasing — and the last one ending at the
/// file's total byte size. An empty file alone has no spans.
pub proof fn lemma_line_spans_properties(bytes: Seq<u8>)
    ensures
        line_spans(bytes).len() == line_count(bytes),
        line_spans(bytes).len() == 0 <==> bytes.len() == 0,
        line_spans(bytes).len() > 0 ==> line_spans(bytes)[0].0 == 0,
        line_spans(bytes).len() > 0 ==> line_spans(bytes).last().0 + line_spans(bytes).last().1
            == bytes.len(),
        forall|i: int|
            0 <= i < line_spans(bytes).len() ==> (#[trigger] line_spans(bytes)[i]).1 >= 1,
        forall|i: int|
            0 < i < line_spans(bytes).len() ==> (#[trigger] line_spans(bytes)[i]).0 == line_spans(
                bytes,
            )[i - 1].0 + line_spans(bytes)[i - 1].1,
        forall|i: int, j: int|
            0 <= i < j < line_spans(bytes).len() ==> (#[trigger] line_spans(bytes)[i]).0 < (
            #[trigger] line_spans(bytes)[j]).0,
{
    lemma_line_spans_from_shape(bytes, 0);
    lemma_spans_count(bytes, 0);
    let s = line_spans(bytes);
    assert forall|i: int, j: int| 0 <= i < j < s.len() implies (#[trigger] s[i]).0 < (
    #[trigger] s[j]).0 by {
        lemma_spans_increasing(s, i, j);
    }
}

proof fn lemma_spans_increasing(s: Seq<(int, int)>, i: int, j: int)
    requires
        0 <= i < j < s.len(),
        forall|k: int| 0 <= k < s.len() ==> (#[trigger] s[k]).1 >= 1,
        forall|k: int| 0 < k < s.len() ==> (#[trigger] s[k]).0 == s[k - 1].0 + s[k - 1].1,
    ensures
        s[i].0 < s[j].0,
    decreases j - i,
{
    if i + 1 < j {
        lemma_spans_increasing(s, i + 1, j);
    }
}

/// Streaming builder of the line offset index: feed the file's bytes in
/// chunks, in order, then take the finished entries.
pub struct OffsetIndexer {
    entries: Vec<LineOffset>,
    cursor: u64,
    pending: usize,
    fed: Ghost<Seq<u8>>,
}

impl OffsetIndexer {
    /// All bytes fed so far, in order.
    pub closed spec fn bytes_fed(&self) -> Seq<u8> {
        self.fed@
    }

    pub closed spec fn wf(&self) -> bool {
        &&& self.cursor + self.pending == self.fed@.len()
        &&& tiles(self.entries@, self.fed@, 0, self.cursor as int)
        &&& terminator_free(self.fed@, self.cursor as int, self.fed@.len() as int)
    }

    pub fn new() -> (r: Self)
        ensures
            r.wf(),
            r.bytes_fed() == Seq::<u8>::empty(),
    {
        OffsetIndexer { entries: Vec::new(), cursor: 0, pending: 0, fed: Ghost(Seq::empty()) }
    }

    /// Consume the next chunk of the file.
    pub fn feed(&mut self, chunk: &[u8])
        requires
            old(self).wf(),
            old(self).bytes_fed().len() + chunk@.len() <= usize::MAX,
        ensures
            final(self).wf(),
            final(self).bytes_fed() == old(self).bytes_fed() + chunk@,
    {
        let n = chunk.len();
        let mut i: usize = 0;
        while i < n
            invariant
                self.wf(),
                i <= n,
                n == chunk@.len(),
                self.bytes_fed() == old(self).bytes_fed() + chunk@.take(i as int),
                self.bytes_fed().len() + chunk@.len() - i <= usize::MAX,
            decreases n - i,
        {
            let b = chunk[i];
            proof {
                lemma_tiles_grow(self.entries@, self.fed@, 0, self.cursor as int, seq![b]);
                assert(self.fed@ + seq![b] =~= self.fed@.push(b));
                self.fed@ = self.fed@.push(b);
                assert(self.fed@ =~= old(self).bytes_fed() + chunk@.take(i + 1));
            }
            self.pending = self.pending + 1;
            if b == LINE_TERMINATOR {
                let entry = LineOffset { offset: self.cursor, length: self.pending };
                proof {
                    lemma_tiles_extend(self.entries@, self.fed@, 0, self.cursor as int, entry);
                }
                self.entries.push(entry);
                self.cursor = self.cursor + self.pending as u64;
                self.pending = 0;
            }
            i = i + 1;
        }
        proof {
            assert(self.bytes_fed() =~= old(self).bytes_fed() + chunk@);
        }
    }

    /// Close the index: a final unterminated line, if any bytes are
    /// pending, becomes the last entry. The result lists exactly the
    /// line spans of everything fed.
    pub fn finish(self) -> (r: Vec<LineOffset>)
        requires
            self.wf(),
        ensures
            spans_of(r@) == line_spans(self.bytes_fed()),
    {
        let OffsetIndexer { mut entries, cursor, pending, fed } = self;
        let ghost before = entries@;
        if pending > 0 {
            entries.push(LineOffset { offset: cursor, length: pending });
        }
        proof {
            lemma_tiles_spans(before, fed@, 0, cursor as int);
            if pending > 0 {
                assert(spans_of(entries@) =~= spans_of(before) + seq![
                    (cursor as int, pending as int),
                ]);
            } else {
                assert(spans_of(entries@) =~= spans_of(before));
            }
        }
        entries
    }
}

/// Build the full line offset index of `bytes` in one call.
pub fn build_line_offset_index(bytes: &[u8]) -> (r: Vec<LineOffset>)
    requires
        bytes@.len() <= usize::MAX,
    ensures
        spans_of(r@) == line_spans(bytes@),
{
    let mut indexer = OffsetIndexer::new();
    indexer.feed(bytes);
    proof {
        assert(indexer.bytes_fed() =~= bytes@);
    }
    indexer.finish()
}

} // verus!
