//! The n-gram index: a mapping from fixed-width byte window to the
//! ordered, duplicate-free list of line numbers containing that window,
//! and its builder. A window occurring at several positions of one line
//! is still recorded once for that line.

use vstd::prelude::*;
use vstd::utf8::encode_utf8;
use crate::line_access::{all_whitespace, is_blank_line, LineAccessor};
use crate::ngram_utils::{generate_ngrams_from_line, ngram_windows};

verus! {

/// A fixed-width byte window.
pub type NGram = Vec<u8>;

/// The mapping an association list of (n-gram, postings) entries denotes.
pub open spec fn map_of_gram_entries(es: Seq<(NGram, Vec<u32>)>) -> Map<Seq<u8>, Seq<u32>>
    decreases es.len(),
{
    if es.len() == 0 {
        Map::empty()
    } else {
        map_of_gram_entries(es.drop_last()).insert(es.last().0@, es.last().1@)
    }
}

/// No two entries share a key.
pub open spec fn gram_keys_distinct(es: Seq<(NGram, Vec<u32>)>) -> bool {
    forall|i: int, j: int|
        0 <= i < j < es.len() ==> (#[trigger] es[i]).0@ != (#[trigger] es[j]).0@
}

/// The postings a map holds for `g`: its entry, or none at all.
pub open spec fn gram_postings_in(m: Map<Seq<u8>, Seq<u32>>, g: Seq<u8>) -> Seq<u32> {
    if m.contains_key(g) {
        m[g]
    } else {
        Seq::empty()
    }
}

/// Mapping from n-gram to ordered, duplicate-free postings list: which
/// lines contain the window. Entries are held as an association list
/// with pairwise-distinct keys.
pub struct NGramIndex {
    entries: Vec<(NGram, Vec<u32>)>,
}

impl View for NGramIndex {
    type V = Map<Seq<u8>, Seq<u32>>;

    closed spec fn view(&self) -> Map<Seq<u8>, Seq<u32>> {
        map_of_gram_entries(self.entries@)
    }
}

impl NGramIndex {
    pub closed spec fn wf(&self) -> bool {
        &&& gram_keys_distinct(self.entries@)
        &&& forall|i: int|
            0 <= i < self.entries@.len() ==> (#[trigger] self.entries@[i]).1@.len() > 0
    }

    pub fn new() -> (r: Self)
        ensures
            r.wf(),
            r@ == Map::<Seq<u8>, Seq<u32>>::empty(),
    {
        NGramIndex { entries: Vec::new() }
    }

    /// A well-formed index maps no window to an empty postings list.
    pub proof fn lemma_wf_values_nonempty(&self)
        requires
            self.wf(),
        ensures
            forall|g: Seq<u8>| self@.contains_key(g) ==> self@[g].len() > 0,
    {
        lemma_map_of_gram_entries_values(self.entries@);
    }

    /// The postings list recorded for `gram`, if the window is indexed.
    pub fn postings(&self, gram: &NGram) -> (r: Option<&Vec<u32>>)
        requires
            self.wf(),
        ensures
            match r {
                Some(pl) => self@.contains_key(gram@) && pl@ == self@[gram@],
                None => !self@.contains_key(gram@),
            },
    {
        let n = self.entries.len();
        let mut i: usize = 0;
        while i < n
            invariant
                self.wf(),
                n == self.entries@.len(),
                i <= n,
                forall|k: int| 0 <= k < i ==> (#[trigger] self.entries@[k]).0@ != gram@,
            decreases n - i,
        {
            if bytes_eq(&self.entries[i].0, gram) {
                proof {
                    lemma_map_of_gram_entries_lookup(self.entries@, i as int);
                }
                return Some(&self.entries[i].1);
            }
            i += 1;
        }
        proof {
            lemma_map_of_gram_entries_absent(self.entries@, gram@);
        }
        None
    }

    /// Record line `line` under `gram`: its postings grow by one at the
    /// end, every other window's postings stay as they were.
    fn append_posting(&mut self, gram: &NGram, line: u32)
        requires
            old(self).wf(),
        ensures
            final(self).wf(),
            final(self)@ == old(self)@.insert(
                gram@,
                gram_postings_in(old(self)@, gram@).push(line),
            ),
    {
        let n = self.entries.len();
        let mut i: usize = 0;
        while i < n
            invariant
                self.wf(),
                self.entries@ == old(self).entries@,
                n == self.entries@.len(),
                i <= n,
                forall|k: int| 0 <= k < i ==> (#[trigger] self.entries@[k]).0@ != gram@,
            decreases n - i,
        {
            if bytes_eq(&self.entries[i].0, gram) {
                let key = clone_bytes(&self.entries[i].0);
                let mut pl = clone_postings(&self.entries[i].1);
                pl.push(line);
                proof {
                    lemma_map_of_gram_entries_lookup(self.entries@, i as int);
                }
                let ghost before = self.entries@;
                self.entries.set(i, (key, pl));
                proof {
                    lemma_map_of_gram_entries_update(before, i as int, self.entries@[i as int]);
                }
                return ;
            }
            i += 1;
        }
        let mut pl: Vec<u32> = Vec::new();
        pl.push(line);
        let ghost before = self.entries@;
        self.entries.push((clone_bytes(gram), pl));
        proof {
            lemma_map_of_gram_entries_absent(before, gram@);
            assert(self.entries@.drop_last() =~= before);
            assert(gram_postings_in(map_of_gram_entries(before), gram@).push(line) =~= pl@);
            assert(forall|k: int| 0 <= k < before.len() ==> self.entries@[k] == before[k]);
        }
    }
}

/// The key/postings views of an association list.
pub open spec fn gram_pair_views(es: Seq<(NGram, Vec<u32>)>) -> Seq<(Seq<u8>, Seq<u32>)> {
    Seq::new(es.len(), |i: int| (es[i].0@, es[i].1@))
}

/// The mapping a sequence of key/postings pairs denotes.
pub open spec fn map_of_gram_pairs(ps: Seq<(Seq<u8>, Seq<u32>)>) -> Map<Seq<u8>, Seq<u32>>
    decreases ps.len(),
{
    if ps.len() == 0 {
        Map::empty()
    } else {
        map_of_gram_pairs(ps.drop_last()).insert(ps.last().0, ps.last().1)
    }
}

/// Distinct keys and no empty postings list: what a well-formed index
/// guarantees of its entries, stated of their views.
pub open spec fn gram_pairs_wf(ps: Seq<(Seq<u8>, Seq<u32>)>) -> bool {
    &&& (forall|i: int, j: int|
        0 <= i < j < ps.len() ==> (#[trigger] ps[i]).0 != (#[trigger] ps[j]).0)
    &&& (forall|i: int| 0 <= i < ps.len() ==> (#[trigger] ps[i]).1.len() > 0)
}

proof fn lemma_map_of_gram_pairs_agrees(es: Seq<(NGram, Vec<u32>)>)
    ensures
        map_of_gram_pairs(gram_pair_views(es)) == map_of_gram_entries(es),
    decreases es.len(),
{
    if es.len() > 0 {
        assert(gram_pair_views(es).drop_last() =~= gram_pair_views(es.drop_last()));
        lemma_map_of_gram_pairs_agrees(es.drop_last());
    }
}

impl NGramIndex {
    /// The views of the index's entries, in their held order.
    pub closed spec fn entry_views(&self) -> Seq<(Seq<u8>, Seq<u32>)> {
        gram_pair_views(self.entries@)
    }

    /// A well-formed index's entries have distinct keys and no empty
    /// postings list, and they spell out exactly the index's mapping.
    pub proof fn lemma_entry_views(&self)
        requires
            self.wf(),
        ensures
            gram_pairs_wf(self.entry_views()),
            map_of_gram_pairs(self.entry_views()) == self@,
    {
        lemma_map_of_gram_pairs_agrees(self.entries@);
    }

    /// How many entries the index holds.
    pub fn entry_count(&self) -> (n: usize)
        ensures
            n == self.entry_views().len(),
    {
        self.entries.len()
    }

    /// The key and postings list of entry `i`.
    pub fn entry_at(&self, i: usize) -> (e: (&NGram, &Vec<u32>))
        requires
            i < self.entry_views().len(),
        ensures
            e.0@ == self.entry_views()[i as int].0,
            e.1@ == self.entry_views()[i as int].1,
    {
        (&self.entries[i].0, &self.entries[i].1)
    }

    /// Rebuild an index from plain entries, as read back from a cache
    /// artifact: accepted exactly when the keys are pairwise distinct
    /// and no postings list is empty.
    pub fn from_entries(entries: Vec<(NGram, Vec<u32>)>) -> (r: Option<NGramIndex>)
        ensures
            match r {
                Some(ix) => ix.wf() && ix.entry_views() == gram_pair_views(entries@),
                None => !gram_pairs_wf(gram_pair_views(entries@)),
            },
    {
        let n = entries.len();
        let mut i: usize = 0;
        while i < n
            invariant
                n == entries@.len(),
                i <= n,
                forall|a: int, b: int|
                    0 <= a < b < entries@.len() && b < i ==> (#[trigger] entries@[a]).0@ != (
                    #[trigger] entries@[b]).0@,
                forall|a: int| 0 <= a < i ==> (#[trigger] entries@[a]).1@.len() > 0,
            decreases n - i,
        {
            if entries[i].1.len() == 0 {
                proof {
                    assert(gram_pair_views(entries@)[i as int].1.len() == 0);
                }
                return None;
            }
            let mut j: usize = 0;
            while j < i
                invariant
                    n == entries@.len(),
                    j <= i < n,
                    forall|a: int|
                        0 <= a < j ==> (#[trigger] entries@[a]).0@ != entries@[i as int].0@,
                decreases i - j,
            {
                if bytes_eq(&entries[j].0, &entries[i].0) {
                    proof {
                        assert(gram_pair_views(entries@)[j as int].0 == gram_pair_views(
                            entries@,
                        )[i as int].0);
                    }
                    return None;
                }
                j += 1;
            }
            i += 1;
        }
        let ix = NGramIndex { entries };
        proof {
            assert(forall|a: int, b: int|
                0 <= a < b < ix.entries@.len() ==> (#[trigger] ix.entries@[a]).0@ != (
                #[trigger] ix.entries@[b]).0@);
        }
        Some(ix)
    }
}

/// The set of distinct n-gram windows of `s`'s UTF-8 bytes.
pub open spec fn line_grams(s: Seq<char>) -> Set<Seq<u8>> {
    Set::new(
        |g: Seq<u8>|
            exists|k: int|
                0 <= k < ngram_windows(encode_utf8(s)).len() && #[trigger] ngram_windows(
                    encode_utf8(s),
                )[k] == g,
    )
}

/// The windows the line presented for index position `n` contributes:
/// none when the line is unavailable or blank, its distinct windows
/// otherwise.
pub open spec fn indexed_line_grams(oc: Option<Seq<char>>) -> Set<Seq<u8>> {
    match oc {
        None => Set::empty(),
        Some(s) => if all_whitespace(s) {
            Set::empty()
        } else {
            line_grams(s)
        },
    }
}

/// The postings list of `g` over the first `n` lines of an accessor:
/// every line number whose content contains the window, in ascending
/// order, each at most once however often the window repeats in a line.
pub open spec fn gram_postings<A: LineAccessor>(acc: &A, n: int, g: Seq<u8>) -> Seq<u32>
    decreases n,
{
    if n <= 0 {
        Seq::empty()
    } else {
        let prev = gram_postings(acc, n - 1, g);
        if indexed_line_grams(acc.line_at(n - 1)).contains(g) {
            prev.push((n - 1) as u32)
        } else {
            prev
        }
    }
}

/// A window's postings list never repeats a line number, however many
/// positions of the line hold the window. The list is strictly
/// increasing, every line number on it is in range and its line truly
/// contains the window, and every line containing the window is on it.
pub proof fn lemma_gram_postings_strictly_increasing<A: LineAccessor>(acc: &A, n: int, g: Seq<u8>)
    requires
        n <= u32::MAX + 1,
    ensures
        forall|k1: int, k2: int|
            0 <= k1 < k2 < gram_postings(acc, n, g).len() ==> #[trigger] gram_postings(
                acc,
                n,
                g,
            )[k1] < #[trigger] gram_postings(acc, n, g)[k2],
        forall|k: int|
            0 <= k < gram_postings(acc, n, g).len() ==> #[trigger] gram_postings(acc, n, g)[k] < n
                && indexed_line_grams(acc.line_at(gram_postings(acc, n, g)[k] as int)).contains(g),
        forall|i: int|
            0 <= i < n && indexed_line_grams(#[trigger] acc.line_at(i)).contains(g)
                ==> gram_postings(acc, n, g).contains(i as u32),
    decreases n,
{
    if n > 0 {
        lemma_gram_postings_strictly_increasing(acc, n - 1, g);
        let prev = gram_postings(acc, n - 1, g);
        let cur = gram_postings(acc, n, g);
        assert forall|i: int|
            0 <= i < n && indexed_line_grams(#[trigger] acc.line_at(i)).contains(g) implies cur.contains(
            i as u32,
        ) by {
            if i < n - 1 {
                let k = choose|k: int| 0 <= k < prev.len() && prev[k] == i as u32;
                assert(cur[k] == i as u32);
            } else {
                assert(cur.last() == i as u32);
            }
        }
    }
}

/// The set of byte strings a vector of windows holds.
pub open spec fn gram_views_of(gs: Seq<Vec<u8>>) -> Set<Seq<u8>> {
    Set::new(|g: Seq<u8>| exists|i: int| 0 <= i < gs.len() && (#[trigger] gs[i])@ == g)
}

/// No two windows of the vector read the same.
pub open spec fn distinct_gram_views(gs: Seq<Vec<u8>>) -> bool {
    forall|i: int, j: int| 0 <= i < j < gs.len() ==> (#[trigger] gs[i])@ != (#[trigger] gs[j])@
}

/// Keep one copy of each distinct window.
fn dedup_grams(grams: Vec<Vec<u8>>) -> (r: Vec<Vec<u8>>)
    ensures
        distinct_gram_views(r@),
        gram_views_of(r@) == gram_views_of(grams@),
{
    let n = grams.len();
    let mut r: Vec<Vec<u8>> = Vec::new();
    let mut i: usize = 0;
    proof {
        assert(gram_views_of(r@) =~= gram_views_of(grams@.take(0)));
    }
    while i < n
        invariant
            n == grams@.len(),
            i <= n,
            distinct_gram_views(r@),
            gram_views_of(r@) == gram_views_of(grams@.take(i as int)),
        decreases n - i,
    {
        let g = clone_bytes(&grams[i]);
        insert_unique_gram(&mut r, g);
        proof {
            assert forall|u: Seq<u8>| gram_views_of(grams@.take(i + 1)).contains(u) implies gram_views_of(
                grams@.take(i as int),
            ).insert(grams@[i as int]@).contains(u) by {
                let k = choose|k: int|
                    0 <= k < i + 1 && (#[trigger] grams@.take(i + 1)[k])@ == u;
                if k < i {
                    assert(grams@.take(i as int)[k]@ == u);
                }
            }
            assert forall|u: Seq<u8>|
                gram_views_of(grams@.take(i as int)).insert(grams@[i as int]@).contains(
                    u,
                ) implies gram_views_of(grams@.take(i + 1)).contains(u) by {
                if u == grams@[i as int]@ {
                    assert(grams@.take(i + 1)[i as int]@ == u);
                } else {
                    let k = choose|k: int|
                        0 <= k < i && (#[trigger] grams@.take(i as int)[k])@ == u;
                    assert(grams@.take(i + 1)[k]@ == u);
                }
            }
            assert(gram_views_of(r@) =~= gram_views_of(grams@.take(i + 1)));
        }
        i += 1;
    }
    proof {
        assert(grams@.take(n as int) =~= grams@);
    }
    r
}

/// Append `g` unless an equal window is already present.
fn insert_unique_gram(grams: &mut Vec<Vec<u8>>, g: Vec<u8>)
    requires
        distinct_gram_views(old(grams)@),
    ensures
        distinct_gram_views(final(grams)@),
        gram_views_of(final(grams)@) == gram_views_of(old(grams)@).insert(g@),
{
    let n = grams.len();
    let mut i: usize = 0;
    while i < n
        invariant
            grams@ == old(grams)@,
            distinct_gram_views(grams@),
            n == grams@.len(),
            i <= n,
            forall|k: int| 0 <= k < i ==> (#[trigger] grams@[k])@ != g@,
        decreases n - i,
    {
        if bytes_eq(&grams[i], &g) {
            proof {
                assert(gram_views_of(grams@) =~= gram_views_of(grams@).insert(g@));
            }
            return ;
        }
        i += 1;
    }
    grams.push(g);
    proof {
        let pre = old(grams)@;
        assert(forall|k: int| 0 <= k < pre.len() ==> grams@[k] == pre[k]);
        assert forall|u: Seq<u8>| gram_views_of(pre).insert(g@).contains(u) implies gram_views_of(
            grams@,
        ).contains(u) by {
            if u == g@ {
                assert(grams@[pre.len() as int]@ == u);
            } else {
                let k = choose|k: int| 0 <= k < pre.len() && (#[trigger] pre[k])@ == u;
                assert(grams@[k]@ == u);
            }
        }
        assert forall|u: Seq<u8>| gram_views_of(grams@).contains(u) implies gram_views_of(
            pre,
        ).insert(g@).contains(u) by {
            let k = choose|k: int| 0 <= k < grams@.len() && (#[trigger] grams@[k])@ == u;
            if k < pre.len() {
                assert(pre[k]@ == u);
            }
        }
        assert(gram_views_of(grams@) =~= gram_views_of(pre).insert(g@));
    }
}

/// Build the n-gram index over lines `0 .. total_lines`, reading each
/// through the accessor: every distinct window of every available,
/// non-blank line is recorded under the line's number; unavailable and
/// blank lines contribute nothing. The result maps exactly the windows
/// with a non-empty postings list, each to its full, ascending,
/// duplicate-free postings list.
pub fn build_ngram_index<A: LineAccessor>(total_lines: usize, accessor: &A) -> (r: Result<
    NGramIndex,
    String,
>)
    requires
        total_lines <= u32::MAX,
    ensures
        r is Ok,
        (r->Ok_0).wf(),
        forall|g: Seq<u8>|
            gram_postings_in((r->Ok_0)@, g) == gram_postings(accessor, total_lines as int, g),
        forall|g: Seq<u8>| (r->Ok_0)@.contains_key(g) ==> (r->Ok_0)@[g].len() > 0,
{
    let mut idx = NGramIndex::new();
    let mut i: usize = 0;
    proof {
        assert forall|g: Seq<u8>| gram_postings_in(idx@, g) == gram_postings(accessor, 0, g) by {
            assert(!idx@.contains_key(g));
        }
    }
    while i < total_lines
        invariant
            idx.wf(),
            i <= total_lines <= u32::MAX,
            forall|g: Seq<u8>| gram_postings_in(idx@, g) == gram_postings(accessor, i as int, g),
        decreases total_lines - i,
    {
        let line = accessor.get_line(i as u32);
        match line {
            Some(content) => {
                if !is_blank_line(content.as_str()) {
                    let windows = generate_ngrams_from_line(content.as_str());
                    proof {
                        assert forall|u: Seq<u8>| gram_views_of(windows@).contains(u) implies line_grams(
                            content@,
                        ).contains(u) by {
                            let k = choose|k: int|
                                0 <= k < windows@.len() && (#[trigger] windows@[k])@ == u;
                            assert(ngram_windows(encode_utf8(content@))[k] == u);
                        }
                        assert forall|u: Seq<u8>| line_grams(content@).contains(u) implies gram_views_of(
                            windows@,
                        ).contains(u) by {
                            let k = choose|k: int|
                                0 <= k < ngram_windows(encode_utf8(content@)).len()
                                    && #[trigger] ngram_windows(encode_utf8(content@))[k] == u;
                            assert(windows@[k]@ == u);
                        }
                        assert(gram_views_of(windows@) =~= line_grams(content@));
                    }
                    let distinct = dedup_grams(windows);
                    index_line_grams(&mut idx, &distinct, i as u32);
                    proof {
                        lemma_gram_line_step(
                            idx@,
                            accessor,
                            i as int,
                            indexed_line_grams(accessor.line_at(i as int)),
                        );
                    }
                } else {
                    proof {
                        lemma_gram_line_step(idx@, accessor, i as int, Set::empty());
                    }
                }
            },
            None => {
                proof {
                    lemma_gram_line_step(idx@, accessor, i as int, Set::empty());
                }
            },
        }
        i += 1;
    }
    proof {
        idx.lemma_wf_values_nonempty();
    }
    Ok(idx)
}

/// Record line `line` under every window of `grams` (which holds each
/// of the line's windows once): each such window's postings grow by
/// `line`, all other postings stay.
fn index_line_grams(idx: &mut NGramIndex, grams: &Vec<Vec<u8>>, line: u32)
    requires
        old(idx).wf(),
        distinct_gram_views(grams@),
    ensures
        final(idx).wf(),
        forall|g: Seq<u8>|
            gram_views_of(grams@).contains(g) ==> gram_postings_in(final(idx)@, g)
                == gram_postings_in(old(idx)@, g).push(line),
        forall|g: Seq<u8>|
            !gram_views_of(grams@).contains(g) ==> gram_postings_in(final(idx)@, g)
                == gram_postings_in(old(idx)@, g),
{
    let m = grams.len();
    let mut j: usize = 0;
    while j < m
        invariant
            idx.wf(),
            m == grams@.len(),
            j <= m,
            distinct_gram_views(grams@),
            forall|g: Seq<u8>|
                gram_views_of(grams@.take(j as int)).contains(g) ==> gram_postings_in(idx@, g)
                    == gram_postings_in(old(idx)@, g).push(line),
            forall|g: Seq<u8>|
                !gram_views_of(grams@.take(j as int)).contains(g) ==> gram_postings_in(idx@, g)
                    == gram_postings_in(old(idx)@, g),
        decreases m - j,
    {
        proof {
            // The window about to be recorded is none of those already done.
            assert(!gram_views_of(grams@.take(j as int)).contains(grams@[j as int]@)) by {
                if gram_views_of(grams@.take(j as int)).contains(grams@[j as int]@) {
                    let k = choose|k: int|
                        0 <= k < j && (#[trigger] grams@.take(j as int)[k])@ == grams@[j as int]@;
                }
            }
        }
        let ghost mid = idx@;
        idx.append_posting(&grams[j], line);
        proof {
            let gj = grams@[j as int]@;
            assert(idx@ == mid.insert(gj, gram_postings_in(mid, gj).push(line)));
            assert(gram_postings_in(mid, gj) == gram_postings_in(old(idx)@, gj));
            assert forall|g: Seq<u8>|
                gram_views_of(grams@.take(j + 1)).contains(g) implies gram_postings_in(idx@, g)
                == gram_postings_in(old(idx)@, g).push(line) by {
                let k = choose|k: int|
                    0 <= k < j + 1 && (#[trigger] grams@.take(j + 1)[k])@ == g;
                if k < j {
                    assert(grams@.take(j as int)[k]@ == g);
                    assert(gram_views_of(grams@.take(j as int)).contains(g));
                    assert(grams@[k]@ == g && grams@[k]@ != gj);
                    assert(gram_postings_in(idx@, g) == gram_postings_in(mid, g));
                } else {
                    assert(g == gj);
                }
            }
            assert forall|g: Seq<u8>|
                !gram_views_of(grams@.take(j + 1)).contains(g) implies gram_postings_in(idx@, g)
                == gram_postings_in(old(idx)@, g) by {
                assert(grams@.take(j + 1)[j as int]@ == grams@[j as int]@);
                assert(g != grams@[j as int]@);
                assert forall|k: int| 0 <= k < j implies (#[trigger] grams@.take(j as int)[k])@
                    != g by {
                    assert(grams@.take(j + 1)[k]@ == grams@.take(j as int)[k]@);
                }
                assert(!gram_views_of(grams@.take(j as int)).contains(g));
            }
        }
        j += 1;
    }
    proof {
        assert(grams@.take(m as int) =~= grams@);
    }
}

/// Advancing the postings specification over line `i` whose window set
/// is `gs`: windows of `gs` gain the line, all others stay.
proof fn lemma_gram_line_step<A: LineAccessor>(
    m: Map<Seq<u8>, Seq<u32>>,
    acc: &A,
    i: int,
    gs: Set<Seq<u8>>,
)
    requires
        0 <= i,
        gs == indexed_line_grams(acc.line_at(i)),
        forall|g: Seq<u8>|
            gs.contains(g) ==> gram_postings_in(m, g) == gram_postings(acc, i, g).push(i as u32),
        forall|g: Seq<u8>| !gs.contains(g) ==> gram_postings_in(m, g) == gram_postings(acc, i, g),
    ensures
        forall|g: Seq<u8>| gram_postings_in(m, g) == gram_postings(acc, i + 1, g),
{
}

/// Compare two byte strings.
fn bytes_eq(a: &Vec<u8>, b: &Vec<u8>) -> (r: bool)
    ensures
        r == (a@ == b@),
{
    let n = a.len();
    if n != b.len() {
        proof {
            assert(a@ != b@);
        }
        return false;
    }
    let mut i: usize = 0;
    while i < n
        invariant
            n == a@.len() == b@.len(),
            i <= n,
            forall|k: int| 0 <= k < i ==> a@[k] == b@[k],
        decreases n - i,
    {
        if a[i] != b[i] {
            return false;
        }
        i += 1;
    }
    proof {
        assert(a@ =~= b@);
    }
    true
}

/// Copy a byte string.
fn clone_bytes(v: &Vec<u8>) -> (r: Vec<u8>)
    ensures
        r@ == v@,
{
    let n = v.len();
    let mut r: Vec<u8> = Vec::new();
    let mut i: usize = 0;
    while i < n
        invariant
            n == v@.len(),
            i <= n,
            r@ == v@.take(i as int),
        decreases n - i,
    {
        r.push(v[i]);
        proof {
            assert(r@ =~= v@.take(i + 1));
        }
        i += 1;
    }
    proof {
        assert(v@.take(n as int) =~= v@);
    }
    r
}

/// Copy a postings list.
fn clone_postings(v: &Vec<u32>) -> (r: Vec<u32>)
    ensures
        r@ == v@,
{
    let n = v.len();
    let mut r: Vec<u32> = Vec::new();
    let mut i: usize = 0;
    while i < n
        invariant
            n == v@.len(),
            i <= n,
            r@ == v@.take(i as int),
        decreases n - i,
    {
        r.push(v[i]);
        proof {
            assert(r@ =~= v@.take(i + 1));
        }
        i += 1;
    }
    proof {
        assert(v@.take(n as int) =~= v@);
    }
    r
}

/// A key held by some entry is in the map, with that entry's postings.
proof fn lemma_map_of_gram_entries_lookup(es: Seq<(NGram, Vec<u32>)>, i: int)
    requires
        gram_keys_distinct(es),
        0 <= i < es.len(),
    ensures
        map_of_gram_entries(es).contains_key(es[i].0@),
        map_of_gram_entries(es)[es[i].0@] == es[i].1@,
    decreases es.len(),
{
    if i < es.len() - 1 {
        assert(forall|k: int| 0 <= k < es.len() - 1 ==> es.drop_last()[k] == es[k]);
        lemma_map_of_gram_entries_lookup(es.drop_last(), i);
    }
}

/// A key no entry holds is not in the map.
proof fn lemma_map_of_gram_entries_absent(es: Seq<(NGram, Vec<u32>)>, g: Seq<u8>)
    requires
        forall|k: int| 0 <= k < es.len() ==> (#[trigger] es[k]).0@ != g,
    ensures
        !map_of_gram_entries(es).contains_key(g),
    decreases es.len(),
{
    if es.len() > 0 {
        assert(forall|k: int| 0 <= k < es.len() - 1 ==> es.drop_last()[k] == es[k]);
        lemma_map_of_gram_entries_absent(es.drop_last(), g);
    }
}

/// Replacing entry `i` by one with the same key updates exactly that
/// key's postings.
proof fn lemma_map_of_gram_entries_update(es: Seq<(NGram, Vec<u32>)>, i: int, e: (NGram, Vec<u32>))
    requires
        gram_keys_distinct(es),
        0 <= i < es.len(),
        e.0@ == es[i].0@,
    ensures
        gram_keys_distinct(es.update(i, e)),
        map_of_gram_entries(es.update(i, e)) == map_of_gram_entries(es).insert(e.0@, e.1@),
    decreases es.len(),
{
    let up = es.update(i, e);
    assert(forall|k: int| 0 <= k < es.len() && k != i ==> up[k] == es[k]);
    if i == es.len() - 1 {
        assert(up.drop_last() =~= es.drop_last());
        assert(map_of_gram_entries(up) =~= map_of_gram_entries(es).insert(e.0@, e.1@));
    } else {
        assert(up.drop_last() =~= es.drop_last().update(i, e));
        assert(forall|k: int| 0 <= k < es.len() - 1 ==> es.drop_last()[k] == es[k]);
        lemma_map_of_gram_entries_update(es.drop_last(), i, e);
        assert(up.last() == es.last());
        // The two inserted keys differ, so the inserts commute.
        assert(es.last().0@ != e.0@);
        assert(map_of_gram_entries(up) =~= map_of_gram_entries(es).insert(e.0@, e.1@));
    }
}

/// Every value of the map is some entry's postings list.
proof fn lemma_map_of_gram_entries_values(es: Seq<(NGram, Vec<u32>)>)
    requires
        forall|i: int| 0 <= i < es.len() ==> (#[trigger] es[i]).1@.len() > 0,
    ensures
        forall|g: Seq<u8>|
            map_of_gram_entries(es).contains_key(g) ==> map_of_gram_entries(es)[g].len() > 0,
    decreases es.len(),
{
    if es.len() > 0 {
        assert(forall|k: int| 0 <= k < es.len() - 1 ==> es.drop_last()[k] == es[k]);
        lemma_map_of_gram_entries_values(es.drop_last());
        assert(es.last() == es[es.len() - 1]);
        assert(es.last().1@.len() > 0);
        assert forall|g: Seq<u8>| map_of_gram_entries(es).contains_key(g) implies map_of_gram_entries(
            es,
        )[g].len() > 0 by {
            if g == es.last().0@ {
                assert(map_of_gram_entries(es)[g] == es.last().1@);
            } else {
                assert(map_of_gram_entries(es.drop_last()).contains_key(g));
            }
        }
    }
}

} // verus!
