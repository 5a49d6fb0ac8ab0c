//! The inverted index: a mapping from lowercase term to the ordered,
//! duplicate-free list of line numbers containing that term, and its
//! builder, which walks every line through a line-content accessor.

use vstd::prelude::*;
use crate::line_access::{all_whitespace, is_blank_line, LineAccessor};
use crate::token_utils::{line_terms, tokenize_json_line, views_of, distinct_views};

verus! {

/// The mapping an association list of (term, postings) entries denotes.
pub open spec fn map_of_entries(es: Seq<(String, Vec<u32>)>) -> Map<Seq<char>, Seq<u32>>
    decreases es.len(),
{
    if es.len() == 0 {
        Map::empty()
    } else {
        map_of_entries(es.drop_last()).insert(es.last().0@, es.last().1@)
    }
}

/// No two entries share a key.
pub open spec fn entry_keys_distinct(es: Seq<(String, Vec<u32>)>) -> bool {
    forall|i: int, j: int|
        0 <= i < j < es.len() ==> (#[trigger] es[i]).0@ != (#[trigger] es[j]).0@
}

/// Mapping from term to ordered, duplicate-free postings list: which
/// lines contain the term. Entries are held as an association list
/// with pairwise-distinct keys.
pub struct InvertedIndex {
    entries: Vec<(String, Vec<u32>)>,
}

/// The postings a map holds for `t`: its entry, or none at all.
pub open spec fn postings_in(m: Map<Seq<char>, Seq<u32>>, t: Seq<char>) -> Seq<u32> {
    if m.contains_key(t) {
        m[t]
    } else {
        Seq::empty()
    }
}

impl View for InvertedIndex {
    type V = Map<Seq<char>, Seq<u32>>;

    closed spec fn view(&self) -> Map<Seq<char>, Seq<u32>> {
        map_of_entries(self.entries@)
    }
}

impl InvertedIndex {
    pub closed spec fn wf(&self) -> bool {
        &&& entry_keys_distinct(self.entries@)
        &&& forall|i: int|
            0 <= i < self.entries@.len() ==> (#[trigger] self.entries@[i]).1@.len() > 0
    }

    pub fn new() -> (r: Self)
        ensures
            r.wf(),
            r@ == Map::<Seq<char>, Seq<u32>>::empty(),
    {
        InvertedIndex { entries: Vec::new() }
    }

    /// A well-formed index maps no term to an empty postings list.
    pub proof fn lemma_wf_values_nonempty(&self)
        requires
            self.wf(),
        ensures
            forall|t: Seq<char>| self@.contains_key(t) ==> self@[t].len() > 0,
    {
        lemma_map_of_entries_values(self.entries@);
    }

    /// How many distinct terms the index holds.
    pub fn term_count(&self) -> (n: usize)
        requires
            self.wf(),
        ensures
            n == self@.dom().len(),
    {
        proof {
            lemma_map_of_entries_len(self.entries@);
        }
        self.entries.len()
    }

    /// The postings list recorded for `term`, if the term is indexed.
    pub fn postings(&self, term: &String) -> (r: Option<&Vec<u32>>)
        requires
            self.wf(),
        ensures
            match r {
                Some(pl) => self@.contains_key(term@) && pl@ == self@[term@],
                None => !self@.contains_key(term@),
            },
    {
        let n = self.entries.len();
        let mut i: usize = 0;
        while i < n
            invariant
                self.wf(),
                n == self.entries@.len(),
                i <= n,
                forall|k: int| 0 <= k < i ==> (#[trigger] self.entries@[k]).0@ != term@,
            decreases n - i,
        {
            if self.entries[i].0 == *term {
                proof {
                    lemma_map_of_entries_lookup(self.entries@, i as int);
                }
                return Some(&self.entries[i].1);
            }
            i += 1;
        }
        proof {
            lemma_map_of_entries_absent(self.entries@, term@);
        }
        None
    }

    /// Record line `line` under `term`: its postings grow by one at the
    /// end, every other term's postings stay as they were.
    fn append_posting(&mut self, term: &String, line: u32)
        requires
            old(self).wf(),
        ensures
            final(self).wf(),
            final(self)@ == old(self)@.insert(
                term@,
                postings_in(old(self)@, term@).push(line),
            ),
    {
        let n = self.entries.len();
        let mut i: usize = 0;
        while i < n
            invariant
                self.wf(),
                self.entries@ == old(self).entries@,
                n == self.entries@.len(),
                i <= n,
                forall|k: int| 0 <= k < i ==> (#[trigger] self.entries@[k]).0@ != term@,
            decreases n - i,
        {
            if self.entries[i].0 == *term {
                let key = self.entries[i].0.clone();
                let mut pl = clone_postings(&self.entries[i].1);
                pl.push(line);
                proof {
                    lemma_map_of_entries_lookup(self.entries@, i as int);
                }
                let ghost before = self.entries@;
                self.entries.set(i, (key, pl));
                proof {
                    lemma_map_of_entries_update(before, i as int, self.entries@[i as int]);
                }
                return ;
            }
            i += 1;
        }
        let mut pl: Vec<u32> = Vec::new();
        pl.push(line);
        let ghost before = self.entries@;
        self.entries.push((term.clone(), pl));
        proof {
            lemma_map_of_entries_absent(before, term@);
            assert(self.entries@.drop_last() =~= before);
            assert(postings_in(map_of_entries(before), term@).push(line) =~= pl@);
            assert(forall|k: int| 0 <= k < before.len() ==> self.entries@[k] == before[k]);
        }
    }
}

/// Copy a postings list.
fn clone_postings(v: &Vec<u32>) -> (r: Vec<u32>)
    ensures
        r@ == v@,
{
    let n = v.len();
    let mut r: Vec<u32> = Vec::new();
    let mut i: usize = 0;
    while i < n
        invariant
            n == v@.len(),
            i <= n,
            r@ == v@.take(i as int),
        decreases n - i,
    {
        r.push(v[i]);
        proof {
            assert(r@ =~= v@.take(i + 1));
        }
        i += 1;
    }
    proof {
        assert(v@.take(n as int) =~= v@);
    }
    r
}

/// A key held by some entry is in the map, with that entry's postings.
proof fn lemma_map_of_entries_lookup(es: Seq<(String, Vec<u32>)>, i: int)
    requires
        entry_keys_distinct(es),
        0 <= i < es.len(),
    ensures
        map_of_entries(es).contains_key(es[i].0@),
        map_of_entries(es)[es[i].0@] == es[i].1@,
    decreases es.len(),
{
    if i < es.len() - 1 {
        assert(forall|k: int| 0 <= k < es.len() - 1 ==> es.drop_last()[k] == es[k]);
        lemma_map_of_entries_lookup(es.drop_last(), i);
    }
}

/// A key no entry holds is not in the map.
proof fn lemma_map_of_entries_absent(es: Seq<(String, Vec<u32>)>, t: Seq<char>)
    requires
        forall|k: int| 0 <= k < es.len() ==> (#[trigger] es[k]).0@ != t,
    ensures
        !map_of_entries(es).contains_key(t),
    decreases es.len(),
{
    if es.len() > 0 {
        assert(forall|k: int| 0 <= k < es.len() - 1 ==> es.drop_last()[k] == es[k]);
        lemma_map_of_entries_absent(es.drop_last(), t);
    }
}

/// Replacing entry `i` by one with the same key updates exactly that
/// key's postings.
proof fn lemma_map_of_entries_update(es: Seq<(String, Vec<u32>)>, i: int, e: (String, Vec<u32>))
    requires
        entry_keys_distinct(es),
        0 <= i < es.len(),
        e.0@ == es[i].0@,
    ensures
        entry_keys_distinct(es.update(i, e)),
        map_of_entries(es.update(i, e)) == map_of_entries(es).insert(e.0@, e.1@),
    decreases es.len(),
{
    let up = es.update(i, e);
    assert(forall|k: int| 0 <= k < es.len() && k != i ==> up[k] == es[k]);
    if i == es.len() - 1 {
        assert(up.drop_last() =~= es.drop_last());
        assert(map_of_entries(up) =~= map_of_entries(es).insert(e.0@, e.1@));
    } else {
        assert(up.drop_last() =~= es.drop_last().update(i, e));
        assert(forall|k: int| 0 <= k < es.len() - 1 ==> es.drop_last()[k] == es[k]);
        lemma_map_of_entries_update(es.drop_last(), i, e);
        assert(up.last() == es.last());
        // The two inserted keys differ, so the inserts commute.
        assert(es.last().0@ != e.0@);
        assert(map_of_entries(up) =~= map_of_entries(es).insert(e.0@, e.1@));
    }
}

/// The key/postings views of an association list.
pub open spec fn pair_views(es: Seq<(String, Vec<u32>)>) -> Seq<(Seq<char>, Seq<u32>)> {
    Seq::new(es.len(), |i: int| (es[i].0@, es[i].1@))
}

/// The mapping a sequence of key/postings pairs denotes.
pub open spec fn map_of_pairs(ps: Seq<(Seq<char>, Seq<u32>)>) -> Map<Seq<char>, Seq<u32>>
    decreases ps.len(),
{
    if ps.len() == 0 {
        Map::empty()
    } else {
        map_of_pairs(ps.drop_last()).insert(ps.last().0, ps.last().1)
    }
}

/// Distinct keys and no empty postings list: what a well-formed index
/// guarantees of its entries, stated of their views.
pub open spec fn pairs_wf(ps: Seq<(Seq<char>, Seq<u32>)>) -> bool {
    &&& (forall|i: int, j: int| 0 <= i < j < ps.len() ==> (#[trigger] ps[i]).0 != (#[trigger] ps[j]).0)
    &&& (forall|i: int| 0 <= i < ps.len() ==> (#[trigger] ps[i]).1.len() > 0)
}

proof fn lemma_map_of_pairs_agrees(es: Seq<(String, Vec<u32>)>)
    ensures
        map_of_pairs(pair_views(es)) == map_of_entries(es),
    decreases es.len(),
{
    if es.len() > 0 {
        assert(pair_views(es).drop_last() =~= pair_views(es.drop_last()));
        lemma_map_of_pairs_agrees(es.drop_last());
    }
}

impl InvertedIndex {
    /// The views of the index's entries, in their held order.
    pub closed spec fn entry_views(&self) -> Seq<(Seq<char>, Seq<u32>)> {
        pair_views(self.entries@)
    }

    /// A well-formed index's entries have distinct keys and no empty
    /// postings list, and they spell out exactly the index's mapping.
    pub proof fn lemma_entry_views(&self)
        requires
            self.wf(),
        ensures
            pairs_wf(self.entry_views()),
            map_of_pairs(self.entry_views()) == self@,
    {
        lemma_map_of_pairs_agrees(self.entries@);
    }

    /// How many entries the index holds.
    pub fn entry_count(&self) -> (n: usize)
        ensures
            n == self.entry_views().len(),
    {
        self.entries.len()
    }

    /// The key and postings list of entry `i`.
    pub fn entry_at(&self, i: usize) -> (e: (&String, &Vec<u32>))
        requires
            i < self.entry_views().len(),
        ensures
            e.0@ == self.entry_views()[i as int].0,
            e.1@ == self.entry_views()[i as int].1,
    {
        (&self.entries[i].0, &self.entries[i].1)
    }

    /// Rebuild an index from plain entries, as read back from a cache
    /// artifact: accepted exactly when the keys are pairwise distinct
    /// and no postings list is empty.
    pub fn from_entries(entries: Vec<(String, Vec<u32>)>) -> (r: Option<InvertedIndex>)
        ensures
            match r {
                Some(ix) => ix.wf() && ix.entry_views() == pair_views(entries@),
                None => !pairs_wf(pair_views(entries@)),
            },
    {
        let n = entries.len();
        let mut i: usize = 0;
        while i < n
            invariant
                n == entries@.len(),
                i <= n,
                forall|a: int, b: int|
                    0 <= a < b < entries@.len() && b < i ==> (#[trigger] entries@[a]).0@ != (
                    #[trigger] entries@[b]).0@,
                forall|a: int| 0 <= a < i ==> (#[trigger] entries@[a]).1@.len() > 0,
            decreases n - i,
        {
            if entries[i].1.len() == 0 {
                proof {
                    assert(pair_views(entries@)[i as int].1.len() == 0);
                }
                return None;
            }
            let mut j: usize = 0;
            while j < i
                invariant
                    n == entries@.len(),
                    j <= i < n,
                    forall|a: int| 0 <= a < j ==> (#[trigger] entries@[a]).0@ != entries@[i as int].0@,
                decreases i - j,
            {
                if entries[j].0 == entries[i].0 {
                    proof {
                        assert(pair_views(entries@)[j as int].0 == pair_views(
                            entries@,
                        )[i as int].0);
                    }
                    return None;
                }
                j += 1;
            }
            i += 1;
        }
        let ix = InvertedIndex { entries };
        proof {
            assert(forall|a: int, b: int|
                0 <= a < b < ix.entries@.len() ==> (#[trigger] ix.entries@[a]).0@ != (
                #[trigger] ix.entries@[b]).0@);
        }
        Some(ix)
    }
}

/// The terms the line presented for index position `n` contributes:
/// none when the line is unavailable or blank, its JSON terms otherwise.
pub open spec fn indexed_line_terms(oc: Option<Seq<char>>) -> Set<Seq<char>> {
    match oc {
        None => Set::empty(),
        Some(s) => if all_whitespace(s) {
            Set::empty()
        } else {
            line_terms(s)
        },
    }
}

/// The postings list of `t` over the first `n` lines of an accessor:
/// every line number whose content contributes `t`, in ascending order.
pub open spec fn term_postings<A: LineAccessor>(acc: &A, n: int, t: Seq<char>) -> Seq<u32>
    decreases n,
{
    if n <= 0 {
        Seq::empty()
    } else {
        let prev = term_postings(acc, n - 1, t);
        if indexed_line_terms(acc.line_at(n - 1)).contains(t) {
            prev.push((n - 1) as u32)
        } else {
            prev
        }
    }
}

/// A term's postings list never repeats a line number: whatever a line
/// contributes, it contributes once. The list is strictly increasing,
/// every line number on it is in range and its line truly contains the
/// term, and every line containing the term is on it.
pub proof fn lemma_term_postings_strictly_increasing<A: LineAccessor>(acc: &A, n: int, t: Seq<char>)
    requires
        n <= u32::MAX + 1,
    ensures
        forall|k1: int, k2: int|
            0 <= k1 < k2 < term_postings(acc, n, t).len() ==> #[trigger] term_postings(
                acc,
                n,
                t,
            )[k1] < #[trigger] term_postings(acc, n, t)[k2],
        forall|k: int|
            0 <= k < term_postings(acc, n, t).len() ==> #[trigger] term_postings(acc, n, t)[k] < n
                && indexed_line_terms(acc.line_at(term_postings(acc, n, t)[k] as int)).contains(t),
        forall|i: int|
            0 <= i < n && indexed_line_terms(#[trigger] acc.line_at(i)).contains(t)
                ==> term_postings(acc, n, t).contains(i as u32),
    decreases n,
{
    if n > 0 {
        lemma_term_postings_strictly_increasing(acc, n - 1, t);
        let prev = term_postings(acc, n - 1, t);
        let cur = term_postings(acc, n, t);
        assert forall|i: int|
            0 <= i < n && indexed_line_terms(#[trigger] acc.line_at(i)).contains(t) implies cur.contains(
            i as u32,
        ) by {
            if i < n - 1 {
                let k = choose|k: int| 0 <= k < prev.len() && prev[k] == i as u32;
                assert(cur[k] == i as u32);
            } else {
                assert(cur.last() == i as u32);
            }
        }
    }
}

/// Build the inverted index over lines `0 .. total_lines`, reading each
/// through the accessor: every term of every available, non-blank line
/// is recorded under the line's number; unavailable and blank lines,
/// and lines that are not valid JSON, contribute nothing. The result
/// maps exactly the terms with a non-empty postings list, each to its
/// full, ascending postings list.
pub fn build_inverted_index<A: LineAccessor>(total_lines: usize, accessor: &A) -> (r: Result<
    InvertedIndex,
    String,
>)
    requires
        total_lines <= u32::MAX,
    ensures
        r is Ok,
        (r->Ok_0).wf(),
        forall|t: Seq<char>|
            postings_in((r->Ok_0)@, t) == term_postings(accessor, total_lines as int, t),
        forall|t: Seq<char>| (r->Ok_0)@.contains_key(t) ==> (r->Ok_0)@[t].len() > 0,
{
    let mut idx = InvertedIndex::new();
    let mut i: usize = 0;
    proof {
        assert forall|t: Seq<char>| postings_in(idx@, t) == term_postings(accessor, 0, t) by {
            assert(!idx@.contains_key(t));
        }
    }
    while i < total_lines
        invariant
            idx.wf(),
            i <= total_lines <= u32::MAX,
            forall|t: Seq<char>| postings_in(idx@, t) == term_postings(accessor, i as int, t),
        decreases total_lines - i,
    {
        let line = accessor.get_line(i as u32);
        match line {
            Some(content) => {
                if !is_blank_line(content.as_str()) {
                    let terms = tokenize_json_line(content.as_str());
                    index_line_terms(&mut idx, &terms, i as u32);
                    proof {
                        lemma_line_step(
                            idx@,
                            accessor,
                            i as int,
                            indexed_line_terms(accessor.line_at(i as int)),
                        );
                    }
                } else {
                    proof {
                        lemma_line_step(idx@, accessor, i as int, Set::empty());
                    }
                }
            },
            None => {
                proof {
                    lemma_line_step(idx@, accessor, i as int, Set::empty());
                }
            },
        }
        i += 1;
    }
    proof {
        idx.lemma_wf_values_nonempty();
    }
    Ok(idx)
}

/// Record line `line` under every term of `terms` (which holds each of
/// the line's terms once): each such term's postings grow by `line`,
/// all other postings stay.
fn index_line_terms(idx: &mut InvertedIndex, terms: &Vec<String>, line: u32)
    requires
        old(idx).wf(),
        distinct_views(terms@),
    ensures
        final(idx).wf(),
        forall|t: Seq<char>|
            views_of(terms@).contains(t) ==> postings_in(final(idx)@, t) == postings_in(
                old(idx)@,
                t,
            ).push(line),
        forall|t: Seq<char>|
            !views_of(terms@).contains(t) ==> postings_in(final(idx)@, t) == postings_in(
                old(idx)@,
                t,
            ),
{
    let m = terms.len();
    let mut j: usize = 0;
    while j < m
        invariant
            idx.wf(),
            m == terms@.len(),
            j <= m,
            distinct_views(terms@),
            forall|t: Seq<char>|
                views_of(terms@.take(j as int)).contains(t) ==> postings_in(idx@, t)
                    == postings_in(old(idx)@, t).push(line),
            forall|t: Seq<char>|
                !views_of(terms@.take(j as int)).contains(t) ==> postings_in(idx@, t)
                    == postings_in(old(idx)@, t),
        decreases m - j,
    {
        proof {
            // The term about to be recorded is none of those already done.
            assert(!views_of(terms@.take(j as int)).contains(terms@[j as int]@)) by {
                if views_of(terms@.take(j as int)).contains(terms@[j as int]@) {
                    let k = choose|k: int|
                        0 <= k < j && (#[trigger] terms@.take(j as int)[k])@ == terms@[j as int]@;
                }
            }
        }
        let ghost mid = idx@;
        idx.append_posting(&terms[j], line);
        proof {
            let tj = terms@[j as int]@;
            assert(idx@ == mid.insert(tj, postings_in(mid, tj).push(line)));
            assert(postings_in(mid, tj) == postings_in(old(idx)@, tj));
            assert forall|t: Seq<char>|
                views_of(terms@.take(j + 1)).contains(t) implies postings_in(idx@, t)
                == postings_in(old(idx)@, t).push(line) by {
                let k = choose|k: int|
                    0 <= k < j + 1 && (#[trigger] terms@.take(j + 1)[k])@ == t;
                if k < j {
                    assert(terms@.take(j as int)[k]@ == t);
                    assert(views_of(terms@.take(j as int)).contains(t));
                    assert(terms@[k]@ == t && terms@[k]@ != tj);
                    assert(postings_in(idx@, t) == postings_in(mid, t));
                } else {
                    assert(t == tj);
                }
            }
            assert forall|t: Seq<char>|
                !views_of(terms@.take(j + 1)).contains(t) implies postings_in(idx@, t)
                == postings_in(old(idx)@, t) by {
                assert(terms@.take(j + 1)[j as int]@ == terms@[j as int]@);
                assert(t != terms@[j as int]@);
                assert forall|k: int| 0 <= k < j implies (#[trigger] terms@.take(j as int)[k])@
                    != t by {
                    assert(terms@.take(j + 1)[k]@ == terms@.take(j as int)[k]@);
                }
                assert(!views_of(terms@.take(j as int)).contains(t));
            }
        }
        j += 1;
    }
    proof {
        assert(terms@.take(m as int) =~= terms@);
    }
}

/// Advancing the postings specification over line `i` whose term set is
/// `ts`: terms of `ts` gain the line, all others stay.
proof fn lemma_line_step<A: LineAccessor>(
    m: Map<Seq<char>, Seq<u32>>,
    acc: &A,
    i: int,
    ts: Set<Seq<char>>,
)
    requires
        0 <= i,
        ts == indexed_line_terms(acc.line_at(i)),
        forall|t: Seq<char>|
            ts.contains(t) ==> postings_in(m, t) == term_postings(acc, i, t).push(i as u32),
        forall|t: Seq<char>| !ts.contains(t) ==> postings_in(m, t) == term_postings(acc, i, t),
    ensures
        forall|t: Seq<char>| postings_in(m, t) == term_postings(acc, i + 1, t),
{
}

/// Every value of the map is some entry's postings list.
proof fn lemma_map_of_entries_values(es: Seq<(String, Vec<u32>)>)
    requires
        forall|i: int| 0 <= i < es.len() ==> (#[trigger] es[i]).1@.len() > 0,
    ensures
        forall|t: Seq<char>|
            map_of_entries(es).contains_key(t) ==> map_of_entries(es)[t].len() > 0,
    decreases es.len(),
{
    if es.len() > 0 {
        assert(forall|k: int| 0 <= k < es.len() - 1 ==> es.drop_last()[k] == es[k]);
        lemma_map_of_entries_values(es.drop_last());
        assert(es.last() == es[es.len() - 1]);
        assert(es.last().1@.len() > 0);
        assert forall|t: Seq<char>| map_of_entries(es).contains_key(t) implies map_of_entries(
            es,
        )[t].len() > 0 by {
            if t == es.last().0@ {
                assert(map_of_entries(es)[t] == es.last().1@);
            } else {
                assert(map_of_entries(es.drop_last()).contains_key(t));
            }
        }
    }
}

/// Distinct keys make the map's domain as large as the entry list.
proof fn lemma_map_of_entries_len(es: Seq<(String, Vec<u32>)>)
    requires
        entry_keys_distinct(es),
    ensures
        map_of_entries(es).dom().finite(),
        map_of_entries(es).dom().len() == es.len(),
    decreases es.len(),
{
    if es.len() > 0 {
        assert(forall|k: int| 0 <= k < es.len() - 1 ==> es.drop_last()[k] == es[k]);
        lemma_map_of_entries_len(es.drop_last());
        lemma_map_of_entries_absent(es.drop_last(), es.last().0@);
        assert(map_of_entries(es).dom() =~= map_of_entries(es.drop_last()).dom().insert(
            es.last().0@,
        ));
    }
}

} // verus!
