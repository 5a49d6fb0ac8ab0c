//! The line-content accessor: the capability that resolves a line
//! number to decoded text. Index builders depend only on this trait, so
//! any storage mechanism — an in-memory table here, a seeking file
//! reader elsewhere — can feed them.

use vstd::prelude::*;
use crate::token_utils::whitespace;

verus! {

/// The character sequences an optional line holds.
pub open spec fn option_view(o: Option<String>) -> Option<Seq<char>> {
    match o {
        Some(s) => Some(s@),
        None => None,
    }
}

/// Resolves a line number to its decoded content. `None` uniformly
/// signals absence: a line number out of range, bytes that do not
/// decode, or a read that failed. Callers skip such lines.
pub trait LineAccessor {
    /// The content this accessor yields for line `n`, if any. An
    /// accessor written outside the verifier's reach may leave this at
    /// its default; nothing is then proved about what it serves.
    open spec fn line_at(&self, n: int) -> Option<Seq<char>> {
        None
    }

    /// Fetch line `n`, or `None` when it is unavailable.
    fn get_line(&self, n: u32) -> (r: Option<String>)
        ensures
            option_view(r) == self.line_at(n as int),
    ;
}

/// An accessor over lines already held in memory: line `n` is the
/// `n`-th string, and every line in range is available.
pub struct MemoryLines {
    pub lines: Vec<String>,
}

impl LineAccessor for MemoryLines {
    open spec fn line_at(&self, n: int) -> Option<Seq<char>> {
        if 0 <= n < self.lines@.len() {
            Some(self.lines@[n]@)
        } else {
            None
        }
    }

    fn get_line(&self, n: u32) -> (r: Option<String>) {
        if (n as usize) < self.lines.len() {
            Some(self.lines[n as usize].clone())
        } else {
            None
        }
    }
}

/// Whether every character of `s` is whitespace: such a line is
/// skipped by the index builders.
pub open spec fn all_whitespace(s: Seq<char>) -> bool {
    forall|i: int| 0 <= i < s.len() ==> whitespace(#[trigger] s[i])
}

/// Report whether the line consists of whitespace alone.
pub fn is_blank_line(s: &str) -> (r: bool)
    ensures
        r == all_whitespace(s@),
{
    let n = s.unicode_len();
    let mut i: usize = 0;
    while i < n
        invariant
            n == s@.len(),
            i <= n,
            forall|k: int| 0 <= k < i ==> whitespace(#[trigger] s@[k]),
        decreases n - i,
    {
        let c = s.get_char(i);
        if !c.is_whitespace() {
            return false;
        }
        i += 1;
    }
    true
}

} // verus!
