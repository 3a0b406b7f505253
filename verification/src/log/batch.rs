//! The batch rule: the first line of a batch of `n >= 2` events carries `"batch": n`, and
//! a reader that finds fewer than `n` consecutive lines with that `ts` and contiguous
//! `seq` after it has an incomplete batch, whose lines are neither served nor sent.

use vstd::prelude::*;
use std::ops::Range;

verus! {

/// What the rule reads of one line, in file order within one segment.
#[derive(Debug, Clone, PartialEq, Eq)]
pub struct Head {
    /// `seq`, or 0 for a line that has none.
    pub seq: u64,
    /// `ts` as written.
    pub ts: Option<String>,
    /// `batch`, on the first line of a batch of that many events.
    pub batch: Option<u64>,
}

/// A line's head as the rule sees it: `seq`, `ts`, `batch`.
pub struct HeadView {
    pub seq: u64,
    pub ts: Option<Seq<char>>,
    pub batch: Option<u64>,
}

impl View for Head {
    type V = HeadView;

    open spec fn view(&self) -> HeadView {
        HeadView {
            seq: self.seq,
            ts: match self.ts {
                Some(t) => Some(t@),
                None => None,
            },
            batch: self.batch,
        }
    }
}

/// How many lines a header announces, as a count of lines: 0 for a line that is not a
/// header (no `batch`, or a `batch` of 0 or 1), and `n` clamped to `usize` otherwise.
pub open spec fn announced(h: HeadView) -> int {
    match h.batch {
        Some(n) => if n >= 2 {
            if n > usize::MAX { usize::MAX as int } else { n as int }
        } else {
            0
        },
        None => 0,
    }
}

/// Whether line `at + k` continues the batch headed at `at`: not a header itself, the
/// same `ts`, and a `seq` `k` past the header's (modulo 2^64, as the writer wraps).
pub open spec fn continues(heads: Seq<HeadView>, at: int, k: int) -> bool {
    &&& heads[at + k].batch is None
    &&& heads[at + k].ts == heads[at].ts
    &&& heads[at + k].seq as int == (heads[at].seq + k) % 0x1_0000_0000_0000_0000
}

/// The number of lines found for the header at `at`, counting from `found` (the header
/// itself is 1): the longest run of continuing lines, up to `expected`.
pub open spec fn found_from(heads: Seq<HeadView>, at: int, found: int, expected: int) -> int
    decreases expected - found,
{
    if found < expected && at + found < heads.len() && continues(heads, at, found) {
        found_from(heads, at, found + 1, expected)
    } else {
        found
    }
}

/// The incomplete batches among `heads[at..]`, as `(start, end)` index pairs.
pub open spec fn incomplete_from(heads: Seq<HeadView>, at: int) -> Seq<(int, int)>
    decreases heads.len() - at,
{
    if at < 0 || at >= heads.len() {
        Seq::empty()
    } else if announced(heads[at]) == 0 {
        incomplete_from(heads, at + 1)
    } else {
        let expected = announced(heads[at]);
        let found = found_from(heads, at, 1, expected);
        proof {
            lemma_found_bounds(heads, at, 1, expected);
        }
        if found < expected {
            seq![(at, at + found)] + incomplete_from(heads, at + found)
        } else {
            incomplete_from(heads, at + found)
        }
    }
}

pub proof fn lemma_found_at_least(heads: Seq<HeadView>, at: int, found: int, expected: int)
    ensures
        found <= found_from(heads, at, found, expected),
    decreases expected - found,
{
    if found < expected && at + found < heads.len() && continues(heads, at, found) {
        lemma_found_at_least(heads, at, found + 1, expected);
    }
}

pub proof fn lemma_found_bounds(heads: Seq<HeadView>, at: int, found: int, expected: int)
    requires
        0 <= at < heads.len(),
        1 <= found,
        at + found <= heads.len(),
    ensures
        found <= found_from(heads, at, found, expected),
        at + found_from(heads, at, found, expected) <= heads.len(),
        found_from(heads, at, found, expected) <= if found <= expected { expected } else { found },
    decreases expected - found,
{
    if found < expected && at + found < heads.len() && continues(heads, at, found) {
        lemma_found_bounds(heads, at, found + 1, expected);
    }
}

/// The pairs of a list of ranges.
pub open spec fn pairs_of(ranges: Seq<Range<usize>>) -> Seq<(int, int)> {
    ranges.map_values(|r: Range<usize>| (r.start as int, r.end as int))
}

fn same_ts(a: &Option<String>, b: &Option<String>) -> (r: bool)
    ensures
        r == (match a {
            Some(t) => Some(t@),
            None => None::<Seq<char>>,
        } == match b {
            Some(t) => Some(t@),
            None => None::<Seq<char>>,
        }),
{
    match (a, b) {
        (Some(x), Some(y)) => <String as PartialEq>::eq(x, y),
        (None, None) => true,
        _ => false,
    }
}

/// The index ranges, within `heads`, of every incomplete batch: each starts at its header
/// line and covers the lines that did arrive. A `batch` of 0 or 1 is not a marker.
pub fn incomplete(heads: &[Head]) -> (out: Vec<Range<usize>>)
    ensures
        pairs_of(out@) == incomplete_from(heads@.map_values(|h: Head| h@), 0),
{
    let ghost hs = heads@.map_values(|h: Head| h@);
    let mut out: Vec<Range<usize>> = Vec::new();
    let mut at: usize = 0;
    while at < heads.len()
        invariant
            hs == heads@.map_values(|h: Head| h@),
            at <= heads.len(),
            pairs_of(out@) + incomplete_from(hs, at as int) == incomplete_from(hs, 0),
        decreases heads.len() - at,
    {
        let header = &heads[at];
        let expected: usize = match header.batch {
            Some(n) => if n >= 2 {
                if n > usize::MAX as u64 { usize::MAX } else { n as usize }
            } else {
                0
            },
            None => 0,
        };
        assert(expected as int == announced(hs[at as int]));
        if expected == 0 {
            at = at + 1;
            continue;
        }
        let mut found: usize = 1;
        while found < expected
            invariant
                hs == heads@.map_values(|h: Head| h@),
                at < heads.len(),
                1 <= found <= expected,
                at + found <= heads.len(),
                expected as int == announced(hs[at as int]),
                *header == heads@[at as int],
                found_from(hs, at as int, found as int, expected as int)
                    == found_from(hs, at as int, 1, expected as int),
            ensures
                1 <= found <= expected,
                at + found <= heads.len(),
                found_from(hs, at as int, found as int, expected as int) == found as int,
                found_from(hs, at as int, 1, expected as int) == found as int,
            decreases expected - found,
        {
            if at + found >= heads.len() {
                break;
            }
            let next = &heads[at + found];
            let contiguous = next.seq as u128 == (header.seq as u128 + found as u128)
                % 0x1_0000_0000_0000_0000u128;
            let same = same_ts(&next.ts, &header.ts);
            proof {
                assert(hs[at + found] == heads@[at + found]@);
                assert(hs[at as int] == heads@[at as int]@);
                assert(hs[at + found].batch == next.batch);
                assert(hs[at + found].ts == hs[at as int].ts <==> same);
                assert(hs[at + found].seq as int == (hs[at as int].seq + found) % 0x1_0000_0000_0000_0000 <==> contiguous);
                assert(continues(hs, at as int, found as int) <==> (next.batch is None && same
                    && contiguous));
            }
            if next.batch.is_some() || !same || !contiguous {
                break;
            }
            found = found + 1;
        }
        proof {
            lemma_found_bounds(hs, at as int, 1, expected as int);
        }
        let ghost before = out@;
        if found < expected {
            out.push(at..at + found);
            proof {
                assert(pairs_of(out@) == pairs_of(before) + seq![(at as int, (at + found) as int)]);
            }
        }
        at = at + found;
    }
    out
}

/// Whether index `i` falls inside any of `ranges`.
pub fn covered(ranges: &[Range<usize>], i: usize) -> (r: bool)
    ensures
        r == exists|k: int| 0 <= k < ranges@.len() && #[trigger] ranges@[k].start <= i < ranges@[k].end,
{
    let mut k: usize = 0;
    while k < ranges.len()
        invariant
            k <= ranges@.len(),
            forall|j: int| 0 <= j < k ==> !(#[trigger] ranges@[j].start <= i < ranges@[j].end),
        decreases ranges.len() - k,
    {
        if ranges[k].start <= i && i < ranges[k].end {
            return true;
        }
        k = k + 1;
    }
    false
}

} // verus!
