//! Cleaning assignments: pairs of inclusive ranges, and how they overlap.

use crate::text::{chars_of, parse_u32, split_at_first, split_once, unsigned_literal};
use vstd::prelude::*;
use vstd::string::StringExecFns;

verus! {

/// An inclusive range of section numbers.
#[derive(Clone, Copy, Debug, PartialEq, Eq, Structural)]
pub struct Range {
    pub start: u32,
    pub end: u32,
}

/// Why a text is no range.
#[derive(Debug)]
pub struct RangeInvalidErr {
    pub msg: String,
}

/// A number that fits in 32 bits, read from a decimal literal.
pub open spec fn bound_of(s: Seq<char>) -> Option<u32> {
    match unsigned_literal(s) {
        Some(n) => if n <= u32::MAX {
            Some(n as u32)
        } else {
            None
        },
        None => None,
    }
}

/// The range that two literals denote.
pub open spec fn range_of_parts(lhs: Seq<char>, rhs: Seq<char>) -> Option<Range> {
    match (bound_of(lhs), bound_of(rhs)) {
        (Some(start), Some(end)) => Some(Range { start, end }),
        _ => None,
    }
}

/// The range that a text of the form `start-end` denotes.
pub open spec fn range_of(s: Seq<char>) -> Option<Range> {
    match split_at_first(s, '-') {
        Some((lhs, rhs)) => range_of_parts(lhs, rhs),
        None => None,
    }
}

/// The two ranges of a line of the form `a-b,c-d`.
pub open spec fn rangepair_of(line: Seq<char>) -> Option<(Range, Range)> {
    match split_at_first(line, ',') {
        Some((lhs, rhs)) => match (range_of(lhs), range_of(rhs)) {
            (Some(a), Some(b)) => Some((a, b)),
            _ => None,
        },
        None => None,
    }
}

impl Range {
    /// Whether `other` lies within this range.
    pub open spec fn spec_contains(&self, other: &Range) -> bool {
        other.start >= self.start && other.end <= self.end
    }

    /// Whether `n` lies within this range.
    pub open spec fn spec_has(&self, n: u32) -> bool {
        self.start <= n <= self.end
    }

    /// Whether this range holds the other one, or one of its two bounds.
    pub open spec fn spec_overlaps(&self, other: &Range) -> bool {
        other.spec_contains(self) || self.spec_has(other.start) || self.spec_has(other.end)
    }

    fn from_chars(input: &Vec<char>) -> (r: Option<Range>)
        ensures
            r == range_of(input@),
    {
        match split_once(input, '-') {
            Some((lhs, rhs)) => match (parse_u32(&lhs), parse_u32(&rhs)) {
                (Some(start), Some(end)) => Some(Range { start, end }),
                _ => None,
            },
            None => None,
        }
    }

    /// Reads a range written as `start-end`.
    pub fn from_str(input: &str) -> (r: Result<Range, RangeInvalidErr>)
        ensures
            match r {
                Ok(range) => range_of(input@) == Some(range),
                Err(e) => {
                    &&& range_of(input@) is None
                    &&& split_at_first(input@, '-') is None ==> e.msg@ == "Cannot split '"@ + input@ + "' on '-'"@
                    &&& split_at_first(input@, '-') is Some ==> e.msg@ == "Failed to parse number '"@ + input@
                        + "'"@
                },
            },
    {
        let chars = chars_of(input);
        match split_once(&chars, '-') {
            Some((lhs, rhs)) => match (parse_u32(&lhs), parse_u32(&rhs)) {
                (Some(start), Some(end)) => Ok(Range { start, end }),
                _ => {
                    let mut msg = String::from_str("Failed to parse number '");
                    msg.append(input);
                    msg.append("'");
                    Err(RangeInvalidErr { msg })
                },
            },
            None => {
                let mut msg = String::from_str("Cannot split '");
                msg.append(input);
                msg.append("' on '-'");
                Err(RangeInvalidErr { msg })
            },
        }
    }

    /// Reads a range from its two bounds, each a decimal literal.
    pub fn from_strs(lhs: &str, rhs: &str) -> (r: Result<Range, RangeInvalidErr>)
        ensures
            match r {
                Ok(range) => range_of_parts(lhs@, rhs@) == Some(range),
                Err(e) => range_of_parts(lhs@, rhs@) is None && e.msg@ == "Failed to parse number '"@ + lhs@
                    + "-"@ + rhs@ + "'"@,
            },
    {
        let l = chars_of(lhs);
        let r = chars_of(rhs);
        match (parse_u32(&l), parse_u32(&r)) {
            (Some(start), Some(end)) => Ok(Range { start, end }),
            _ => {
                let mut msg = String::from_str("Failed to parse number '");
                msg.append(lhs);
                msg.append("-");
                msg.append(rhs);
                msg.append("'");
                Err(RangeInvalidErr { msg })
            },
        }
    }

    /// Whether `other` lies within this range.
    pub fn contains(&self, other: &Range) -> (r: bool)
        ensures
            r == self.spec_contains(other),
    {
        (other.start >= self.start) && (other.end <= self.end)
    }

    /// Whether the two ranges share a section. This holds exactly if this
    /// range lies within the other or holds one of its bounds.
    pub fn overlaps(&self, other: &Range) -> (r: bool)
        ensures
            r == self.spec_overlaps(other),
            self.start <= self.end && other.start <= other.end ==> (r <==> exists|n: u32|
                self.spec_has(n) && other.spec_has(n)),
    {
        proof {
            if self.start <= self.end && other.start <= other.end {
                if self.spec_overlaps(other) {
                    if other.spec_contains(self) {
                        assert(self.spec_has(self.start) && other.spec_has(self.start));
                    } else if self.spec_has(other.start) {
                        assert(self.spec_has(other.start) && other.spec_has(other.start));
                    } else {
                        assert(self.spec_has(other.end) && other.spec_has(other.end));
                    }
                }
            }
        }
        other.contains(self) || self.has(other.start) || self.has(other.end)
    }

    /// Whether `n` lies within this range.
    pub fn has(&self, n: u32) -> (r: bool)
        ensures
            r == self.spec_has(n),
    {
        (n >= self.start) && (n <= self.end)
    }
}

/// Reads the two ranges of one line.
pub fn parse_rangepair(line: &str) -> (r: Option<(Range, Range)>)
    ensures
        r == rangepair_of(line@),
{
    let chars = chars_of(line);
    match split_once(&chars, ',') {
        Some((lhs, rhs)) => match (Range::from_chars(&lhs), Range::from_chars(&rhs)) {
            (Some(a), Some(b)) => Some((a, b)),
            _ => None,
        },
        None => None,
    }
}

/// Whether one range of the pair lies within the other.
pub open spec fn fully_overlapping(pair: (Range, Range)) -> bool {
    pair.0.spec_contains(&pair.1) || pair.1.spec_contains(&pair.0)
}

/// Whether the ranges of the pair share a section.
pub open spec fn overlapping(pair: (Range, Range)) -> bool {
    pair.0.spec_overlaps(&pair.1)
}

/// Whether every line holds a pair of ranges.
pub open spec fn all_pairs(lines: Seq<String>) -> bool {
    forall|i: int| 0 <= i < lines.len() ==> rangepair_of(#[trigger] lines[i]@) is Some
}

/// Number of lines whose pair satisfies `pick`.
pub open spec fn count_pairs(lines: Seq<String>, pick: spec_fn((Range, Range)) -> bool) -> nat
    decreases lines.len(),
{
    if lines.len() == 0 {
        0
    } else {
        let rest = count_pairs(lines.drop_last(), pick);
        match rangepair_of(lines.last()@) {
            Some(pair) => if pick(pair) {
                rest + 1
            } else {
                rest
            },
            None => rest,
        }
    }
}

/// Counts the lines on which one range lies within the other. `None` if a
/// line holds no pair of ranges, or if the count does not fit in 32 bits.
pub fn number_full_overlaps(lines: &Vec<String>) -> (r: Option<u32>)
    ensures
        match r {
            Some(n) => all_pairs(lines@) && n == count_pairs(lines@, |pair: (Range, Range)| fully_overlapping(pair)),
            None => !all_pairs(lines@) || count_pairs(lines@, |pair: (Range, Range)| fully_overlapping(pair))
                > u32::MAX,
        },
{
    let ghost pick = |pair: (Range, Range)| fully_overlapping(pair);
    let mut count: u32 = 0;
    let mut i: usize = 0;
    while i < lines.len()
        invariant
            i <= lines.len(),
            pick == |pair: (Range, Range)| fully_overlapping(pair),
            all_pairs(lines@.take(i as int)),
            count == count_pairs(lines@.take(i as int), pick),
        decreases lines.len() - i,
    {
        proof {
            assert(lines@.take(i + 1).drop_last() =~= lines@.take(i as int));
            assert(lines@.take(i + 1).last() == lines@[i as int]);
        }
        match parse_rangepair(lines[i].as_str()) {
            Some((lhs, rhs)) => {
                if lhs.contains(&rhs) || rhs.contains(&lhs) {
                    if count == u32::MAX {
                        proof {
                            lemma_count_pairs_rest(lines@, pick, i + 1);
                        }
                        return None;
                    }
                    count += 1;
                }
            },
            None => {
                assert(!all_pairs(lines@));
                return None;
            },
        }
        proof {
            assert forall|j: int| 0 <= j < i + 1 implies rangepair_of(#[trigger] lines@.take(i + 1)[j]@) is Some by {
                if j < i {
                    assert(lines@.take(i as int)[j] == lines@[j]);
                }
            }
        }
        i += 1;
    }
    proof {
        assert(lines@.take(i as int) =~= lines@);
    }
    Some(count)
}

proof fn lemma_count_pairs_rest(lines: Seq<String>, pick: spec_fn((Range, Range)) -> bool, k: int)
    requires
        0 <= k <= lines.len(),
    ensures
        count_pairs(lines.take(k), pick) <= count_pairs(lines, pick),
    decreases lines.len() - k,
{
    if k < lines.len() {
        lemma_count_pairs_rest(lines, pick, k + 1);
        assert(lines.take(k + 1).drop_last() =~= lines.take(k));
    } else {
        assert(lines.take(k) =~= lines);
    }
}

/// Counts the lines on which the two ranges share a section. `None` if a
/// line holds no pair of ranges, or if the count does not fit in 32 bits.
pub fn number_any_overlaps(lines: &Vec<String>) -> (r: Option<u32>)
    ensures
        match r {
            Some(n) => all_pairs(lines@) && n == count_pairs(lines@, |pair: (Range, Range)| overlapping(pair)),
            None => !all_pairs(lines@) || count_pairs(lines@, |pair: (Range, Range)| overlapping(pair)) > u32::MAX,
        },
{
    let ghost pick = |pair: (Range, Range)| overlapping(pair);
    let mut count: u32 = 0;
    let mut i: usize = 0;
    while i < lines.len()
        invariant
            i <= lines.len(),
            pick == |pair: (Range, Range)| overlapping(pair),
            all_pairs(lines@.take(i as int)),
            count == count_pairs(lines@.take(i as int), pick),
        decreases lines.len() - i,
    {
        proof {
            assert(lines@.take(i + 1).drop_last() =~= lines@.take(i as int));
            assert(lines@.take(i + 1).last() == lines@[i as int]);
        }
        match parse_rangepair(lines[i].as_str()) {
            Some((lhs, rhs)) => {
                if lhs.overlaps(&rhs) {
                    if count == u32::MAX {
                        proof {
                            lemma_count_pairs_rest(lines@, pick, i + 1);
                        }
                        return None;
                    }
                    count += 1;
                }
            },
            None => {
                assert(!all_pairs(lines@));
                return None;
            },
        }
        proof {
            assert forall|j: int| 0 <= j < i + 1 implies rangepair_of(#[trigger] lines@.take(i + 1)[j]@) is Some by {
                if j < i {
                    assert(lines@.take(i as int)[j] == lines@[j]);
                }
            }
        }
        i += 1;
    }
    proof {
        assert(lines@.take(i as int) =~= lines@);
    }
    Some(count)
}

} // verus!
