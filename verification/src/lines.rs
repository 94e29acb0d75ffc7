//! Byte offsets to 1-based line numbers.

use vstd::prelude::*;
use vstd::string::*;

use crate::doc_scan::NEWLINE;

verus! {

/// The number of newline bytes among the first `n` bytes of `b`.
pub open spec fn newlines_before(b: Seq<u8>, n: int) -> nat
    decreases n,
{
    if n <= 0 || b.len() == 0 {
        0
    } else if n > b.len() {
        newlines_before(b, b.len() as int)
    } else if b[n - 1] == NEWLINE {
        newlines_before(b, n - 1) + 1
    } else {
        newlines_before(b, n - 1)
    }
}

/// Offsets at which the lines of the first `n` bytes of `b` start: 0, and
/// one past every newline.
pub open spec fn line_starts_upto(b: Seq<u8>, n: int) -> Seq<usize>
    decreases n,
{
    if n <= 0 {
        seq![0usize]
    } else if b[n - 1] == NEWLINE {
        line_starts_upto(b, n - 1).push(n as usize)
    } else {
        line_starts_upto(b, n - 1)
    }
}

/// The start offset of every line of `b`, in increasing order.
pub open spec fn spec_line_starts(b: Seq<u8>) -> Seq<usize> {
    line_starts_upto(b, b.len() as int)
}

/// The values strictly increase.
pub open spec fn strictly_increasing(s: Seq<usize>) -> bool {
    forall|i: int, j: int| 0 <= i < j < s.len() ==> s[i] < s[j]
}

/// How many of the first `n` values of `s` are at most `offset`.
pub open spec fn count_at_most(s: Seq<usize>, n: int, offset: int) -> nat
    decreases n,
{
    if n <= 0 {
        0
    } else if s[n - 1] <= offset {
        count_at_most(s, n - 1, offset) + 1
    } else {
        count_at_most(s, n - 1, offset)
    }
}

/// The 1-based line holding byte `offset`, given the sorted line starts:
/// the number of lines that start at or before it.
pub open spec fn spec_line_of(starts: Seq<usize>, offset: int) -> nat {
    count_at_most(starts, starts.len() as int, offset)
}

proof fn lemma_line_starts_shape(b: Seq<u8>, n: int)
    requires
        0 <= n <= b.len(),
        b.len() <= usize::MAX,
    ensures
        line_starts_upto(b, n).len() == 1 + newlines_before(b, n),
        line_starts_upto(b, n)[0] == 0,
        strictly_increasing(line_starts_upto(b, n)),
        forall|i: int|
            0 <= i < line_starts_upto(b, n).len() ==> #[trigger] line_starts_upto(b, n)[i] <= n,
    decreases n,
{
    if n > 0 {
        lemma_line_starts_shape(b, n - 1);
    }
}

/// Counting the sorted values at most `offset` finds exactly the values
/// below the first one that exceeds it.
proof fn lemma_count_at_most_prefix(s: Seq<usize>, n: int, offset: int, k: int)
    requires
        strictly_increasing(s),
        0 <= k <= n <= s.len(),
        forall|i: int| 0 <= i < k ==> #[trigger] s[i] <= offset,
        forall|i: int| k <= i < n ==> #[trigger] s[i] > offset,
    ensures
        count_at_most(s, n, offset) == k,
    decreases n,
{
    if n > k {
        lemma_count_at_most_prefix(s, n - 1, offset, k);
    } else if n > 0 {
        lemma_count_at_most_prefix(s, n - 1, offset, k - 1);
    }
}

proof fn lemma_count_at_most_same_prefix(s: Seq<usize>, t: Seq<usize>, n: int, offset: int)
    requires
        0 <= n <= s.len(),
        n <= t.len(),
        forall|i: int| 0 <= i < n ==> s[i] == t[i],
    ensures
        count_at_most(s, n, offset) == count_at_most(t, n, offset),
    decreases n,
{
    if n > 0 {
        lemma_count_at_most_same_prefix(s, t, n - 1, offset);
    }
}

proof fn lemma_line_of_upto(b: Seq<u8>, n: int, offset: int)
    requires
        0 <= n <= b.len(),
        0 <= offset,
        b.len() <= usize::MAX,
    ensures
        spec_line_of(line_starts_upto(b, n), offset) == 1 + newlines_before(
            b,
            if offset < n {
                offset
            } else {
                n
            },
        ),
    decreases n,
{
    if n == 0 {
        let s0 = line_starts_upto(b, 0);
        assert(count_at_most(s0, 0, offset) == 0);
        assert(count_at_most(s0, 1, offset) == 1);
    } else {
        lemma_line_of_upto(b, n - 1, offset);
        let prev = line_starts_upto(b, n - 1);
        lemma_line_starts_shape(b, n - 1);
        let lo = if offset < n - 1 {
            offset
        } else {
            n - 1
        };
        assert(spec_line_of(prev, offset) == 1 + newlines_before(b, lo));
        if b[n - 1] == NEWLINE {
            let cur = prev.push(n as usize);
            assert(line_starts_upto(b, n) == cur);
            lemma_count_at_most_same_prefix(cur, prev, prev.len() as int, offset);
            assert(count_at_most(cur, cur.len() as int, offset) == count_at_most(
                cur,
                prev.len() as int,
                offset,
            ) + if n <= offset {
                1nat
            } else {
                0nat
            });
        } else {
            assert(line_starts_upto(b, n) == prev);
        }
        if offset >= n {
            assert(newlines_before(b, n) == newlines_before(b, n - 1) + if b[n - 1] == NEWLINE {
                1nat
            } else {
                0nat
            });
        }
    }
}

/// The line of a byte offset is one more than the number of newlines that
/// precede it.
pub proof fn lemma_line_of_offset(b: Seq<u8>, offset: int)
    requires
        0 <= offset,
        b.len() <= usize::MAX,
    ensures
        spec_line_of(spec_line_starts(b), offset) == 1 + newlines_before(b, offset),
{
    lemma_line_of_upto(b, b.len() as int, offset);
}

/// The line starts begin at 0, strictly increase, stay within the text, and
/// there is one more of them than there are newlines.
pub proof fn lemma_line_starts_well_formed(b: Seq<u8>)
    requires
        b.len() <= usize::MAX,
    ensures
        spec_line_starts(b)[0] == 0,
        spec_line_starts(b).len() == 1 + newlines_before(b, b.len() as int),
        strictly_increasing(spec_line_starts(b)),
        forall|i: int|
            0 <= i < spec_line_starts(b).len() ==> #[trigger] spec_line_starts(b)[i] <= b.len(),
{
    lemma_line_starts_shape(b, b.len() as int);
}

proof fn lemma_count_at_most_monotone(s: Seq<usize>, n: int, x: int, y: int)
    requires
        x <= y,
    ensures
        count_at_most(s, n, x) <= count_at_most(s, n, y),
        n >= 0 ==> count_at_most(s, n, y) <= n,
    decreases n,
{
    if n > 0 {
        lemma_count_at_most_monotone(s, n - 1, x, y);
    }
}

proof fn lemma_newlines_before_bound(b: Seq<u8>, n: int)
    requires
        0 <= n <= b.len(),
    ensures
        newlines_before(b, n) <= n,
    decreases n,
{
    if n > 0 {
        lemma_newlines_before_bound(b, n - 1);
    }
}

/// Lines are numbered from 1, a later offset is never on an earlier line,
/// and no offset lies past the last line.
pub proof fn lemma_line_of_monotone(b: Seq<u8>, x: int, y: int)
    requires
        0 <= x <= y,
        b.len() <= usize::MAX,
    ensures
        1 <= spec_line_of(spec_line_starts(b), x) <= spec_line_of(spec_line_starts(b), y),
        spec_line_of(spec_line_starts(b), y) <= b.len() + 1,
{
    lemma_line_of_offset(b, x);
    lemma_line_starts_well_formed(b);
    lemma_newlines_before_bound(b, b.len() as int);
    let s = spec_line_starts(b);
    lemma_count_at_most_monotone(s, s.len() as int, x, y);
}

/// Offsets of the first byte of every line of `source`.
pub fn build_line_starts(source: &str) -> (starts: Vec<usize>)
    ensures
        starts@ == spec_line_starts(source.spec_bytes()),
{
    let bytes = source.as_bytes();
    let mut starts: Vec<usize> = Vec::new();
    starts.push(0);
    let mut index: usize = 0;
    while index < bytes.len()
        invariant
            index <= bytes@.len(),
            starts@ == line_starts_upto(bytes@, index as int),
        decreases bytes@.len() - index,
    {
        if bytes[index] == NEWLINE {
            starts.push(index + 1);
        }
        index += 1;
    }
    starts
}

/// The 1-based line holding byte `byte_offset`, found by binary search over
/// the strictly increasing line start offsets.
pub fn byte_offset_to_line(line_starts: &[usize], byte_offset: usize) -> (line: usize)
    requires
        strictly_increasing(line_starts@),
    ensures
        line == spec_line_of(line_starts@, byte_offset as int),
{
    let mut lo: usize = 0;
    let mut hi: usize = line_starts.len();
    while lo < hi
        invariant
            lo <= hi <= line_starts@.len(),
            forall|i: int| 0 <= i < lo ==> #[trigger] line_starts@[i] <= byte_offset,
            forall|i: int| hi <= i < line_starts@.len() ==> #[trigger] line_starts@[i]
                > byte_offset,
            strictly_increasing(line_starts@),
        decreases hi - lo,
    {
        let mid = lo + (hi - lo) / 2;
        if line_starts[mid] <= byte_offset {
            lo = mid + 1;
        } else {
            hi = mid;
        }
    }
    proof {
        lemma_count_at_most_prefix(
            line_starts@,
            line_starts@.len() as int,
            byte_offset as int,
            lo as int,
        );
    }
    lo
}

} // verus!
