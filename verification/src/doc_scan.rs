//! A string-aware scan of Rust source bytes that records the byte ranges of
//! doc comments (`///`, `//!`, `/** */`, `/*! */`), skipping string, raw
//! string, byte string and character literals as well as lifetimes.

use vstd::prelude::*;
use vstd::string::*;

use crate::text::{gap_is_whitespace, is_whitespace_gap};

verus! {

/// Byte values of the ASCII characters the scanner looks at.
pub const BACKSLASH: u8 = 0x5C;
pub const DOUBLE_QUOTE: u8 = 0x22;
pub const APOSTROPHE: u8 = 0x27;
pub const HASH: u8 = 0x23;
pub const SLASH: u8 = 0x2F;
pub const STAR: u8 = 0x2A;
pub const BANG: u8 = 0x21;
pub const NEWLINE: u8 = 0x0A;
pub const UNDERSCORE: u8 = 0x5F;
pub const OPEN_BRACE: u8 = 0x7B;
pub const CLOSE_BRACE: u8 = 0x7D;
pub const LOWER_A: u8 = 0x61;
pub const LOWER_B: u8 = 0x62;
pub const LOWER_C: u8 = 0x63;
pub const LOWER_I: u8 = 0x69;
pub const LOWER_R: u8 = 0x72;
pub const LOWER_S: u8 = 0x73;
pub const LOWER_T: u8 = 0x74;
pub const LOWER_U: u8 = 0x75;
pub const LOWER_X: u8 = 0x78;
pub const LOWER_Z: u8 = 0x7A;
pub const UPPER_A: u8 = 0x41;
pub const UPPER_Z: u8 = 0x5A;
pub const DIGIT_0: u8 = 0x30;
pub const DIGIT_9: u8 = 0x39;

/// A half-open byte range `start..end` into the scanned source.
#[derive(Clone, Copy, Debug, PartialEq, Eq, Structural)]
pub struct ByteRange {
    pub start: usize,
    pub end: usize,
}

// ---------------------------------------------------------------------------
// Specification
// ---------------------------------------------------------------------------

/// `bytes.get(i)` as a spec value.
pub open spec fn byte_at(b: Seq<u8>, i: int) -> Option<u8> {
    if 0 <= i < b.len() {
        Some(b[i])
    } else {
        None
    }
}

pub open spec fn opt_int(o: Option<usize>) -> Option<int> {
    match o {
        Some(v) => Some(v as int),
        None => None,
    }
}

/// Width in bytes of the UTF-8 sequence that starts with `byte`
/// (1 for continuation and invalid leading bytes).
pub open spec fn spec_utf8_char_len(byte: u8) -> int {
    if byte < 0x80 {
        1
    } else if 0xC0 <= byte < 0xE0 {
        2
    } else if 0xE0 <= byte < 0xF0 {
        3
    } else if 0xF0 <= byte < 0xF8 {
        4
    } else {
        1
    }
}

pub open spec fn is_ident_byte(c: u8) -> bool {
    (LOWER_A <= c <= LOWER_Z) || (UPPER_A <= c <= UPPER_Z) || (DIGIT_0 <= c
        <= DIGIT_9) || c == UNDERSCORE
}

pub open spec fn is_ident_start_byte(c: u8) -> bool {
    (LOWER_A <= c <= LOWER_Z) || (UPPER_A <= c <= UPPER_Z) || c == UNDERSCORE
}

/// Position just after the closing `quote` of a literal whose body starts at
/// `pos`, honouring backslash escapes; `None` when the literal is unterminated.
pub open spec fn quoted_close(b: Seq<u8>, pos: int, quote: u8) -> Option<int>
    decreases b.len() - pos,
{
    if pos < 0 || pos >= b.len() {
        None
    } else if b[pos] == BACKSLASH {
        if pos + 2 >= b.len() {
            None
        } else {
            quoted_close(b, pos + 2, quote)
        }
    } else if b[pos] == quote {
        Some(pos + 1)
    } else {
        quoted_close(b, pos + 1, quote)
    }
}

/// End of a quoted literal opened at `index`; an unterminated literal only
/// consumes its opening quote.
pub open spec fn spec_skip_quoted(b: Seq<u8>, index: int, quote: u8) -> Option<int> {
    if byte_at(b, index) != Some(quote) {
        None
    } else {
        match quoted_close(b, index + 1, quote) {
            Some(e) => Some(e),
            None => Some(index + 1),
        }
    }
}

pub open spec fn spec_skip_byte_string(b: Seq<u8>, index: int) -> Option<int> {
    if byte_at(b, index) == Some(LOWER_B) {
        spec_skip_quoted(b, index + 1, DOUBLE_QUOTE)
    } else {
        None
    }
}

/// Number of consecutive `#` bytes starting at `pos`.
pub open spec fn hash_run(b: Seq<u8>, pos: int) -> nat
    decreases b.len() - pos,
{
    if 0 <= pos < b.len() && b[pos] == HASH {
        1 + hash_run(b, pos + 1)
    } else {
        0
    }
}

/// A `"` at `pos` followed by at least `hashes` `#` bytes closes a raw string.
pub open spec fn closes_raw(b: Seq<u8>, pos: int, hashes: nat) -> bool {
    &&& 0 <= pos < b.len()
    &&& b[pos] == DOUBLE_QUOTE
    &&& hash_run(b, pos + 1) >= hashes
}

pub open spec fn raw_close(b: Seq<u8>, pos: int, hashes: nat) -> Option<int>
    decreases b.len() - pos,
{
    if pos < 0 || pos >= b.len() {
        None
    } else if closes_raw(b, pos, hashes) {
        Some(pos + 1 + hashes)
    } else {
        raw_close(b, pos + 1, hashes)
    }
}

/// `r`, any number of `#`, then `"` opens a raw string; it ends after the
/// first `"` followed by as many `#`. An unterminated one consumes the `r`.
pub open spec fn spec_skip_raw(b: Seq<u8>, index: int) -> Option<int> {
    if byte_at(b, index) != Some(LOWER_R) {
        None
    } else {
        let hashes = hash_run(b, index + 1);
        let open = index + 1 + hashes;
        if byte_at(b, open) != Some(DOUBLE_QUOTE) {
            None
        } else {
            match raw_close(b, open + 1, hashes) {
                Some(e) => Some(e),
                None => Some(index + 1),
            }
        }
    }
}

pub open spec fn static_bytes() -> Seq<u8> {
    seq![LOWER_S, LOWER_T, LOWER_A, LOWER_T, LOWER_I, LOWER_C]
}

/// `static` starts at `pos` and is not the prefix of a longer identifier.
pub open spec fn spec_is_lifetime_static(b: Seq<u8>, pos: int) -> bool {
    &&& 0 <= pos
    &&& pos + 6 <= b.len()
    &&& b.subrange(pos, pos + 6) == static_bytes()
    &&& !(byte_at(b, pos + 6) matches Some(c) && is_ident_byte(c))
}

/// First position at or after `pos` that does not hold an identifier byte.
pub open spec fn spec_lifetime_end(b: Seq<u8>, pos: int) -> int
    decreases b.len() - pos,
{
    if 0 <= pos < b.len() && is_ident_byte(b[pos]) {
        spec_lifetime_end(b, pos + 1)
    } else {
        pos
    }
}

/// First position at or after `pos` holding `}` (or the end of input).
pub open spec fn brace_close(b: Seq<u8>, pos: int) -> int
    decreases b.len() - pos,
{
    if 0 <= pos < b.len() && b[pos] != CLOSE_BRACE {
        brace_close(b, pos + 1)
    } else {
        pos
    }
}

/// Where the body of a character literal opened at `index` ends: after an
/// escape (`\x..`, `\u{..}`, or a one-byte escape) or after one UTF-8 char.
pub open spec fn char_body_end(b: Seq<u8>, index: int) -> int {
    let pos = index + 1;
    if b[pos] == BACKSLASH {
        let p = pos + 1;
        if p >= b.len() {
            p
        } else if b[p] == LOWER_X {
            if p + 3 <= b.len() {
                p + 3
            } else {
                b.len() as int
            }
        } else if b[p] == LOWER_U && byte_at(b, p + 1) == Some(OPEN_BRACE) {
            let c = brace_close(b, p + 2);
            if c < b.len() {
                c + 1
            } else {
                c
            }
        } else {
            p + 1
        }
    } else {
        pos + spec_utf8_char_len(b[pos])
    }
}

/// A character literal opened at `index`; when no closing `'` follows its
/// body only the opening quote is consumed.
pub open spec fn spec_skip_char_literal(b: Seq<u8>, index: int) -> Option<int> {
    let pos = index + 1;
    if pos >= b.len() {
        Some(pos)
    } else if b[pos] == BACKSLASH && pos + 1 >= b.len() {
        Some(pos + 1)
    } else {
        let e = char_body_end(b, index);
        if byte_at(b, e) == Some(APOSTROPHE) {
            Some(e + 1)
        } else {
            Some(index + 1)
        }
    }
}

/// An apostrophe opens `'static`, a character literal, or a lifetime.
pub open spec fn spec_skip_apostrophe(b: Seq<u8>, index: int) -> Option<int> {
    if byte_at(b, index) != Some(APOSTROPHE) {
        None
    } else {
        let pos = index + 1;
        if pos >= b.len() {
            Some(pos)
        } else if spec_is_lifetime_static(b, pos) {
            Some(pos + 6)
        } else if b[pos] == BACKSLASH {
            spec_skip_char_literal(b, index)
        } else if byte_at(b, pos + 1) == Some(APOSTROPHE) {
            Some(pos + 2)
        } else if is_ident_start_byte(b[pos]) {
            Some(spec_lifetime_end(b, pos))
        } else {
            spec_skip_char_literal(b, index)
        }
    }
}

/// First position at or after `pos` holding a newline (or the end of input).
pub open spec fn line_end(b: Seq<u8>, pos: int) -> int
    decreases b.len() - pos,
{
    if 0 <= pos < b.len() && b[pos] != NEWLINE {
        line_end(b, pos + 1)
    } else {
        pos
    }
}

/// Where a block comment whose body starts at `pos`, nested `depth` deep,
/// ends: after the `*/` that closes the outermost level, or at end of input.
pub open spec fn block_end(b: Seq<u8>, pos: int, depth: nat) -> int
    decreases b.len() - pos,
{
    if pos < 0 || pos >= b.len() || depth == 0 {
        pos
    } else if pos + 1 < b.len() && b[pos] == SLASH && b[pos + 1] == STAR {
        block_end(b, pos + 2, depth + 1)
    } else if pos + 1 < b.len() && b[pos] == STAR && b[pos + 1] == SLASH {
        block_end(b, pos + 2, (depth - 1) as nat)
    } else {
        block_end(b, pos + 1, depth)
    }
}

/// `//` at `i` followed by `/` or `!` starts a line doc comment.
pub open spec fn is_line_doc_start(b: Seq<u8>, i: int) -> bool {
    i + 2 < b.len() && (b[i + 2] == SLASH || b[i + 2] == BANG)
}

/// `/*` at `i` followed by `*` or `!` starts a block doc comment.
pub open spec fn is_block_doc_start(b: Seq<u8>, i: int) -> bool {
    i + 2 < b.len() && (b[i + 2] == STAR || b[i + 2] == BANG)
}

pub open spec fn starts_line_comment(b: Seq<u8>, i: int) -> bool {
    0 <= i && i + 1 < b.len() && b[i] == SLASH && b[i + 1] == SLASH
}

pub open spec fn starts_block_comment(b: Seq<u8>, i: int) -> bool {
    0 <= i && i + 1 < b.len() && b[i] == SLASH && b[i + 1] == STAR
}

/// One step of the scan at position `i`: the position where scanning
/// resumes, and the doc comment recorded by this step, if any.
pub open spec fn scan_step(b: Seq<u8>, i: int) -> (int, Option<ByteRange>) {
    if let Some(e) = spec_skip_byte_string(b, i) {
        (e, None)
    } else if let Some(e) = spec_skip_raw(b, i) {
        (e, None)
    } else if let Some(e) = spec_skip_quoted(b, i, DOUBLE_QUOTE) {
        (e, None)
    } else if let Some(e) = spec_skip_apostrophe(b, i) {
        (e, None)
    } else if starts_line_comment(b, i) {
        let e = line_end(b, i + 2);
        (e, if is_line_doc_start(b, i) { Some(ByteRange { start: i as usize, end: e as usize }) } else { None })
    } else if starts_block_comment(b, i) {
        let e = block_end(b, i + 2, 1);
        (e, if is_block_doc_start(b, i) { Some(ByteRange { start: i as usize, end: e as usize }) } else { None })
    } else {
        (i + 1, None)
    }
}

/// The doc comments recorded by scanning from position `i` to the end.
pub open spec fn scan_from(b: Seq<u8>, i: int) -> Seq<ByteRange>
    decreases b.len() - i,
{
    if i < 0 || i >= b.len() {
        Seq::empty()
    } else {
        let (next, found) = scan_step(b, i);
        if next <= i || next > b.len() {
            // never taken: every step advances (see `lemma_scan_step_advances`)
            Seq::empty()
        } else {
            match found {
                Some(r) => seq![r].add(scan_from(b, next)),
                None => scan_from(b, next),
            }
        }
    }
}

/// The doc comments of a whole source, in order of appearance.
pub open spec fn spec_doc_comments(b: Seq<u8>) -> Seq<ByteRange> {
    scan_from(b, 0)
}

// ---------------------------------------------------------------------------
// Walking back through leading doc comments
// ---------------------------------------------------------------------------

/// Every range starts no later than it ends.
pub open spec fn ranges_well_ordered(ranges: Seq<ByteRange>) -> bool {
    forall|i: int| 0 <= i < ranges.len() ==> #[trigger] ranges[i].start <= ranges[i].end
}

/// Among `ranges[..count]`, the start of the last range that ends at or
/// before `start` and is separated from it only by whitespace.
pub open spec fn doc_before(ranges: Seq<ByteRange>, b: Seq<u8>, start: int, count: int) -> Option<
    int,
>
    decreases count,
{
    if count <= 0 {
        None
    } else {
        let r = ranges[count - 1];
        if r.end <= start && gap_is_whitespace(b, r.end as int, start) {
            Some(r.start as int)
        } else {
            doc_before(ranges, b, start, count - 1)
        }
    }
}

/// Where an item that begins at `start` really begins once the doc comments
/// directly above it (separated only by whitespace) are included.
pub open spec fn spec_leading_doc_start(ranges: Seq<ByteRange>, b: Seq<u8>, start: int) -> int
    decreases start,
{
    match doc_before(ranges, b, start, ranges.len() as int) {
        Some(s) => if 0 <= s < start {
            spec_leading_doc_start(ranges, b, s)
        } else {
            start
        },
        None => start,
    }
}

proof fn lemma_doc_before_is_a_start(ranges: Seq<ByteRange>, b: Seq<u8>, start: int, count: int)
    requires
        count <= ranges.len(),
        ranges_well_ordered(ranges),
    ensures
        doc_before(ranges, b, start, count) matches Some(s) ==> s <= start && exists|i: int|
            0 <= i < ranges.len() && ranges[i].start == s,
    decreases count,
{
    if count > 0 {
        let r = ranges[count - 1];
        if r.end <= start && gap_is_whitespace(b, r.end as int, start) {
            assert(ranges[count - 1].start <= ranges[count - 1].end);
        } else {
            lemma_doc_before_is_a_start(ranges, b, start, count - 1);
        }
    }
}

/// The walk only moves backwards, and stops at `start` or at the start of
/// one of the doc comments.
pub proof fn lemma_leading_doc_start_bounds(ranges: Seq<ByteRange>, b: Seq<u8>, start: int)
    requires
        ranges_well_ordered(ranges),
    ensures
        spec_leading_doc_start(ranges, b, start) <= start,
        spec_leading_doc_start(ranges, b, start) == start || exists|i: int|
            0 <= i < ranges.len() && ranges[i].start == spec_leading_doc_start(ranges, b, start),
    decreases start,
{
    lemma_doc_before_is_a_start(ranges, b, start, ranges.len() as int);
    if let Some(s) = doc_before(ranges, b, start, ranges.len() as int) {
        if 0 <= s < start {
            lemma_leading_doc_start_bounds(ranges, b, s);
        }
    }
}

proof fn lemma_doc_before_skips_later(
    ranges: Seq<ByteRange>,
    b: Seq<u8>,
    start: int,
    i: int,
    count: int,
)
    requires
        0 <= i < count <= ranges.len(),
        forall|j: int| i < j < ranges.len() ==> #[trigger] ranges[j].end > start,
    ensures
        doc_before(ranges, b, start, count) == doc_before(ranges, b, start, i + 1),
    decreases count,
{
    if count > i + 1 {
        assert(ranges[count - 1].end > start);
        lemma_doc_before_skips_later(ranges, b, start, i, count - 1);
    }
}

/// A doc comment that is the last one ending before `start`, separated from
/// it only by whitespace, is included: the walk reaches its start or beyond.
pub proof fn lemma_adjacent_doc_included(ranges: Seq<ByteRange>, b: Seq<u8>, start: int, i: int)
    requires
        ranges_well_ordered(ranges),
        0 <= i < ranges.len(),
        ranges[i].end <= start,
        gap_is_whitespace(b, ranges[i].end as int, start),
        forall|j: int| i < j < ranges.len() ==> #[trigger] ranges[j].end > start,
    ensures
        spec_leading_doc_start(ranges, b, start) <= ranges[i].start,
{
    lemma_doc_before_skips_later(ranges, b, start, i, ranges.len() as int);
    assert(ranges[i].start <= ranges[i].end);
    let s = ranges[i].start as int;
    if s < start {
        lemma_leading_doc_start_bounds(ranges, b, s);
    }
}

/// Every range holds at least one byte.
pub open spec fn ranges_nonempty(ranges: Seq<ByteRange>) -> bool {
    forall|i: int| 0 <= i < ranges.len() ==> #[trigger] ranges[i].start < ranges[i].end
}

/// A doc comment sits directly above `start`: it ends at or before it, with
/// only whitespace in between.
pub open spec fn doc_directly_above(ranges: Seq<ByteRange>, b: Seq<u8>, start: int, i: int) -> bool {
    ranges[i].end <= start && gap_is_whitespace(b, ranges[i].end as int, start)
}

proof fn lemma_doc_before_none(ranges: Seq<ByteRange>, b: Seq<u8>, start: int, count: int)
    requires
        count <= ranges.len(),
        doc_before(ranges, b, start, count) is None,
    ensures
        forall|i: int| 0 <= i < count ==> !#[trigger] doc_directly_above(ranges, b, start, i),
    decreases count,
{
    if count > 0 {
        lemma_doc_before_none(ranges, b, start, count - 1);
    }
}

/// The walk back over doc comments goes all the way: where it stops, no doc
/// comment sits directly above (ending there or earlier with only
/// whitespace between), however many doc comments were stacked above the
/// item.
pub proof fn lemma_leading_doc_walk_complete(ranges: Seq<ByteRange>, b: Seq<u8>, start: int)
    requires
        ranges_well_ordered(ranges),
        ranges_nonempty(ranges),
    ensures
        forall|i: int|
            0 <= i < ranges.len() ==> !#[trigger] doc_directly_above(
                ranges,
                b,
                spec_leading_doc_start(ranges, b, start),
                i,
            ),
    decreases start,
{
    lemma_doc_before_is_a_start(ranges, b, start, ranges.len() as int);
    let res = spec_leading_doc_start(ranges, b, start);
    match doc_before(ranges, b, start, ranges.len() as int) {
        Some(s) => {
            lemma_doc_before_found(ranges, b, start, ranges.len() as int);
            assert(0 <= s < start);
            assert(res == spec_leading_doc_start(ranges, b, s));
            lemma_leading_doc_walk_complete(ranges, b, s);
        },
        None => {
            assert(res == start);
            lemma_doc_before_none(ranges, b, start, ranges.len() as int);
        },
    }
}

proof fn lemma_doc_before_found(ranges: Seq<ByteRange>, b: Seq<u8>, start: int, count: int)
    requires
        count <= ranges.len(),
        ranges_nonempty(ranges),
        doc_before(ranges, b, start, count) is Some,
    ensures
        doc_before(ranges, b, start, count)->0 < start,
    decreases count,
{
    if count > 0 {
        let r = ranges[count - 1];
        if r.end <= start && gap_is_whitespace(b, r.end as int, start) {
            assert(ranges[count - 1].start < ranges[count - 1].end);
        } else {
            lemma_doc_before_found(ranges, b, start, count - 1);
        }
    }
}

/// Index-ordered search for the doc comment that directly precedes `start`.
fn find_doc_before(doc_comments: &[ByteRange], source: &str, start: usize) -> (r: Option<usize>)
    ensures
        opt_int(r) == doc_before(
            doc_comments@,
            source.spec_bytes(),
            start as int,
            doc_comments@.len() as int,
        ),
{
    let mut i = doc_comments.len();
    while i > 0
        invariant
            i <= doc_comments@.len(),
            doc_before(doc_comments@, source.spec_bytes(), start as int, doc_comments@.len() as int)
                == doc_before(doc_comments@, source.spec_bytes(), start as int, i as int),
        decreases i,
    {
        let range = doc_comments[i - 1];
        if range.end <= start && is_whitespace_gap(source, range.end, start) {
            return Some(range.start);
        }
        i -= 1;
    }
    None
}

/// Moves `start` back over the doc comments that sit directly above it,
/// separated only by whitespace, so that an item's chunk includes its docs.
pub fn leading_doc_start(doc_comments: &[ByteRange], source: &str, start: usize) -> (r: usize)
    requires
        ranges_well_ordered(doc_comments@),
    ensures
        r == spec_leading_doc_start(doc_comments@, source.spec_bytes(), start as int),
        r <= start,
        r == start || exists|i: int|
            0 <= i < doc_comments@.len() && doc_comments@[i].start == r,
        ranges_nonempty(doc_comments@) ==> forall|i: int|
            0 <= i < doc_comments@.len() ==> !#[trigger] doc_directly_above(
                doc_comments@,
                source.spec_bytes(),
                r as int,
                i,
            ),
{
    proof {
        lemma_leading_doc_start_bounds(doc_comments@, source.spec_bytes(), start as int);
        if ranges_nonempty(doc_comments@) {
            lemma_leading_doc_walk_complete(doc_comments@, source.spec_bytes(), start as int);
        }
    }
    let mut cur = start;
    loop
        invariant
            ranges_well_ordered(doc_comments@),
            spec_leading_doc_start(doc_comments@, source.spec_bytes(), start as int)
                == spec_leading_doc_start(doc_comments@, source.spec_bytes(), cur as int),
            spec_leading_doc_start(doc_comments@, source.spec_bytes(), start as int) <= start,
            spec_leading_doc_start(doc_comments@, source.spec_bytes(), start as int) == start
                || exists|i: int|
                0 <= i < doc_comments@.len() && doc_comments@[i].start
                    == spec_leading_doc_start(doc_comments@, source.spec_bytes(), start as int),
            ranges_nonempty(doc_comments@) ==> forall|i: int|
                0 <= i < doc_comments@.len() ==> !#[trigger] doc_directly_above(
                    doc_comments@,
                    source.spec_bytes(),
                    spec_leading_doc_start(doc_comments@, source.spec_bytes(), start as int),
                    i,
                ),
        decreases cur,
    {
        match find_doc_before(doc_comments, source, cur) {
            Some(new_start) => {
                if new_start >= cur {
                    return cur;
                }
                cur = new_start;
            },
            None => {
                return cur;
            },
        }
    }
}

// ---------------------------------------------------------------------------
// Lemmas about the helper specifications
// ---------------------------------------------------------------------------

proof fn lemma_quoted_close_bounds(b: Seq<u8>, pos: int, quote: u8)
    requires
        0 <= pos,
    ensures
        quoted_close(b, pos, quote) matches Some(e) ==> pos < e <= b.len(),
    decreases b.len() - pos,
{
    if 0 <= pos < b.len() {
        if b[pos] == BACKSLASH {
            if pos + 2 < b.len() {
                lemma_quoted_close_bounds(b, pos + 2, quote);
            }
        } else if b[pos] != quote {
            lemma_quoted_close_bounds(b, pos + 1, quote);
        }
    }
}

proof fn lemma_hash_run_bound(b: Seq<u8>, pos: int)
    requires
        0 <= pos,
    ensures
        hash_run(b, pos) > 0 ==> pos + hash_run(b, pos) <= b.len(),
    decreases b.len() - pos,
{
    if 0 <= pos < b.len() && b[pos] == HASH {
        lemma_hash_run_bound(b, pos + 1);
    }
}

/// `hash_run(b, p) >= m + 1` exactly when it is at least `m` and byte
/// `p + m` is a `#`.
proof fn lemma_hash_run_extend(b: Seq<u8>, p: int, m: nat)
    requires
        0 <= p,
        hash_run(b, p) >= m,
    ensures
        hash_run(b, p) >= m + 1 <==> byte_at(b, p + m) == Some(HASH),
    decreases m,
{
    if m > 0 {
        lemma_hash_run_extend(b, p + 1, (m - 1) as nat);
    }
}

proof fn lemma_raw_close_bounds(b: Seq<u8>, pos: int, hashes: nat)
    requires
        0 <= pos,
    ensures
        raw_close(b, pos, hashes) matches Some(e) ==> pos < e <= b.len(),
    decreases b.len() - pos,
{
    if 0 <= pos < b.len() {
        if closes_raw(b, pos, hashes) {
            lemma_hash_run_bound(b, pos + 1);
        } else {
            lemma_raw_close_bounds(b, pos + 1, hashes);
        }
    }
}

proof fn lemma_lifetime_end_bounds(b: Seq<u8>, pos: int)
    requires
        0 <= pos <= b.len(),
    ensures
        pos <= spec_lifetime_end(b, pos) <= b.len(),
    decreases b.len() - pos,
{
    if 0 <= pos < b.len() && is_ident_byte(b[pos]) {
        lemma_lifetime_end_bounds(b, pos + 1);
    }
}

proof fn lemma_brace_close_bounds(b: Seq<u8>, pos: int)
    requires
        0 <= pos <= b.len(),
    ensures
        pos <= brace_close(b, pos) <= b.len(),
    decreases b.len() - pos,
{
    if 0 <= pos < b.len() && b[pos] != CLOSE_BRACE {
        lemma_brace_close_bounds(b, pos + 1);
    }
}

proof fn lemma_line_end_bounds(b: Seq<u8>, pos: int)
    requires
        0 <= pos <= b.len(),
    ensures
        pos <= line_end(b, pos) <= b.len(),
    decreases b.len() - pos,
{
    if 0 <= pos < b.len() && b[pos] != NEWLINE {
        lemma_line_end_bounds(b, pos + 1);
    }
}

proof fn lemma_block_end_bounds(b: Seq<u8>, pos: int, depth: nat)
    requires
        0 <= pos <= b.len(),
    ensures
        pos <= block_end(b, pos, depth) <= b.len(),
    decreases b.len() - pos,
{
    if pos < 0 || pos >= b.len() || depth == 0 {
    } else if pos + 1 < b.len() && b[pos] == SLASH && b[pos + 1] == STAR {
        lemma_block_end_bounds(b, pos + 2, depth + 1);
    } else if pos + 1 < b.len() && b[pos] == STAR && b[pos + 1] == SLASH {
        lemma_block_end_bounds(b, pos + 2, (depth - 1) as nat);
    } else {
        lemma_block_end_bounds(b, pos + 1, depth);
    }
}

proof fn lemma_skip_quoted_bounds(b: Seq<u8>, i: int, quote: u8)
    requires
        0 <= i,
    ensures
        spec_skip_quoted(b, i, quote) matches Some(e) ==> i < e <= b.len(),
{
    lemma_quoted_close_bounds(b, i + 1, quote);
}

proof fn lemma_skip_raw_bounds(b: Seq<u8>, i: int)
    requires
        0 <= i,
    ensures
        spec_skip_raw(b, i) matches Some(e) ==> i < e <= b.len(),
{
    if byte_at(b, i) == Some(LOWER_R) {
        let hashes = hash_run(b, i + 1);
        lemma_raw_close_bounds(b, i + 1 + hashes + 1, hashes);
    }
}

proof fn lemma_skip_apostrophe_bounds(b: Seq<u8>, i: int)
    requires
        0 <= i,
    ensures
        spec_skip_apostrophe(b, i) matches Some(e) ==> i < e <= b.len(),
{
    if byte_at(b, i) == Some(APOSTROPHE) && i + 1 < b.len() {
        lemma_lifetime_end_bounds(b, i + 1);
        let p = i + 2;
        if p < b.len() {
            lemma_brace_close_bounds(b, p);
            if p + 2 <= b.len() {
                lemma_brace_close_bounds(b, p + 2);
            }
        }
    }
}

/// Every scan step moves forward and stays within the input.
pub proof fn lemma_scan_step_advances(b: Seq<u8>, i: int)
    requires
        0 <= i < b.len(),
    ensures
        i < scan_step(b, i).0 <= b.len(),
{
    lemma_skip_quoted_bounds(b, i + 1, DOUBLE_QUOTE);
    lemma_skip_raw_bounds(b, i);
    lemma_skip_quoted_bounds(b, i, DOUBLE_QUOTE);
    lemma_skip_apostrophe_bounds(b, i);
    if i + 2 <= b.len() {
        lemma_line_end_bounds(b, i + 2);
        lemma_block_end_bounds(b, i + 2, 1);
    }
}

// ---------------------------------------------------------------------------
// Laws of the scan
// ---------------------------------------------------------------------------

/// `r` spans one doc comment of `b`: it lies within `b`, opens with `///`,
/// `//!`, `/**` or `/*!`, and a line comment stops at (and excludes) the end
/// of its line.
pub open spec fn is_doc_comment_range(b: Seq<u8>, r: ByteRange) -> bool {
    &&& r.start + 2 < b.len()
    &&& r.start < r.end <= b.len()
    &&& b[r.start as int] == SLASH
    &&& (b[r.start + 1] == SLASH && (b[r.start + 2] == SLASH || b[r.start + 2] == BANG)) || (
    b[r.start + 1] == STAR && (b[r.start + 2] == STAR || b[r.start + 2] == BANG))
    &&& b[r.start + 1] == SLASH ==> {
        &&& forall|k: int| r.start <= k < r.end ==> b[k] != NEWLINE
        &&& r.end == b.len() || b[r.end as int] == NEWLINE
    }
}

/// The ranges come in source order and do not overlap.
pub open spec fn ranges_in_order(rs: Seq<ByteRange>) -> bool {
    forall|i: int, j: int| 0 <= i < j < rs.len() ==> rs[i].end <= rs[j].start
}

proof fn lemma_line_end_props(b: Seq<u8>, pos: int)
    requires
        0 <= pos <= b.len(),
    ensures
        forall|k: int| pos <= k < line_end(b, pos) ==> b[k] != NEWLINE,
        line_end(b, pos) == b.len() || b[line_end(b, pos)] == NEWLINE,
    decreases b.len() - pos,
{
    lemma_line_end_bounds(b, pos);
    if 0 <= pos < b.len() && b[pos] != NEWLINE {
        lemma_line_end_props(b, pos + 1);
    }
}

proof fn lemma_scan_from_well_formed(b: Seq<u8>, i: int)
    requires
        0 <= i,
        b.len() <= usize::MAX,
    ensures
        forall|k: int|
            0 <= k < scan_from(b, i).len() ==> #[trigger] scan_from(b, i)[k].start >= i
                && is_doc_comment_range(b, scan_from(b, i)[k]),
        ranges_in_order(scan_from(b, i)),
    decreases b.len() - i,
{
    if i < b.len() {
        lemma_scan_step_advances(b, i);
        let (next, found) = scan_step(b, i);
        lemma_scan_from_well_formed(b, next);
        let rest = scan_from(b, next);
        if let Some(r) = found {
            if starts_line_comment(b, i) && spec_skip_byte_string(b, i) is None && spec_skip_raw(
                b,
                i,
            ) is None && spec_skip_quoted(b, i, DOUBLE_QUOTE) is None && spec_skip_apostrophe(
                b,
                i,
            ) is None {
                lemma_line_end_props(b, i + 2);
            }
            let all = seq![r].add(rest);
            assert(scan_from(b, i) == all);
            assert forall|k: int| 0 <= k < all.len() implies #[trigger] all[k].start >= i
                && is_doc_comment_range(b, all[k]) by {
                if k > 0 {
                    assert(all[k] == rest[k - 1]);
                }
            }
            assert forall|x: int, y: int| 0 <= x < y < all.len() implies all[x].end
                <= all[y].start by {
                if x > 0 {
                    assert(all[x] == rest[x - 1]);
                }
                assert(all[y] == rest[y - 1]);
            }
        }
    }
}

/// Every recorded range is a doc comment of the source, and the ranges are
/// ordered and disjoint.
pub proof fn lemma_doc_comments_well_formed(b: Seq<u8>)
    requires
        b.len() <= usize::MAX,
    ensures
        forall|k: int|
            0 <= k < spec_doc_comments(b).len() ==> is_doc_comment_range(
                b,
                #[trigger] spec_doc_comments(b)[k],
            ),
        ranges_in_order(spec_doc_comments(b)),
{
    lemma_scan_from_well_formed(b, 0);
}

/// The scan of `b`, started at `from`, stops at position `i` on its way.
pub open spec fn scan_visits(b: Seq<u8>, from: int, i: int) -> bool
    decreases b.len() - from,
{
    if from == i {
        true
    } else if 0 <= from < i && from < scan_step(b, from).0 <= b.len() {
        scan_visits(b, scan_step(b, from).0, i)
    } else {
        false
    }
}

/// A literal (string, raw string, byte string or character) opens at `i`.
pub open spec fn opens_literal(b: Seq<u8>, i: int) -> bool {
    ||| spec_skip_byte_string(b, i) is Some
    ||| spec_skip_raw(b, i) is Some
    ||| spec_skip_quoted(b, i, DOUBLE_QUOTE) is Some
    ||| spec_skip_apostrophe(b, i) is Some
}

proof fn lemma_scan_passes(b: Seq<u8>, from: int, i: int, e: int)
    requires
        0 <= from,
        b.len() <= usize::MAX,
        scan_visits(b, from, i),
        forall|k: int| 0 <= k < scan_from(b, i).len() ==> #[trigger] scan_from(b, i)[k].start >= e,
    ensures
        from <= i,
        forall|k: int|
            0 <= k < scan_from(b, from).len() ==> #[trigger] scan_from(b, from)[k].end <= i
                || scan_from(b, from)[k].start >= e,
    decreases b.len() - from,
{
    if from != i {
        let (next, found) = scan_step(b, from);
        lemma_scan_passes(b, next, i, e);
        let rest = scan_from(b, next);
        if let Some(r) = found {
            assert(r.end == next);
            let all = seq![r].add(rest);
            assert(scan_from(b, from) == all);
            assert forall|k: int| 0 <= k < all.len() implies #[trigger] all[k].end <= i
                || all[k].start >= e by {
                if k > 0 {
                    assert(all[k] == rest[k - 1]);
                }
            }
        }
    }
}

/// What a literal holds is never taken for a doc comment: where the scan of
/// `b` meets a string, raw string, byte string or character literal at `i`,
/// every recorded doc comment ends before `i` or starts where the scan
/// resumes, after the literal.
pub proof fn lemma_literal_contents_never_recorded(b: Seq<u8>, i: int)
    requires
        b.len() <= usize::MAX,
        0 <= i < b.len(),
        scan_visits(b, 0, i),
        opens_literal(b, i),
    ensures
        forall|k: int|
            0 <= k < spec_doc_comments(b).len() ==> #[trigger] spec_doc_comments(b)[k].end <= i
                || spec_doc_comments(b)[k].start >= scan_step(b, i).0,
{
    lemma_scan_step_advances(b, i);
    let e = scan_step(b, i).0;
    assert(scan_step(b, i).1 is None);
    lemma_scan_from_well_formed(b, e);
    assert(scan_from(b, i) == scan_from(b, e));
    lemma_scan_passes(b, 0, i, e);
}

// ---------------------------------------------------------------------------
// Executable helpers
// ---------------------------------------------------------------------------

/// Width of the UTF-8 sequence introduced by `byte`.
pub fn utf8_char_len(byte: u8) -> (n: usize)
    ensures
        n == spec_utf8_char_len(byte),
{
    assert(byte & 0x80 == 0 <==> byte < 0x80) by (bit_vector);
    assert(byte & 0xE0 == 0xC0 <==> 0xC0 <= byte < 0xE0) by (bit_vector);
    assert(byte & 0xF0 == 0xE0 <==> 0xE0 <= byte < 0xF0) by (bit_vector);
    assert(byte & 0xF8 == 0xF0 <==> 0xF0 <= byte < 0xF8) by (bit_vector);
    if byte & 0x80 == 0 {
        1
    } else if byte & 0xE0 == 0xC0 {
        2
    } else if byte & 0xF0 == 0xE0 {
        3
    } else if byte & 0xF8 == 0xF0 {
        4
    } else {
        1
    }
}

fn is_ident(c: u8) -> (r: bool)
    ensures
        r == is_ident_byte(c),
{
    (LOWER_A <= c && c <= LOWER_Z) || (UPPER_A <= c && c <= UPPER_Z) || (DIGIT_0 <= c && c
        <= DIGIT_9) || c == UNDERSCORE
}

/// Skips a quoted literal opened by `quote` at `index`.
pub fn skip_quoted_literal(bytes: &[u8], index: usize, quote: u8) -> (r: Option<usize>)
    ensures
        opt_int(r) == spec_skip_quoted(bytes@, index as int, quote),
{
    let len = bytes.len();
    if index >= len || bytes[index] != quote {
        return None;
    }
    let mut pos = index + 1;
    while pos < len
        invariant
            len == bytes@.len(),
            index < len,
            bytes@[index as int] == quote,
            index + 1 <= pos <= len,
            quoted_close(bytes@, index + 1, quote) == quoted_close(bytes@, pos as int, quote),
        decreases len - pos,
    {
        if bytes[pos] == BACKSLASH {
            pos = if len - pos > 2 {
                pos + 2
            } else {
                len
            };
            continue;
        }
        if bytes[pos] == quote {
            return Some(pos + 1);
        }
        pos += 1;
    }
    Some(index + 1)
}

/// Skips a byte string literal `b"..."` starting at `index`.
pub fn skip_byte_string_literal(bytes: &[u8], index: usize) -> (r: Option<usize>)
    ensures
        opt_int(r) == spec_skip_byte_string(bytes@, index as int),
{
    if index < bytes.len() && bytes[index] == LOWER_B {
        skip_quoted_literal(bytes, index + 1, DOUBLE_QUOTE)
    } else {
        None
    }
}

/// Skips a raw string literal `r#*"..."#*` starting at `index`.
pub fn skip_raw_string_literal(bytes: &[u8], index: usize) -> (r: Option<usize>)
    ensures
        opt_int(r) == spec_skip_raw(bytes@, index as int),
{
    let len = bytes.len();
    if index >= len || bytes[index] != LOWER_R {
        return None;
    }
    let mut pos = index + 1;
    let mut hashes: usize = 0;
    while pos < len && bytes[pos] == HASH
        invariant
            len == bytes@.len(),
            index < len,
            pos == index + 1 + hashes,
            pos <= len,
            hash_run(bytes@, index + 1) == hashes + hash_run(bytes@, pos as int),
        decreases len - pos,
    {
        hashes += 1;
        pos += 1;
    }
    assert(hash_run(bytes@, pos as int) == 0);
    if pos >= len || bytes[pos] != DOUBLE_QUOTE {
        return None;
    }
    pos += 1;
    let ghost open = pos;
    while pos < len
        invariant
            len == bytes@.len(),
            index < len,
            open <= pos <= len,
            open == index + 2 + hashes,
            bytes@[index as int] == LOWER_R,
            bytes@[open - 1] == DOUBLE_QUOTE,
            hashes == hash_run(bytes@, index + 1),
            raw_close(bytes@, open as int, hashes as nat) == raw_close(
                bytes@,
                pos as int,
                hashes as nat,
            ),
        decreases len - pos,
    {
        if bytes[pos] == DOUBLE_QUOTE {
            let mut matched: usize = 0;
            while matched < hashes && len - pos - 1 > matched && bytes[pos + 1 + matched] == HASH
                invariant
                    len == bytes@.len(),
                    pos < len,
                    matched <= hashes,
                    pos + 1 + matched <= len,
                    hash_run(bytes@, pos + 1) >= matched,
                decreases hashes - matched,
            {
                proof {
                    lemma_hash_run_extend(bytes@, pos + 1, matched as nat);
                }
                matched += 1;
            }
            proof {
                if matched < hashes {
                    lemma_hash_run_extend(bytes@, pos + 1, matched as nat);
                }
            }
            if matched == hashes {
                assert(closes_raw(bytes@, pos as int, hashes as nat));
                return Some(pos + 1 + hashes);
            }
        }
        pos += 1;
    }
    Some(index + 1)
}

/// `'static` (not followed by more identifier bytes) starts at `pos`.
pub fn is_lifetime_static(bytes: &[u8], pos: usize) -> (r: bool)
    ensures
        r == spec_is_lifetime_static(bytes@, pos as int),
{
    let len = bytes.len();
    if pos > len || len - pos < 6 {
        return false;
    }
    let word = bytes[pos] == LOWER_S && bytes[pos + 1] == LOWER_T && bytes[pos + 2] == LOWER_A
        && bytes[pos + 3] == LOWER_T && bytes[pos + 4] == LOWER_I && bytes[pos + 5] == LOWER_C;
    assert(word <==> bytes@.subrange(pos as int, pos + 6) == static_bytes()) by {
        if word {
            assert(bytes@.subrange(pos as int, pos + 6) =~= static_bytes());
        }
        if bytes@.subrange(pos as int, pos + 6) == static_bytes() {
            assert(bytes@.subrange(pos as int, pos + 6)[0] == bytes@[pos as int]);
            assert(bytes@.subrange(pos as int, pos + 6)[1] == bytes@[pos + 1]);
            assert(bytes@.subrange(pos as int, pos + 6)[2] == bytes@[pos + 2]);
            assert(bytes@.subrange(pos as int, pos + 6)[3] == bytes@[pos + 3]);
            assert(bytes@.subrange(pos as int, pos + 6)[4] == bytes@[pos + 4]);
            assert(bytes@.subrange(pos as int, pos + 6)[5] == bytes@[pos + 5]);
        }
    }
    if !word {
        return false;
    }
    !(len - pos > 6 && is_ident(bytes[pos + 6]))
}

/// End of the identifier (lifetime name) that starts at `pos`.
pub fn lifetime_end(bytes: &[u8], pos: usize) -> (end: usize)
    ensures
        end == spec_lifetime_end(bytes@, pos as int),
{
    let mut end = pos;
    while end < bytes.len() && is_ident(bytes[end])
        invariant
            pos <= end,
            spec_lifetime_end(bytes@, pos as int) == spec_lifetime_end(bytes@, end as int),
        decreases bytes@.len() - end,
    {
        end += 1;
    }
    end
}

/// Skips a character literal opened at `index`.
pub fn skip_char_literal(bytes: &[u8], index: usize) -> (r: Option<usize>)
    requires
        index < usize::MAX,
    ensures
        opt_int(r) == spec_skip_char_literal(bytes@, index as int),
{
    let len = bytes.len();
    let mut pos = index + 1;
    if pos >= len {
        return Some(pos);
    }
    if bytes[pos] == BACKSLASH {
        pos += 1;
        if pos >= len {
            return Some(pos);
        }
        if bytes[pos] == LOWER_X {
            pos = if len - pos >= 3 {
                pos + 3
            } else {
                len
            };
        } else if bytes[pos] == LOWER_U && len - pos > 1 && bytes[pos + 1] == OPEN_BRACE {
            pos += 2;
            let ghost start = pos;
            while pos < len && bytes[pos] != CLOSE_BRACE
                invariant
                    start <= pos <= len,
                    len == bytes@.len(),
                    brace_close(bytes@, start as int) == brace_close(bytes@, pos as int),
                decreases len - pos,
            {
                pos += 1;
            }
            if pos < len {
                pos += 1;
            }
        } else {
            pos += 1;
        }
        assert(pos == char_body_end(bytes@, index as int));
        if pos < len && bytes[pos] == APOSTROPHE {
            Some(pos + 1)
        } else {
            Some(index + 1)
        }
    } else {
        let width = utf8_char_len(bytes[pos]);
        assert(pos + width == char_body_end(bytes@, index as int));
        if width < len - pos && bytes[pos + width] == APOSTROPHE {
            Some(pos + width + 1)
        } else {
            Some(index + 1)
        }
    }
}

/// Skips what an apostrophe at `index` opens: `'static`, a character
/// literal, or a lifetime.
pub fn skip_apostrophe(bytes: &[u8], index: usize) -> (r: Option<usize>)
    ensures
        opt_int(r) == spec_skip_apostrophe(bytes@, index as int),
{
    let len = bytes.len();
    if index >= len || bytes[index] != APOSTROPHE {
        return None;
    }
    let pos = index + 1;
    if pos >= len {
        return Some(pos);
    }
    if is_lifetime_static(bytes, pos) {
        return Some(pos + 6);
    }
    if bytes[pos] == BACKSLASH {
        return skip_char_literal(bytes, index);
    }
    if len - pos > 1 && bytes[pos + 1] == APOSTROPHE {
        return Some(pos + 2);
    }
    let c = bytes[pos];
    if (LOWER_A <= c && c <= LOWER_Z) || (UPPER_A <= c && c <= UPPER_Z) || c == UNDERSCORE {
        return Some(lifetime_end(bytes, pos));
    }
    skip_char_literal(bytes, index)
}

/// Records the byte ranges of all doc comments in `source`, in order.
/// String, raw string, byte string and character literals and lifetimes are
/// skipped, so comment-like text inside them is never recorded.
pub fn scan_doc_comments(source: &str) -> (ranges: Vec<ByteRange>)
    ensures
        ranges@ == spec_doc_comments(source.spec_bytes()),
{
    let bytes = source.as_bytes();
    let len = bytes.len();
    let mut ranges: Vec<ByteRange> = Vec::new();
    let mut index: usize = 0;
    while index < len
        invariant
            len == bytes@.len(),
            index <= len,
            ranges@ + scan_from(bytes@, index as int) == spec_doc_comments(bytes@),
        decreases len - index,
    {
        let ghost b = bytes@;
        let ghost i0 = index as int;
        proof {
            lemma_scan_step_advances(b, i0);
        }
        if let Some(end) = skip_byte_string_literal(bytes, index) {
            index = end;
            assert(scan_from(b, i0) == scan_from(b, index as int));
            continue;
        }
        if let Some(end) = skip_raw_string_literal(bytes, index) {
            index = end;
            assert(scan_from(b, i0) == scan_from(b, index as int));
            continue;
        }
        if let Some(end) = skip_quoted_literal(bytes, index, DOUBLE_QUOTE) {
            index = end;
            assert(scan_from(b, i0) == scan_from(b, index as int));
            continue;
        }
        if let Some(end) = skip_apostrophe(bytes, index) {
            index = end;
            assert(scan_from(b, i0) == scan_from(b, index as int));
            continue;
        }
        if bytes[index] == SLASH && len - index > 1 {
            if bytes[index + 1] == SLASH {
                let is_doc = len - index > 2 && (bytes[index + 2] == SLASH || bytes[index + 2]
                    == BANG);
                let start = index;
                index += 2;
                while index < len && bytes[index] != NEWLINE
                    invariant
                        len == bytes@.len(),
                        start + 2 <= index <= len,
                        line_end(bytes@, start + 2) == line_end(bytes@, index as int),
                    decreases len - index,
                {
                    index += 1;
                }
                let ghost before = ranges@;
                if is_doc {
                    ranges.push(ByteRange { start, end: index });
                    assert(scan_from(b, i0) == seq![ByteRange { start, end: index }].add(
                        scan_from(b, index as int),
                    ));
                    assert(ranges@ =~= before + seq![ByteRange { start, end: index }]);
                    assert(ranges@ + scan_from(b, index as int) =~= before + scan_from(b, i0));
                } else {
                    assert(scan_from(b, i0) == scan_from(b, index as int));
                }
                continue;
            }
            if bytes[index + 1] == STAR {
                let is_doc = len - index > 2 && (bytes[index + 2] == STAR || bytes[index + 2]
                    == BANG);
                let start = index;
                index += 2;
                let mut depth: usize = 1;
                while index < len && depth > 0
                    invariant
                        len == bytes@.len(),
                        start + 2 <= index <= len,
                        depth <= index,
                        block_end(bytes@, start + 2, 1) == block_end(
                            bytes@,
                            index as int,
                            depth as nat,
                        ),
                    decreases len - index,
                {
                    if len - index > 1 && bytes[index] == SLASH && bytes[index + 1] == STAR {
                        depth += 1;
                        index += 2;
                    } else if len - index > 1 && bytes[index] == STAR && bytes[index + 1]
                        == SLASH {
                        depth -= 1;
                        index += 2;
                    } else {
                        index += 1;
                    }
                }
                let ghost before = ranges@;
                if is_doc {
                    ranges.push(ByteRange { start, end: index });
                    assert(scan_from(b, i0) == seq![ByteRange { start, end: index }].add(
                        scan_from(b, index as int),
                    ));
                    assert(ranges@ =~= before + seq![ByteRange { start, end: index }]);
                    assert(ranges@ + scan_from(b, index as int) =~= before + scan_from(b, i0));
                } else {
                    assert(scan_from(b, i0) == scan_from(b, index as int));
                }
                continue;
            }
        }
        index += 1;
        assert(scan_from(b, i0) == scan_from(b, index as int));
    }
    assert(ranges@ =~= ranges@ + scan_from(bytes@, index as int));
    ranges
}

} // verus!
