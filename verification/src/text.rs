//! Small verified text utilities shared by the scanner and the chunker:
//! exact string comparison, UTF-8 slicing of source text, whitespace tests
//! and decimal rendering of numbers.

use vstd::prelude::*;
use vstd::string::*;
use vstd::utf8::*;
use vstd::std_specs::iter::IteratorSpec;
use vstd::slice::slice_subrange;

verus! {

broadcast use {encode_utf8_valid_utf8, encode_utf8_decode_utf8};

/// Whether `c` has the Unicode `White_Space` property: tab, line feed,
/// vertical tab, form feed, carriage return, space, next line, no-break
/// space, ogham space mark, the spaces from en quad to hair space, line and
/// paragraph separators, narrow no-break space, medium mathematical space
/// and ideographic space.
pub open spec fn unicode_white_space(c: char) -> bool {
    let u = c as u32;
    ||| 0x9 <= u <= 0xD
    ||| u == 0x20
    ||| u == 0x85
    ||| u == 0xA0
    ||| u == 0x1680
    ||| 0x2000 <= u <= 0x200A
    ||| u == 0x2028
    ||| u == 0x2029
    ||| u == 0x202F
    ||| u == 0x205F
    ||| u == 0x3000
}

/// `char::is_whitespace`: true exactly for the characters with the Unicode
/// `White_Space` property.
#[verifier::external_body]
pub(crate) fn char_is_whitespace(c: char) -> (r: bool)
    ensures
        r == unicode_white_space(c),
{
    c.is_whitespace()
}

/// Every character of `chars` is whitespace.
pub open spec fn all_white_space(chars: Seq<char>) -> bool {
    forall|k: int| 0 <= k < chars.len() ==> unicode_white_space(#[trigger] chars[k])
}

/// Checks that every character of `s` is whitespace.
pub fn is_all_whitespace(s: &str) -> (r: bool)
    ensures
        r == all_white_space(s@),
{
    let mut chars = s.chars();
    let ghost all = s@;
    let ghost mut seen: int = 0;
    loop
        invariant
            all == s@,
            0 <= seen <= all.len(),
            chars.obeys_prophetic_iter_laws(),
            chars.remaining() == all.subrange(seen, all.len() as int),
            forall|k: int| 0 <= k < seen ==> unicode_white_space(#[trigger] all[k]),
        decreases all.len() - seen,
    {
        let ghost before = chars.remaining();
        match chars.next() {
            None => {
                assert(before.len() == 0);
                assert(seen == all.len());
                return true;
            },
            Some(c) => {
                assert(c == all[seen]);
                if !char_is_whitespace(c) {
                    return false;
                }
                proof {
                    seen = seen + 1;
                }
                assert(chars.remaining() =~= all.subrange(seen, all.len() as int));
            },
        }
    }
}

/// The characters encoded by bytes `from..to` of `b`, when both ends lie on
/// character boundaries.
pub open spec fn slice_chars(b: Seq<u8>, from: int, to: int) -> Seq<char> {
    decode_utf8(b.subrange(from, to))
}

/// `from..to` is a valid slice of the UTF-8 text `b`.
pub open spec fn is_str_slice(b: Seq<u8>, from: int, to: int) -> bool {
    &&& 0 <= from <= to <= b.len()
    &&& is_char_boundary(b, from)
    &&& is_char_boundary(b, to)
}

proof fn lemma_boundary_in_suffix(b: Seq<u8>, from: int, to: int)
    requires
        valid_utf8(b),
        is_str_slice(b, from, to),
    ensures
        valid_utf8(b.subrange(from, b.len() as int)),
        is_char_boundary(b.subrange(from, b.len() as int), to - from),
{
    let rest = b.subrange(from, b.len() as int);
    valid_utf8_split(b, from);
    if to == b.len() {
        is_char_boundary_start_end_of_seq(rest);
        assert(rest.len() == to - from);
    } else {
        is_char_boundary_iff_not_is_continuation_byte(b, to);
        is_char_boundary_iff_not_is_continuation_byte(rest, to - from);
        assert(rest[to - from] == b[to]);
    }
}

/// The text of `source` between byte offsets `from` and `to`, or `None`
/// when that is not a slice of `source` (out of range or not on character
/// boundaries).
pub fn str_slice(source: &str, from: usize, to: usize) -> (r: Option<&str>)
    ensures
        is_str_slice(source.spec_bytes(), from as int, to as int) <==> r is Some,
        r matches Some(s) ==> s@ == slice_chars(source.spec_bytes(), from as int, to as int)
            && s.spec_bytes() == source.spec_bytes().subrange(from as int, to as int),
{
    let ghost b = source.spec_bytes();
    let n = source.as_bytes().len();
    if from > to || to > n {
        return None;
    }
    if !source.is_char_boundary(from) || !source.is_char_boundary(to) {
        return None;
    }
    proof {
        lemma_boundary_in_suffix(b, from as int, to as int);
    }
    let (_, rest) = source.split_at(from);
    let (piece, _) = rest.split_at(to - from);
    assert(piece.spec_bytes() =~= b.subrange(from as int, to as int));
    Some(piece)
}

/// The bytes `from..to` of `source` form a run of whitespace characters.
pub open spec fn gap_is_whitespace(b: Seq<u8>, from: int, to: int) -> bool {
    is_str_slice(b, from, to) && all_white_space(slice_chars(b, from, to))
}

/// Whether the text between byte offsets `from` and `to` of `source` is a
/// slice made only of whitespace.
pub fn is_whitespace_gap(source: &str, from: usize, to: usize) -> (r: bool)
    ensures
        r == gap_is_whitespace(source.spec_bytes(), from as int, to as int),
{
    match str_slice(source, from, to) {
        Some(gap) => is_all_whitespace(gap),
        None => false,
    }
}

/// Exact comparison of two strings.
pub fn str_eq(a: &str, b: &str) -> (r: bool)
    ensures
        r == (a@ == b@),
{
    let x = a.as_bytes();
    let y = b.as_bytes();
    proof {
        assert(decode_utf8(x@) == a@);
        assert(decode_utf8(y@) == b@);
    }
    if x.len() != y.len() {
        return false;
    }
    let mut i: usize = 0;
    while i < x.len()
        invariant
            x@.len() == y@.len(),
            x@ == a.spec_bytes(),
            y@ == b.spec_bytes(),
            i <= x@.len(),
            forall|k: int| 0 <= k < i ==> x@[k] == y@[k],
        decreases x@.len() - i,
    {
        if x[i] != y[i] {
            return false;
        }
        i += 1;
    }
    assert(x@ =~= y@);
    true
}

#[verifier::external_type_specification]
#[verifier::external_body]
pub struct ExUtf8Error(std::str::Utf8Error);

/// `std::str::from_utf8`: succeeds exactly when `v` is valid UTF-8, and
/// then returns the text that `v` encodes.
#[verifier::external_body]
pub(crate) fn str_from_utf8(v: &[u8]) -> (r: Result<&str, std::str::Utf8Error>)
    ensures
        r is Ok <==> valid_utf8(v@),
        r matches Ok(s) ==> s.spec_bytes() == v@,
{
    std::str::from_utf8(v)
}

/// The text encoded by bytes `from..to` of `b`, when that range lies within
/// `b` and holds valid UTF-8.
pub open spec fn bytes_text(b: Seq<u8>, from: int, to: int) -> Option<Seq<char>> {
    if 0 <= from <= to <= b.len() && valid_utf8(b.subrange(from, to)) {
        Some(decode_utf8(b.subrange(from, to)))
    } else {
        None
    }
}

/// Copies bytes `from..to` of `source` into a `String`, or reports why they
/// are not UTF-8 text.
pub fn text_between(source: &[u8], from: usize, to: usize) -> (r: Result<String, std::str::Utf8Error>)
    requires
        from <= to <= source@.len(),
    ensures
        r is Ok <==> bytes_text(source@, from as int, to as int) is Some,
        r matches Ok(t) ==> Some(t@) == bytes_text(source@, from as int, to as int),
{
    let piece = slice_subrange(source, from, to);
    match str_from_utf8(piece) {
        Ok(s) => {
            proof {
                assert(decode_utf8(s.spec_bytes()) == s@);
            }
            Ok(s.to_owned())
        },
        Err(e) => Err(e),
    }
}

/// The decimal digit `d` as a character.
pub open spec fn digit_char(d: nat) -> char {
    if d == 0 {
        '0'
    } else if d == 1 {
        '1'
    } else if d == 2 {
        '2'
    } else if d == 3 {
        '3'
    } else if d == 4 {
        '4'
    } else if d == 5 {
        '5'
    } else if d == 6 {
        '6'
    } else if d == 7 {
        '7'
    } else if d == 8 {
        '8'
    } else {
        '9'
    }
}

/// The decimal rendering of `n`, without leading zeros.
pub open spec fn decimal(n: nat) -> Seq<char>
    decreases n,
{
    if n < 10 {
        seq![digit_char(n)]
    } else {
        decimal(n / 10).push(digit_char(n % 10))
    }
}

fn digit_str(d: usize) -> (s: &'static str)
    requires
        d < 10,
    ensures
        s@ == seq![digit_char(d as nat)],
{
    proof {
        reveal_strlit("0");
        reveal_strlit("1");
        reveal_strlit("2");
        reveal_strlit("3");
        reveal_strlit("4");
        reveal_strlit("5");
        reveal_strlit("6");
        reveal_strlit("7");
        reveal_strlit("8");
        reveal_strlit("9");
    }
    if d == 0 {
        "0"
    } else if d == 1 {
        "1"
    } else if d == 2 {
        "2"
    } else if d == 3 {
        "3"
    } else if d == 4 {
        "4"
    } else if d == 5 {
        "5"
    } else if d == 6 {
        "6"
    } else if d == 7 {
        "7"
    } else if d == 8 {
        "8"
    } else {
        "9"
    }
}

/// Renders `n` in decimal.
pub fn decimal_string(n: usize) -> (s: String)
    ensures
        s@ == decimal(n as nat),
    decreases n,
{
    if n < 10 {
        digit_str(n).to_owned()
    } else {
        let mut s = decimal_string(n / 10);
        s.append(digit_str(n % 10));
        s
    }
}

} // verus!
