//! Byte-level view of the input text: whitespace, character boundaries,
//! comparisons and slicing.
use vstd::prelude::*;
use vstd::string::StringSliceAdditionalSpecFns;
use vstd::utf8::*;

verus! {

broadcast use {
    is_char_boundary_iff_not_is_continuation_byte,
    is_char_boundary_start_end_of_seq,
    encode_utf8_valid_utf8,
    valid_utf8_split,
};

/// The UTF-8 bytes of a string slice.
pub open spec fn bytes_of(s: &str) -> Seq<u8> {
    s.spec_bytes()
}

/// Number of bytes of the whitespace character (Unicode `White_Space`) that
/// starts at byte `i` of `b`, or 0 when no whitespace character starts there.
pub open spec fn ws_width(b: Seq<u8>, i: int) -> int {
    if !(0 <= i < b.len()) {
        0
    } else if b[i] == 0x20 || (0x09 <= b[i] <= 0x0d) {
        1
    } else if b[i] == 0xc2 && i + 1 < b.len() && (b[i + 1] == 0x85 || b[i + 1] == 0xa0) {
        2
    } else if i + 2 < b.len() && (
        (b[i] == 0xe1 && b[i + 1] == 0x9a && b[i + 2] == 0x80)
        || (b[i] == 0xe2 && b[i + 1] == 0x80 && ((0x80 <= b[i + 2] <= 0x8a) || b[i + 2] == 0xa8
            || b[i + 2] == 0xa9 || b[i + 2] == 0xaf))
        || (b[i] == 0xe2 && b[i + 1] == 0x81 && b[i + 2] == 0x9f)
        || (b[i] == 0xe3 && b[i + 1] == 0x80 && b[i + 2] == 0x80)) {
        3
    } else {
        0
    }
}

/// Width in bytes of the UTF-8 encoding that starts with leading byte `c`.
pub open spec fn lead_width(c: u8) -> int {
    if c <= 0x7f {
        1
    } else if 0xc0 <= c <= 0xdf {
        2
    } else if 0xe0 <= c <= 0xef {
        3
    } else {
        4
    }
}

/// The bytes of every string slice are valid UTF-8.
pub proof fn lemma_str_valid(s: &str)
    ensures
        valid_utf8(bytes_of(s)),
{
}

/// A whitespace character starts on a character boundary and ends on one.
pub proof fn lemma_ws_boundaries(b: Seq<u8>, i: int)
    requires
        valid_utf8(b),
        ws_width(b, i) > 0,
    ensures
        is_char_boundary(b, i),
        is_char_boundary(b, i + ws_width(b, i)),
        lead_width(b[i]) == ws_width(b, i),
{
    lemma_step_boundary(b, i);
}

/// From a character boundary, the next boundary lies one encoded character
/// further on.
pub proof fn lemma_step_boundary(b: Seq<u8>, i: int)
    requires
        valid_utf8(b),
        0 <= i < b.len(),
        !is_continuation_byte(b[i]),
    ensures
        is_char_boundary(b, i),
        is_char_boundary(b, i + lead_width(b[i])),
        i + lead_width(b[i]) <= b.len(),
    decreases b.len(),
{
    if i == 0 {
        reveal_with_fuel(is_char_boundary, 2);
        assert(pop_first_scalar(b).len() == b.len() - length_of_first_scalar(b));
        is_char_boundary_start_end_of_seq(pop_first_scalar(b));
    } else {
        let l = length_of_first_scalar(b);
        let pop = pop_first_scalar(b);
        assert(pop.len() == b.len() - l);
        assert(pop[i - l] == b[i]);
        if i - l >= 0 {
            lemma_step_boundary(pop, i - l);
        }
        reveal_with_fuel(is_char_boundary, 2);
        if i < l {
            assert(is_continuation_byte(b[i]));
        }
    }
}

/// Compares two byte slices.
pub fn bytes_eq(a: &[u8], b: &[u8]) -> (r: bool)
    ensures
        r == (a@ == b@),
{
    if a.len() != b.len() {
        return false;
    }
    let mut i: usize = 0;
    while i < a.len()
        invariant
            a@.len() == b@.len(),
            i <= a@.len(),
            forall|k: int| 0 <= k < i ==> a@[k] == b@[k],
        decreases a@.len() - i,
    {
        if a[i] != b[i] {
            return false;
        }
        i = i + 1;
    }
    assert(a@ =~= b@);
    true
}

/// Compares two string slices by their bytes.
pub fn str_eq(a: &str, b: &str) -> (r: bool)
    ensures
        r == (bytes_of(a) == bytes_of(b)),
{
    bytes_eq(a.as_bytes(), b.as_bytes())
}

/// Whether `a` begins with the bytes of `p`.
pub fn starts_with(a: &str, p: &str) -> (r: bool)
    ensures
        r == (bytes_of(p).len() <= bytes_of(a).len() && bytes_of(a).subrange(
            0,
            bytes_of(p).len() as int,
        ) == bytes_of(p)),
{
    let x = a.as_bytes();
    let y = p.as_bytes();
    assert(x@ == bytes_of(a) && y@ == bytes_of(p));
    if y.len() > x.len() {
        return false;
    }
    let mut i: usize = 0;
    while i < y.len()
        invariant
            x@ == bytes_of(a),
            y@ == bytes_of(p),
            y@.len() <= x@.len(),
            i <= y@.len(),
            forall|k: int| 0 <= k < i ==> x@[k] == y@[k],
        decreases y@.len() - i,
    {
        if x[i] != y[i] {
            assert(x@.subrange(0, y@.len() as int)[i as int] != y@[i as int]);
            assert(x@.subrange(0, y@.len() as int) != y@);
            return false;
        }
        i = i + 1;
    }
    assert(x@.subrange(0, y@.len() as int) =~= y@);
    true
}

/// The part of `s` between two byte positions that lie on character
/// boundaries.
pub fn substr<'a>(s: &'a str, start: usize, end: usize) -> (r: &'a str)
    requires
        start <= end <= bytes_of(s).len(),
        is_char_boundary(bytes_of(s), start as int),
        is_char_boundary(bytes_of(s), end as int),
    ensures
        bytes_of(r) == bytes_of(s).subrange(start as int, end as int),
{
    let ghost b = bytes_of(s);
    proof {
        lemma_str_valid(s);
    }
    let (_, rest) = s.split_at(start);
    proof {
        let rb = bytes_of(rest);
        assert(rb =~= b.subrange(start as int, b.len() as int));
        assert(valid_utf8(rb));
        if end < b.len() {
            assert(!is_continuation_byte(b[end as int]));
            assert(rb[end - start] == b[end as int]);
            assert(!is_continuation_byte(rb[end - start]));
        } else {
            assert(is_char_boundary(rb, rb.len() as int));
        }
        assert(is_char_boundary(rb, end - start));
    }
    let (r, _) = rest.split_at(end - start);
    proof {
        assert(bytes_of(r) =~= b.subrange(start as int, end as int));
    }
    r
}

} // verus!

