//! Numeric arguments: decimal, or hexadecimal after `0x`.
use vstd::prelude::*;

use crate::error::{error_at, ErrorModel, KindModel, ParseError, ParseErrorKind};
use crate::text::bytes_of;

verus! {

/// Value of the digit `c` in base `radix` (10 or 16), if it is one.
pub open spec fn digit_value(c: u8, radix: int) -> Option<int> {
    if 0x30 <= c <= 0x39 {
        Some(c - 0x30)
    } else if radix == 16 && 0x61 <= c <= 0x66 {
        Some(c - 0x61 + 10)
    } else if radix == 16 && 0x41 <= c <= 0x46 {
        Some(c - 0x41 + 10)
    } else {
        None
    }
}

/// Every byte of `d` is a digit in base `radix`, and there is at least one.
pub open spec fn all_digits(d: Seq<u8>, radix: int) -> bool {
    d.len() > 0 && forall|i: int| 0 <= i < d.len() ==> (#[trigger] digit_value(d[i], radix)) is Some
}

/// The number that the digits `d` write in base `radix`.
pub open spec fn digits_value(d: Seq<u8>, radix: int) -> int
    decreases d.len(),
{
    if d.len() == 0 {
        0
    } else {
        digits_value(d.drop_last(), radix) * radix + digit_value(d.last(), radix)->0
    }
}

/// Whether `t` starts with `0x`.
pub open spec fn has_hex_prefix(t: Seq<u8>) -> bool {
    t.len() >= 2 && t[0] == 0x30 && t[1] == 0x78
}

/// The base in which `t` is written.
pub open spec fn radix_of(t: Seq<u8>) -> int {
    if has_hex_prefix(t) {
        16
    } else {
        10
    }
}

/// The digits of `t`, past any `0x` prefix.
pub open spec fn digits_of(t: Seq<u8>) -> Seq<u8> {
    if has_hex_prefix(t) {
        t.subrange(2, t.len() as int)
    } else {
        t
    }
}

/// The value of the numeric argument `t`, if it is well formed.
pub open spec fn number_value(t: Seq<u8>) -> Option<int> {
    if all_digits(digits_of(t), radix_of(t)) {
        Some(digits_value(digits_of(t), radix_of(t)))
    } else {
        None
    }
}

/// Reading the numeric argument `t`, found at `offset`, into a field whose
/// largest value is `max`.
pub open spec fn number_result(t: Seq<u8>, offset: int, max: int) -> Result<int, ErrorModel> {
    match number_value(t) {
        None => Err(error_at(KindModel::InvalidNumericalArgument(t), offset)),
        Some(v) => if v <= max {
            Ok(v)
        } else {
            Err(error_at(KindModel::NumberTooLarge(t), offset))
        },
    }
}

/// The abstract form of a 64-bit numeric result.
pub open spec fn num_view<'a>(r: Result<u64, ParseError<'a>>) -> Result<int, ErrorModel> {
    match r {
        Ok(v) => Ok(v as int),
        Err(e) => Err(e@),
    }
}

/// The abstract form of a 16-bit numeric result.
pub open spec fn num_view16<'a>(r: Result<u16, ParseError<'a>>) -> Result<int, ErrorModel> {
    match r {
        Ok(v) => Ok(v as int),
        Err(e) => Err(e@),
    }
}

proof fn lemma_digits_value_nonneg(d: Seq<u8>, radix: int)
    requires
        radix == 10 || radix == 16,
        forall|i: int| 0 <= i < d.len() ==> (#[trigger] digit_value(d[i], radix)) is Some,
    ensures
        digits_value(d, radix) >= 0,
    decreases d.len(),
{
    if d.len() > 0 {
        assert(digit_value(d[d.len() - 1], radix) is Some);
        lemma_digits_value_nonneg(d.drop_last(), radix);
        let v = digits_value(d.drop_last(), radix);
        assert(v * radix >= 0) by (nonlinear_arith)
            requires
                v >= 0,
                radix >= 10,
        ;
    }
}

/// A longer run of digits is worth at least as much as its prefix.
proof fn lemma_digits_prefix(d: Seq<u8>, i: int, radix: int)
    requires
        radix == 10 || radix == 16,
        0 <= i <= d.len(),
        forall|k: int| 0 <= k < d.len() ==> (#[trigger] digit_value(d[k], radix)) is Some,
    ensures
        digits_value(d.subrange(0, i), radix) <= digits_value(d, radix),
    decreases d.len(),
{
    if i < d.len() {
        let p = d.drop_last();
        assert(forall|k: int| 0 <= k < p.len() ==> p[k] == d[k]);
        lemma_digits_prefix(p, i, radix);
        assert(p.subrange(0, i) =~= d.subrange(0, i));
        lemma_digits_value_nonneg(p, radix);
        assert(digit_value(d[d.len() - 1], radix) is Some);
        let v = digits_value(p, radix);
        assert(v * radix >= v) by (nonlinear_arith)
            requires
                v >= 0,
                radix >= 10,
        ;
    } else {
        assert(d.subrange(0, i) =~= d);
    }
}

proof fn lemma_digits_step(d: Seq<u8>, k: int, radix: int)
    requires
        0 <= k < d.len(),
    ensures
        digits_value(d.subrange(0, k + 1), radix) == digits_value(d.subrange(0, k), radix) * radix
            + digit_value(d[k], radix)->0,
{
    let p = d.subrange(0, k + 1);
    assert(p.drop_last() =~= d.subrange(0, k));
    assert(p.last() == d[k]);
}

proof fn lemma_acc_bound(acc: u128, base: u128)
    requires
        acc <= u64::MAX,
        base <= 16,
    ensures
        acc * base + 15 <= u128::MAX,
{
    assert(acc * base <= u64::MAX * 16) by (nonlinear_arith)
        requires
            acc <= u64::MAX,
            base <= 16,
    ;
}

fn digit_of(c: u8, hex: bool) -> (r: Option<u8>)
    ensures
        r matches Some(v) ==> digit_value(c, if hex { 16 } else { 10 }) == Some(v as int),
        r is None ==> digit_value(c, if hex { 16 } else { 10 }) is None,
{
    if 0x30 <= c && c <= 0x39 {
        Some(c - 0x30)
    } else if hex && 0x61 <= c && c <= 0x66 {
        Some(c - 0x61 + 10)
    } else if hex && 0x41 <= c && c <= 0x46 {
        Some(c - 0x41 + 10)
    } else {
        None
    }
}

/// Reads a decimal or `0x`-hexadecimal number that fits in 64 bits.
pub(crate) fn parse_number<'a>(s: &'a str, offset: usize) -> (r: Result<u64, ParseError<'a>>)
    ensures
        num_view(r) == number_result(bytes_of(s), offset as int, u64::MAX as int),
        r matches Err(e) ==> e.kind == ParseErrorKind::InvalidNumericalArgument(s)
            || e.kind == ParseErrorKind::NumberTooLarge(s),
{
    let b = s.as_bytes();
    let ghost t = b@;
    let hex = b.len() >= 2 && b[0] == 0x30 && b[1] == 0x78;
    let start: usize = if hex { 2 } else { 0 };
    let ghost d = digits_of(t);
    let ghost radix = radix_of(t);
    assert(d =~= t.subrange(start as int, t.len() as int));
    let digits = vstd::slice::slice_subrange(b, start, b.len());
    assert(digits@ =~= d);
    if !are_digits(digits, hex) {
        return Err(ParseError::new(ParseErrorKind::InvalidNumericalArgument(s), offset));
    }
    match digits_to_u64(digits, hex) {
        Some(v) => Ok(v),
        None => Err(ParseError::new(ParseErrorKind::NumberTooLarge(s), offset)),
    }
}

/// Whether `d` is a non-empty run of digits.
fn are_digits(d: &[u8], hex: bool) -> (r: bool)
    ensures
        r == all_digits(d@, if hex { 16int } else { 10int }),
{
    let ghost radix: int = if hex { 16int } else { 10int };
    if d.len() == 0 {
        return false;
    }
    let mut i: usize = 0;
    while i < d.len()
        invariant
            i <= d@.len(),
            radix == if hex { 16int } else { 10int },
            forall|k: int| 0 <= k < i ==> (#[trigger] digit_value(d@[k], radix)) is Some,
        decreases d@.len() - i,
    {
        if digit_of(d[i], hex).is_none() {
            return false;
        }
        i = i + 1;
    }
    true
}

/// The value of a run of digits, when it fits in 64 bits.
fn digits_to_u64(d: &[u8], hex: bool) -> (r: Option<u64>)
    requires
        all_digits(d@, if hex { 16int } else { 10int }),
    ensures
        r matches Some(v) ==> v == digits_value(d@, if hex { 16int } else { 10int }),
        r is None ==> digits_value(d@, if hex { 16int } else { 10int }) > u64::MAX,
{
    let ghost radix: int = if hex { 16int } else { 10int };
    let mut acc: u128 = 0;
    let base: u128 = if hex { 16 } else { 10 };
    let mut i: usize = 0;
    while i < d.len()
        invariant
            i <= d@.len(),
            radix == base as int,
            radix == if hex { 16int } else { 10int },
            all_digits(d@, radix),
            acc as int == digits_value(d@.subrange(0, i as int), radix),
            acc <= u64::MAX,
        decreases d@.len() - i,
    {
        assert(digit_value(d@[i as int], radix) is Some);
        let v = digit_of(d[i], hex).unwrap();
        proof {
            lemma_digits_step(d@, i as int, radix);
            lemma_acc_bound(acc, base);
        }
        acc = acc * base + v as u128;
        i = i + 1;
        if acc > u64::MAX as u128 {
            proof {
                lemma_digits_prefix(d@, i as int, radix);
            }
            return None;
        }
    }
    assert(d@.subrange(0, i as int) =~= d@);
    Some(acc as u64)
}

/// Reads a number that fits in 16 bits.
pub(crate) fn parse_u16<'a>(s: &'a str, offset: usize) -> (r: Result<u16, ParseError<'a>>)
    ensures
        num_view16(r) == number_result(bytes_of(s), offset as int, u16::MAX as int),
{
    let number = parse_number(s, offset)?;
    if number > u16::MAX as u64 {
        return Err(ParseError::new(ParseErrorKind::NumberTooLarge(s), offset));
    }
    Ok(number as u16)
}

} // verus!
