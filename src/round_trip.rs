//! What the writer prints, the reader reads back.
use vstd::prelude::*;
use vstd::utf8::{is_continuation_byte, valid_utf8};

use crate::number::{digit_value, digits_of, digits_value, has_hex_prefix, number_result, number_value};
use crate::parse_ref::{
    base_clause, empty_file, has_prefix, lemma_statement_keywords, name_statement, parse_from,
    parse_spec, size_args, statement, strip_quote, stub_statement, version_statement, FileModel,
};
use crate::render::{
    dec_digits, digit_char, hex_digits, hex_text, needs_quotes_spec, quoted, render_header, render_size, render_stub,
    render_version,
};
use crate::keywords::{is_reserved, lemma_reserved_first_byte};
use crate::text::{bytes_of, lead_width, lemma_step_boundary, ws_width};
use crate::token_iterator::{
    bare_end, cursor_start, is_single, quote_close, resting, skip_blank, spec_eaten, spec_next,
    spec_token, Cursor,
};

verus! {

pub proof fn lemma_hex_digits_read_back(n: nat)
    ensures
        forall|i: int|
            0 <= i < hex_digits(n).len() ==> (#[trigger] digit_value(hex_digits(n)[i], 16)) is Some,
        hex_digits(n).len() > 0,
        digits_value(hex_digits(n), 16) == n,
    decreases n,
{
    let d = hex_digits(n);
    assert(d.last() == digit_char((n % 16) as int));
    assert(digit_value(digit_char((n % 16) as int), 16) == Some((n % 16) as int));
    assert(digits_value(d, 16) == digits_value(d.drop_last(), 16) * 16 + (n % 16) as int);
    if n < 16 {
        assert(d.drop_last() =~= Seq::<u8>::empty());
        assert(n % 16 == n) by (nonlinear_arith)
            requires
                n < 16,
        ;
    } else {
        lemma_hex_digits_read_back(n / 16);
        assert(d.drop_last() =~= hex_digits(n / 16));
        assert((n / 16) * 16 + n % 16 == n) by (nonlinear_arith);
        assert forall|i: int| 0 <= i < d.len() implies (#[trigger] digit_value(d[i], 16)) is Some by {
            if i < d.len() - 1 {
                assert(d[i] == hex_digits(n / 16)[i]);
            }
        }
    }
}

pub proof fn lemma_dec_digits_read_back(n: nat)
    ensures
        forall|i: int|
            0 <= i < dec_digits(n).len() ==> (#[trigger] digit_value(dec_digits(n)[i], 10)) is Some,
        forall|i: int| 0 <= i < dec_digits(n).len() ==> 0x30 <= #[trigger] dec_digits(n)[i] <= 0x39,
        dec_digits(n).len() > 0,
        digits_value(dec_digits(n), 10) == n,
    decreases n,
{
    let d = dec_digits(n);
    assert(d.last() == digit_char((n % 10) as int));
    assert(digit_value(digit_char((n % 10) as int), 10) == Some((n % 10) as int));
    assert(digits_value(d, 10) == digits_value(d.drop_last(), 10) * 10 + (n % 10) as int);
    if n < 10 {
        assert(d.drop_last() =~= Seq::<u8>::empty());
        assert(n % 10 == n) by (nonlinear_arith)
            requires
                n < 10,
        ;
    } else {
        lemma_dec_digits_read_back(n / 10);
        assert(d.drop_last() =~= dec_digits(n / 10));
        assert((n / 10) * 10 + n % 10 == n) by (nonlinear_arith);
        assert forall|i: int| 0 <= i < d.len() implies (#[trigger] digit_value(d[i], 10)) is Some
            && 0x30 <= d[i] <= 0x39 by {
            if i < d.len() - 1 {
                assert(d[i] == dec_digits(n / 10)[i]);
            }
        }
    }
}

/// What the writer prints for a number the reader reads back as that
/// number: in hexadecimal after `0x`, and in decimal.
pub proof fn lemma_number_round_trip(n: nat)
    ensures
        number_value(hex_text(n)) == Some(n as int),
        number_value(dec_digits(n)) == Some(n as int),
{
    lemma_hex_digits_read_back(n);
    lemma_dec_digits_read_back(n);
    assert(digits_of(hex_text(n)) =~= hex_digits(n));
    assert(!has_hex_prefix(dec_digits(n))) by {
        if dec_digits(n).len() >= 2 {
            assert(0x30 <= dec_digits(n)[1] <= 0x39);
        }
    }
}

/// An unquoted token runs over bytes that are neither whitespace nor
/// single-byte tokens, up to the first that is.
proof fn lemma_bare_run(b: Seq<u8>, j: int, k: int, dot: bool)
    requires
        0 <= j <= k <= b.len(),
        forall|i: int| j <= i < k ==> ws_width(b, i) == 0 && !is_single(#[trigger] b[i], dot),
        k < b.len() ==> ws_width(b, k) > 0 || is_single(b[k], dot),
    ensures
        bare_end(b, j, dot) == k,
    decreases k - j,
{
    if j < k {
        lemma_bare_run(b, j + 1, k, dot);
    }
}

/// The bytes of `0x` and hexadecimal digits are none of whitespace,
/// separators, quotes or comment starts.
proof fn lemma_hex_text_plain(n: nat)
    ensures
        hex_text(n).len() >= 3,
        hex_text(n)[0] == 0x30,
        forall|i: int|
            0 <= i < hex_text(n).len() ==> (0x30 <= #[trigger] hex_text(n)[i] <= 0x39) || (0x41
                <= hex_text(n)[i] <= 0x46) || (0x61 <= hex_text(n)[i] <= 0x66) || hex_text(n)[i]
                == 0x78,
{
    lemma_hex_digits_read_back(n);
    let h = hex_text(n);
    assert forall|i: int| 0 <= i < h.len() implies (0x30 <= #[trigger] h[i] <= 0x39) || (0x41
        <= h[i] <= 0x46) || (0x61 <= h[i] <= 0x66) || h[i] == 0x78 by {
        if i >= 2 {
            assert(h[i] == hex_digits(n)[i - 2]);
            assert(digit_value(hex_digits(n)[i - 2], 16) is Some);
        }
    }
}

proof fn lemma_literals()
    ensures
        bytes_of("HEAPSIZE ") =~= bytes_of("HEAPSIZE") + seq![0x20u8],
        bytes_of("HEAPSIZE") =~= seq![0x48u8, 0x45, 0x41, 0x50, 0x53, 0x49, 0x5a, 0x45],
        bytes_of("STACKSIZE ") =~= bytes_of("STACKSIZE") + seq![0x20u8],
        bytes_of("STACKSIZE") =~= seq![0x53u8, 0x54, 0x41, 0x43, 0x4b, 0x53, 0x49, 0x5a, 0x45],
        bytes_of(",") =~= seq![0x2cu8],
        bytes_of("\n") =~= seq![0x0au8],
        bytes_of("VERSION").len() == 7 && bytes_of("VERSION")[0] == 0x56,
{
    reveal_strlit("HEAPSIZE ");
    reveal_strlit("HEAPSIZE");
    reveal_strlit("STACKSIZE ");
    reveal_strlit("STACKSIZE");
    reveal_strlit(",");
    reveal_strlit("\n");
    reveal_strlit("VERSION");
    vstd::string::is_ascii_spec_bytes("HEAPSIZE ");
    vstd::string::is_ascii_spec_bytes("HEAPSIZE");
    vstd::string::is_ascii_spec_bytes("STACKSIZE ");
    vstd::string::is_ascii_spec_bytes("STACKSIZE");
    vstd::string::is_ascii_spec_bytes(",");
    vstd::string::is_ascii_spec_bytes("\n");
    vstd::string::is_ascii_spec_bytes("VERSION");
}

/// The keyword `kw` of capital letters at the start of a written line,
/// followed by a space and a number.
proof fn lemma_keyword_step(b: Seq<u8>, kw: Seq<u8>)
    requires
        kw.len() > 0,
        kw != bytes_of("VERSION"),
        forall|i: int| 0 <= i < kw.len() ==> 0x41 <= #[trigger] kw[i] <= 0x5a,
        b.len() > kw.len() as int + 1,
        b.subrange(0, kw.len() as int + 1) == kw + seq![0x20u8],
        skip_blank(b, kw.len() as int + 1, false) == kw.len() as int + 1,
    ensures
        spec_token(b, cursor_start(b)) == Some(kw),
        spec_eaten(b, cursor_start(b)) == (Cursor { offset: kw.len() as int + 1, window: 0 }),
{
    lemma_literals();
    let n = kw.len() as int;
    assert forall|i: int| 0 <= i < n implies #[trigger] b[i] == kw[i] by {
        assert(b[i] == b.subrange(0, n + 1)[i]);
    }
    assert(b[n] == b.subrange(0, n + 1)[n]);
    let c0 = cursor_start(b);
    assert(skip_blank(b, 0, false) == 0);
    assert forall|i: int| 1 <= i < n implies ws_width(b, i) == 0 && !is_single(#[trigger] b[i], false) by {
        assert(b[i] == kw[i]);
    }
    lemma_bare_run(b, 1, n, false);
    assert(spec_next(b, c0) == Some((0int, n, n)));
    assert(b.subrange(0, n) =~= kw);
    assert(skip_blank(b, n, false) == n + 1);
}

/// A written number at `s`, followed by a separator or a line end, is read
/// back as that number.
proof fn lemma_number_step(b: Seq<u8>, s: int, n: nat)
    requires
        0 <= s,
        s + hex_text(n).len() < b.len(),
        b.subrange(s, s + hex_text(n).len()) == hex_text(n),
        b[s + hex_text(n).len()] == 0x2c || b[s + hex_text(n).len()] == 0x0a,
    ensures
        spec_token(b, Cursor { offset: s, window: 0 }) == Some(hex_text(n)),
        number_result(hex_text(n), s, u64::MAX as int) == (if n <= u64::MAX {
            Ok::<int, crate::error::ErrorModel>(n as int)
        } else {
            number_result(hex_text(n), s, u64::MAX as int)
        }),
        spec_eaten(b, Cursor { offset: s, window: 0 }) == (Cursor {
            offset: resting(b, s + hex_text(n).len()),
            window: 0,
        }),
{
    lemma_literals();
    lemma_hex_text_plain(n);
    lemma_number_round_trip(n);
    let h = hex_text(n);
    let e: int = s + h.len() as int;
    assert forall|i: int| s <= i < e implies #[trigger] b[i] == h[i - s] by {
        assert(b[i] == b.subrange(s, e)[i - s]);
    }
    assert(skip_blank(b, s, false) == s);
    assert forall|i: int| s + 1 <= i < e implies ws_width(b, i) == 0 && !is_single(#[trigger] b[i], false) by {
        assert(b[i] == h[i - s]);
    }
    lemma_bare_run(b, s + 1, e, false);
    assert(b.subrange(s, e) =~= h);
    assert(h != bytes_of("VERSION")) by {
        if h == bytes_of("VERSION") {
            assert(h[0] == 0x30);
        }
    }
}

#[verifier::rlimit(80)]
proof fn lemma_size_without_commit(heap: bool, r: u64, c: Option<u64>)
    requires
        c is None,
    ensures
        parse_spec(
            render_size(if heap { bytes_of("HEAPSIZE ") } else { bytes_of("STACKSIZE ") }, Some(r), c),
        ) == Ok::<FileModel, crate::error::ErrorModel>(
            if heap {
                FileModel { heap_reserve: Some(r), heap_commit: c, ..empty_file() }
            } else {
                FileModel { stack_reserve: Some(r), stack_commit: c, ..empty_file() }
            },
        ),
{
    lemma_literals();
    lemma_hex_text_plain(r as nat);
    lemma_statement_keywords();
    let kw = if heap { bytes_of("HEAPSIZE") } else { bytes_of("STACKSIZE") };
    let kw_sp = if heap { bytes_of("HEAPSIZE ") } else { bytes_of("STACKSIZE ") };
    let n = kw.len() as int;
    let h1 = hex_text(r as nat);
    let tail = match c {
        Some(v) => bytes_of(",") + hex_text(v as nat),
        None => Seq::<u8>::empty(),
    };
    let b = kw_sp + h1 + tail + bytes_of("\n");
    assert(b == render_size(kw_sp, Some(r), c));
    let e1: int = n + 1 + h1.len() as int;
    assert(b.subrange(0, n + 1) =~= kw + seq![0x20u8]);
    assert(b[n + 1] == 0x30u8);
    assert(skip_blank(b, n + 1, false) == n + 1);
    lemma_keyword_step(b, kw);
    let c0 = cursor_start(b);
    let c1 = spec_eaten(b, c0);
    assert(b.subrange(n + 1, e1) =~= h1);
    if c is Some {
        assert(b[e1] == 0x2cu8);
    } else {
        assert(b[e1] == 0x0au8);
    }
    lemma_number_step(b, n + 1, r as nat);
    let c2 = spec_eaten(b, c1);
    let f = if heap {
        FileModel { heap_reserve: Some(r), heap_commit: c, ..empty_file() }
    } else {
        FileModel { stack_reserve: Some(r), stack_commit: c, ..empty_file() }
    };
    reveal(statement);
    assert(skip_blank(b, e1 + 1, false) == b.len());
    assert(skip_blank(b, e1, false) == b.len());
    assert(c2 == Cursor { offset: e1, window: 0 });
    assert(spec_token(b, c2) is None);
    assert(size_args(b, c1, kw) == Ok::<
        (Cursor, u64, Option<u64>),
        crate::error::ErrorModel,
    >((c2, r, None)));
    assert(parse_from(b, c2, f) == Ok::<FileModel, crate::error::ErrorModel>(f));
}

#[verifier::rlimit(80)]
proof fn lemma_size_with_commit(heap: bool, r: u64, c: Option<u64>)
    requires
        c is Some,
    ensures
        parse_spec(
            render_size(if heap { bytes_of("HEAPSIZE ") } else { bytes_of("STACKSIZE ") }, Some(r), c),
        ) == Ok::<FileModel, crate::error::ErrorModel>(
            if heap {
                FileModel { heap_reserve: Some(r), heap_commit: c, ..empty_file() }
            } else {
                FileModel { stack_reserve: Some(r), stack_commit: c, ..empty_file() }
            },
        ),
{
    lemma_literals();
    lemma_hex_text_plain(r as nat);
    lemma_statement_keywords();
    let kw = if heap { bytes_of("HEAPSIZE") } else { bytes_of("STACKSIZE") };
    let kw_sp = if heap { bytes_of("HEAPSIZE ") } else { bytes_of("STACKSIZE ") };
    let n = kw.len() as int;
    let h1 = hex_text(r as nat);
    let tail = match c {
        Some(v) => bytes_of(",") + hex_text(v as nat),
        None => Seq::<u8>::empty(),
    };
    let b = kw_sp + h1 + tail + bytes_of("\n");
    assert(b == render_size(kw_sp, Some(r), c));
    let e1: int = n + 1 + h1.len() as int;
    assert(b.subrange(0, n + 1) =~= kw + seq![0x20u8]);
    assert(b[n + 1] == 0x30u8);
    assert(skip_blank(b, n + 1, false) == n + 1);
    lemma_keyword_step(b, kw);
    let c0 = cursor_start(b);
    let c1 = spec_eaten(b, c0);
    assert(b.subrange(n + 1, e1) =~= h1);
    if c is Some {
        assert(b[e1] == 0x2cu8);
    } else {
        assert(b[e1] == 0x0au8);
    }
    lemma_number_step(b, n + 1, r as nat);
    let c2 = spec_eaten(b, c1);
    let f = if heap {
        FileModel { heap_reserve: Some(r), heap_commit: c, ..empty_file() }
    } else {
        FileModel { stack_reserve: Some(r), stack_commit: c, ..empty_file() }
    };
    reveal(statement);
    let v = c.unwrap();
    let h2 = hex_text(v as nat);
    lemma_hex_text_plain(v as nat);
    let e2: int = e1 + 1 + h2.len() as int;
    assert(b.len() == e2 + 1);
    assert(b[e1 + 1] == 0x30u8);
    assert(skip_blank(b, e1, false) == e1);
    assert(c2 == Cursor { offset: e1, window: 0 });
    assert(spec_next(b, c2) == Some((e1, e1 + 1, e1 + 1)));
    assert(b.subrange(e1, e1 + 1) =~= bytes_of(","));
    assert(skip_blank(b, e1 + 1, false) == e1 + 1);
    let c3 = spec_eaten(b, c2);
    assert(bytes_of(",") != bytes_of("VERSION"));
    assert(c3 == Cursor { offset: e1 + 1, window: 0 });
    assert(b.subrange(e1 + 1, e2) =~= h2);
    assert(b[e2] == 0x0au8);
    lemma_number_step(b, e1 + 1, v as nat);
    let c4 = spec_eaten(b, c3);
    assert(skip_blank(b, e2 + 1, false) == b.len());
    assert(skip_blank(b, e2, false) == b.len());
    assert(c4 == Cursor { offset: e2, window: 0 });
    assert(spec_token(b, c4) is None);
    assert(size_args(b, c1, kw) == Ok::<
        (Cursor, u64, Option<u64>),
        crate::error::ErrorModel,
    >((c4, r, Some(v))));
    assert(parse_from(b, c4, f) == Ok::<FileModel, crate::error::ErrorModel>(f));
}

/// Reading back a written `HEAPSIZE` line (`heap`) or `STACKSIZE` line
/// gives the sizes it was written from, and nothing else.
pub proof fn lemma_size_round_trip(heap: bool, r: u64, c: Option<u64>)
    ensures
        parse_spec(
            render_size(if heap { bytes_of("HEAPSIZE ") } else { bytes_of("STACKSIZE ") }, Some(r), c),
        ) == Ok::<FileModel, crate::error::ErrorModel>(
            if heap {
                FileModel { heap_reserve: Some(r), heap_commit: c, ..empty_file() }
            } else {
                FileModel { stack_reserve: Some(r), stack_commit: c, ..empty_file() }
            },
        ),
{
    if c is Some {
        lemma_size_with_commit(heap, r, c);
    } else {
        lemma_size_without_commit(heap, r, c);
    }
}

proof fn lemma_version_literals()
    ensures
        bytes_of("VERSION ") =~= bytes_of("VERSION") + seq![0x20u8],
        bytes_of("VERSION") =~= seq![0x56u8, 0x45, 0x52, 0x53, 0x49, 0x4f, 0x4e],
        bytes_of(".") =~= seq![0x2eu8],
        bytes_of("\n") =~= seq![0x0au8],
{
    reveal_strlit("VERSION ");
    reveal_strlit("VERSION");
    reveal_strlit(".");
    reveal_strlit("\n");
    vstd::string::is_ascii_spec_bytes("VERSION ");
    vstd::string::is_ascii_spec_bytes("VERSION");
    vstd::string::is_ascii_spec_bytes(".");
    vstd::string::is_ascii_spec_bytes("\n");
}

/// The `VERSION` keyword at the start of a written line opens the window in
/// which `.` stands alone.
proof fn lemma_version_keyword_step(b: Seq<u8>)
    requires
        b.len() > 9,
        b.subrange(0, 8) == bytes_of("VERSION "),
        0x30 <= b[8] <= 0x39,
    ensures
        spec_token(b, cursor_start(b)) == Some(bytes_of("VERSION")),
        spec_eaten(b, cursor_start(b)) == (Cursor { offset: 8, window: 1 }),
{
    lemma_version_literals();
    assert forall|i: int| 0 <= i < 8 implies #[trigger] b[i] == bytes_of("VERSION ")[i] by {
        assert(b[i] == b.subrange(0, 8)[i]);
    }
    let c0 = cursor_start(b);
    assert(skip_blank(b, 0, false) == 0);
    assert forall|i: int| 1 <= i < 7 implies ws_width(b, i) == 0 && !is_single(#[trigger] b[i], false) by {
        assert(b[i] == bytes_of("VERSION ")[i]);
    }
    lemma_bare_run(b, 1, 7, false);
    assert(spec_next(b, c0) == Some((0int, 7int, 7int)));
    assert(b.subrange(0, 7) =~= bytes_of("VERSION"));
    assert(skip_blank(b, 8, false) == 8);
    assert(skip_blank(b, 7, false) == 8);
}

/// A written decimal number at `s`, ended by a line end or, while `.` stands
/// alone, by a `.`, is read back as that number.
proof fn lemma_decimal_step(b: Seq<u8>, s: int, n: nat, w: u8)
    requires
        0 <= s,
        w <= 2,
        s + dec_digits(n).len() < b.len(),
        b.subrange(s, s + dec_digits(n).len() as int) == dec_digits(n),
        b[s + dec_digits(n).len()] == 0x0a || (w != 0 && b[s + dec_digits(n).len()] == 0x2e),
    ensures
        spec_token(b, Cursor { offset: s, window: w }) == Some(dec_digits(n)),
        number_value(dec_digits(n)) == Some(n as int),
        spec_eaten(b, Cursor { offset: s, window: w }) == (Cursor {
            offset: resting(b, s + dec_digits(n).len()),
            window: if w == 1 {
                2u8
            } else {
                0u8
            },
        }),
{
    lemma_version_literals();
    lemma_dec_digits_read_back(n);
    lemma_number_round_trip(n);
    let d = dec_digits(n);
    let e: int = s + d.len() as int;
    let dot = w != 0;
    assert forall|i: int| s <= i < e implies #[trigger] b[i] == d[i - s] by {
        assert(b[i] == b.subrange(s, e)[i - s]);
    }
    assert(0x30 <= d[0] <= 0x39);
    assert(skip_blank(b, s, false) == s);
    assert forall|i: int| s + 1 <= i < e implies ws_width(b, i) == 0 && !is_single(#[trigger] b[i], dot) by {
        assert(b[i] == d[i - s]);
        assert(0x30 <= d[i - s] <= 0x39);
    }
    lemma_bare_run(b, s + 1, e, dot);
    assert(b.subrange(s, e) =~= d);
    assert(d != bytes_of("VERSION")) by {
        if d == bytes_of("VERSION") {
            assert(d[0] == 0x56);
        }
    }
}

#[verifier::rlimit(80)]
proof fn lemma_version_without_minor(major: u16, minor: Option<u16>)
    requires
        minor is None,
    ensures
        parse_spec(render_version(Some(major), minor)) == Ok::<FileModel, crate::error::ErrorModel>(
            FileModel { major_version: Some(major), minor_version: minor, ..empty_file() },
        ),
{
    lemma_version_literals();
    lemma_statement_keywords();
    lemma_dec_digits_read_back(major as nat);
    let d1 = dec_digits(major as nat);
    let tail = match minor {
        Some(v) => bytes_of(".") + dec_digits(v as nat),
        None => Seq::<u8>::empty(),
    };
    let b = bytes_of("VERSION ") + d1 + tail + bytes_of("\n");
    assert(b == render_version(Some(major), minor));
    let e1: int = 8 + d1.len() as int;
    assert(b.subrange(0, 8) =~= bytes_of("VERSION "));
    assert(b[8] == d1[0]);
    lemma_version_keyword_step(b);
    let c0 = cursor_start(b);
    let c1 = spec_eaten(b, c0);
    assert(b.subrange(8, e1) =~= d1);
    if minor is Some {
        assert(b[e1] == 0x2eu8);
    } else {
        assert(b[e1] == 0x0au8);
    }
    lemma_decimal_step(b, 8, major as nat, 1);
    let c2 = spec_eaten(b, c1);
    let f = FileModel { major_version: Some(major), minor_version: minor, ..empty_file() };
    reveal(statement);
    assert(skip_blank(b, e1 + 1, false) == b.len());
    assert(skip_blank(b, e1, false) == b.len());
    assert(c2 == Cursor { offset: e1, window: 2 });
    assert(spec_token(b, c2) is None);
    assert(version_statement(b, c1, empty_file()) == Ok::<
        (Cursor, FileModel),
        crate::error::ErrorModel,
    >((c2, f)));
    assert(parse_from(b, c2, f) == Ok::<FileModel, crate::error::ErrorModel>(f));
}

#[verifier::rlimit(80)]
proof fn lemma_version_with_minor(major: u16, minor: Option<u16>)
    requires
        minor is Some,
    ensures
        parse_spec(render_version(Some(major), minor)) == Ok::<FileModel, crate::error::ErrorModel>(
            FileModel { major_version: Some(major), minor_version: minor, ..empty_file() },
        ),
{
    lemma_version_literals();
    lemma_statement_keywords();
    lemma_dec_digits_read_back(major as nat);
    let d1 = dec_digits(major as nat);
    let tail = match minor {
        Some(v) => bytes_of(".") + dec_digits(v as nat),
        None => Seq::<u8>::empty(),
    };
    let b = bytes_of("VERSION ") + d1 + tail + bytes_of("\n");
    assert(b == render_version(Some(major), minor));
    let e1: int = 8 + d1.len() as int;
    assert(b.subrange(0, 8) =~= bytes_of("VERSION "));
    assert(b[8] == d1[0]);
    lemma_version_keyword_step(b);
    let c0 = cursor_start(b);
    let c1 = spec_eaten(b, c0);
    assert(b.subrange(8, e1) =~= d1);
    if minor is Some {
        assert(b[e1] == 0x2eu8);
    } else {
        assert(b[e1] == 0x0au8);
    }
    lemma_decimal_step(b, 8, major as nat, 1);
    let c2 = spec_eaten(b, c1);
    let f = FileModel { major_version: Some(major), minor_version: minor, ..empty_file() };
    reveal(statement);
    let v = minor.unwrap();
    let d2 = dec_digits(v as nat);
    lemma_dec_digits_read_back(v as nat);
    let e2: int = e1 + 1 + d2.len() as int;
    assert(b.len() == e2 + 1);
    assert(b[e1 + 1] == d2[0]);
    assert(skip_blank(b, e1, false) == e1);
    assert(c2 == Cursor { offset: e1, window: 2 });
    assert(spec_next(b, c2) == Some((e1, e1 + 1, e1 + 1)));
    assert(b.subrange(e1, e1 + 1) =~= bytes_of("."));
    assert(skip_blank(b, e1 + 1, false) == e1 + 1);
    let c3 = spec_eaten(b, c2);
    assert(bytes_of(".") != bytes_of("VERSION"));
    assert(c3 == Cursor { offset: e1 + 1, window: 0 });
    assert(b.subrange(e1 + 1, e2) =~= d2);
    assert(b[e2] == 0x0au8);
    lemma_decimal_step(b, e1 + 1, v as nat, 0);
    let c4 = spec_eaten(b, c3);
    assert(skip_blank(b, e2 + 1, false) == b.len());
    assert(skip_blank(b, e2, false) == b.len());
    assert(c4 == Cursor { offset: e2, window: 0 });
    assert(spec_token(b, c4) is None);
    assert(version_statement(b, c1, empty_file()) == Ok::<
        (Cursor, FileModel),
        crate::error::ErrorModel,
    >((c4, f)));
    assert(parse_from(b, c4, f) == Ok::<FileModel, crate::error::ErrorModel>(f));
}

/// Reading back a written `VERSION` line gives the numbers it was written
/// from, and nothing else.
pub proof fn lemma_version_round_trip(major: u16, minor: Option<u16>)
    ensures
        parse_spec(render_version(Some(major), minor)) == Ok::<FileModel, crate::error::ErrorModel>(
            FileModel { major_version: Some(major), minor_version: minor, ..empty_file() },
        ),
{
    if minor is Some {
        lemma_version_with_minor(major, minor);
    } else {
        lemma_version_without_minor(major, minor);
    }
}

/// A name that reads back as itself once written: not empty; free of `"`
/// when it is written in quotes; when it is written bare, not starting with
/// `"` and free of whitespace and of `,` `:` `=`.
pub open spec fn reads_back(t: Seq<u8>) -> bool {
    &&& t.len() > 0
    &&& if needs_quotes_spec(t) {
        !t.contains(0x22)
    } else {
        t[0] != 0x22 && forall|i: int|
            0 <= i < t.len() ==> ws_width(t, i) == 0 && !is_single(#[trigger] t[i], false)
    }
}

/// Inside valid UTF-8 text copied into `b` at `off`, no whitespace starts
/// where none starts in the text itself.
proof fn lemma_ws_local(b: Seq<u8>, t: Seq<u8>, off: int, i: int)
    requires
        valid_utf8(t),
        0 <= off,
        off + t.len() <= b.len(),
        b.subrange(off, off + t.len() as int) == t,
        0 <= i < t.len(),
        ws_width(t, i) == 0,
    ensures
        ws_width(b, off + i) == 0,
{
    assert(b[off + i] == t[i]);
    let c = t[i];
    if c == 0xc2 || c == 0xe1 || c == 0xe2 || c == 0xe3 {
        assert(!is_continuation_byte(c));
        lemma_step_boundary(t, i);
        assert(i + lead_width(c) <= t.len());
        assert(b[off + i + 1] == t[i + 1]);
        if lead_width(c) == 3 {
            assert(b[off + i + 2] == t[i + 2]);
        }
    }
}

proof fn lemma_stub_literals()
    ensures
        bytes_of("STUB:") =~= bytes_of("STUB") + bytes_of(":"),
        bytes_of("STUB") =~= seq![0x53u8, 0x54, 0x55, 0x42],
        bytes_of(":") =~= seq![0x3au8],
        bytes_of("\n") =~= seq![0x0au8],
        bytes_of("VERSION").len() == 7,
{
    reveal_strlit("STUB:");
    reveal_strlit("STUB");
    reveal_strlit(":");
    reveal_strlit("\n");
    reveal_strlit("VERSION");
    vstd::string::is_ascii_spec_bytes("VERSION");
    vstd::string::is_ascii_spec_bytes("STUB:");
    vstd::string::is_ascii_spec_bytes("STUB");
    vstd::string::is_ascii_spec_bytes(":");
    vstd::string::is_ascii_spec_bytes("\n");
}

/// The token that a written name gives back: with its opening quote when
/// it is written in quotes.
pub open spec fn name_token(t: Seq<u8>) -> Seq<u8> {
    if needs_quotes_spec(t) {
        seq![0x22u8] + t
    } else {
        t
    }
}

/// A name written at `off` and followed by a space or a line end is read
/// back as one token.
proof fn lemma_name_step(b: Seq<u8>, t: Seq<u8>, off: int)
    requires
        valid_utf8(t),
        reads_back(t),
        0 <= off,
        off + quoted(t).len() < b.len(),
        b.subrange(off, off + quoted(t).len() as int) == quoted(t),
        b[off + quoted(t).len()] == 0x20 || b[off + quoted(t).len()] == 0x0a,
    ensures
        skip_blank(b, off, false) == off,
        spec_next(b, Cursor { offset: off, window: 0 }) == Some(
            (off, off + name_token(t).len() as int, off + quoted(t).len() as int),
        ),
        b.subrange(off, off + name_token(t).len() as int) == name_token(t),
        strip_quote(name_token(t)) == t,
{
    let q = quoted(t);
    let n = t.len() as int;
    let c = Cursor { offset: off, window: 0 };
    assert forall|i: int| off <= i < off + q.len() implies #[trigger] b[i] == q[i - off] by {
        assert(b[i] == b.subrange(off, off + q.len() as int)[i - off]);
    }
    if needs_quotes_spec(t) {
        assert(q.len() == n + 2);
        assert(b[off] == 0x22u8);
        assert(b[off + 1 + n] == 0x22u8);
        assert forall|i: int| off + 1 <= i < off + 1 + n implies #[trigger] b[i] != 0x22 by {
            assert(b[i] == t[i - off - 1]);
            if b[i] == 0x22 {
                assert(t.contains(0x22));
            }
        }
        assert(skip_blank(b, off, false) == off);
        lemma_quote_run(b, off + 1, off + 1 + n);
        assert(b.subrange(off, off + 1 + n) =~= name_token(t));
        assert(name_token(t).subrange(1, n + 1) =~= t);
    } else {
        assert(q == t);
        assert forall|i: int| off <= i < off + n implies ws_width(b, i) == 0 && !is_single(#[trigger] b[i], false) by {
            lemma_ws_local(b, t, off, i - off);
        }
        assert(!t.contains(0x3b));
        assert(t[0] != 0x3b);
        assert(skip_blank(b, off, false) == off);
        lemma_bare_run(b, off + 1, off + n, false);
        assert(b.subrange(off, off + n) =~= t);
    }
}

proof fn lemma_quote_run(b: Seq<u8>, j: int, k: int)
    requires
        0 <= j <= k < b.len(),
        forall|i: int| j <= i < k ==> #[trigger] b[i] != 0x22,
        b[k] == 0x22,
    ensures
        quote_close(b, j) == k,
    decreases k - j,
{
    if j < k {
        lemma_quote_run(b, j + 1, k);
    }
}

/// Reading back a written `STUB` line gives the name it was written from,
/// and nothing else, for every name that reads back as itself.
#[verifier::rlimit(60)]
pub proof fn lemma_stub_round_trip(t: Seq<u8>)
    requires
        valid_utf8(t),
        reads_back(t),
    ensures
        parse_spec(render_stub(Some(t))) == Ok::<FileModel, crate::error::ErrorModel>(
            FileModel { stub: Some(t), ..empty_file() },
        ),
{
    lemma_stub_literals();
    lemma_statement_keywords();
    let q = quoted(t);
    let m: int = q.len() as int;
    let b = bytes_of("STUB:") + q + bytes_of("\n");
    assert(b == render_stub(Some(t)));
    assert(b[4] == 0x3au8);
    assert(b[0] == 0x53u8 && b[1] == 0x54u8 && b[2] == 0x55u8 && b[3] == 0x42u8);
    let c0 = cursor_start(b);
    assert(skip_blank(b, 0, false) == 0);
    lemma_bare_run(b, 1, 4, false);
    assert(spec_next(b, c0) == Some((0int, 4int, 4int)));
    assert(b.subrange(0, 4) =~= bytes_of("STUB"));
    assert(skip_blank(b, 4, false) == 4);
    let c1 = spec_eaten(b, c0);
    assert(bytes_of("STUB") != bytes_of("VERSION"));
    assert(c1 == Cursor { offset: 4, window: 0 });
    assert(spec_next(b, c1) == Some((4int, 5int, 5int)));
    assert(b.subrange(4, 5) =~= bytes_of(":"));
    assert(b.subrange(5, 5 + m) =~= q);
    assert(b[5 + m] == 0x0au8);
    lemma_name_step(b, t, 5);
    let c2 = spec_eaten(b, c1);
    assert(bytes_of(":") != bytes_of("VERSION"));
    assert(c2 == Cursor { offset: 5, window: 0 });
    let c3 = spec_eaten(b, c2);
    assert(skip_blank(b, 6 + m, false) == b.len());
    assert(skip_blank(b, 5 + m, false) == b.len());
    assert(c3.offset == 5 + m);
    assert(spec_token(b, c3) is None);
    let f = FileModel { stub: Some(t), ..empty_file() };
    reveal(statement);
    assert(stub_statement(b, c1, empty_file()) == Ok::<(Cursor, FileModel), crate::error::ErrorModel>((c3, f)));
    assert(parse_from(b, c3, f) == Ok::<FileModel, crate::error::ErrorModel>(f));
}

proof fn lemma_header_literals()
    ensures
        bytes_of("LIBRARY ") =~= bytes_of("LIBRARY") + seq![0x20u8],
        bytes_of(" ") =~= seq![0x20u8],
        bytes_of("LIBRARY") =~= seq![0x4cu8, 0x49, 0x42, 0x52, 0x41, 0x52, 0x59],
        bytes_of("NAME ") =~= bytes_of("NAME") + seq![0x20u8],
        bytes_of("NAME") =~= seq![0x4eu8, 0x41, 0x4d, 0x45],
        bytes_of(" BASE=") =~= seq![0x20u8] + bytes_of("BASE") + bytes_of("="),
        bytes_of("BASE") =~= seq![0x42u8, 0x41, 0x53, 0x45],
        bytes_of("=") =~= seq![0x3du8],
        bytes_of("\n") =~= seq![0x0au8],
        bytes_of("VERSION") =~= seq![0x56u8, 0x45, 0x52, 0x53, 0x49, 0x4f, 0x4e],
{
    reveal_strlit("LIBRARY ");
    reveal_strlit(" ");
    vstd::string::is_ascii_spec_bytes(" ");
    reveal_strlit("LIBRARY");
    reveal_strlit("NAME ");
    reveal_strlit("NAME");
    reveal_strlit(" BASE=");
    reveal_strlit("BASE");
    reveal_strlit("=");
    reveal_strlit("\n");
    reveal_strlit("VERSION");
    vstd::string::is_ascii_spec_bytes("LIBRARY ");
    vstd::string::is_ascii_spec_bytes("LIBRARY");
    vstd::string::is_ascii_spec_bytes("NAME ");
    vstd::string::is_ascii_spec_bytes("NAME");
    vstd::string::is_ascii_spec_bytes(" BASE=");
    vstd::string::is_ascii_spec_bytes("BASE");
    vstd::string::is_ascii_spec_bytes("=");
    vstd::string::is_ascii_spec_bytes("\n");
    vstd::string::is_ascii_spec_bytes("VERSION");
}

/// A written `BASE=<number>` clause at `p`, up to the line end, is read back
/// as that number.
#[verifier::rlimit(60)]
proof fn lemma_base_step(b: Seq<u8>, p: int, x: u64, f: FileModel)
    requires
        0 <= p <= b.len(),
        b == b.subrange(0, p) + bytes_of("BASE") + bytes_of("=") + hex_text(x as nat) + bytes_of(
            "\n",
        ),
    ensures
        skip_blank(b, p, false) == p,
        spec_token(b, Cursor { offset: p, window: 0 }) == Some(bytes_of("BASE")),
        spec_eaten(b, Cursor { offset: p, window: 0 }) == (Cursor { offset: p + 4, window: 0 }),
        base_clause(b, Cursor { offset: p + 4, window: 0 }, f) matches Ok((c, g)) && g == (
        FileModel { base_address: Some(x), ..f }) && spec_token(b, c) is None && p + 4 < c.offset
            <= b.len(),
{
    lemma_header_literals();
    lemma_hex_text_plain(x as nat);
    let h = hex_text(x as nat);
    let e: int = p + 5 + h.len() as int;
    assert(b.len() == e + 1);
    assert(b[p] == 0x42u8 && b[p + 1] == 0x41u8 && b[p + 2] == 0x53u8 && b[p + 3] == 0x45u8);
    assert(b[p + 4] == 0x3du8);
    assert(skip_blank(b, p, false) == p);
    lemma_bare_run(b, p + 1, p + 4, false);
    let c = Cursor { offset: p, window: 0 };
    assert(spec_next(b, c) == Some((p, p + 4, p + 4)));
    assert(b.subrange(p, p + 4) =~= bytes_of("BASE"));
    assert(skip_blank(b, p + 4, false) == p + 4);
    let c1 = Cursor { offset: p + 4, window: 0 };
    assert(spec_next(b, c1) == Some((p + 4, p + 5, p + 5)));
    assert(b.subrange(p + 4, p + 5) =~= bytes_of("="));
    assert(b[p + 5] == 0x30u8);
    assert(skip_blank(b, p + 5, false) == p + 5);
    let c2 = spec_eaten(b, c1);
    assert(c2 == Cursor { offset: p + 5, window: 0 });
    assert(b.subrange(p + 5, e) =~= h);
    assert(b[e] == 0x0au8);
    lemma_number_step(b, p + 5, x as nat);
    assert(skip_blank(b, e + 1, false) == b.len());
    assert(skip_blank(b, e, false) == b.len());
    let c3 = spec_eaten(b, c2);
    assert(c3.offset == e);
    assert(spec_token(b, c3) is None);
}

/// The keyword and the name at the start of a written `NAME` or `LIBRARY`
/// line, followed by a space or a line end.
#[verifier::rlimit(60)]
proof fn lemma_header_prefix(b: Seq<u8>, is_library: bool, t: Seq<u8>)
    requires
        valid_utf8(t),
        reads_back(t),
        !needs_quotes_spec(t) ==> !is_reserved(t) && !has_prefix(t, bytes_of("BASE")),
        b.len() > (if is_library { 8int } else { 5int }) + quoted(t).len(),
        b.subrange(0, (if is_library { 8int } else { 5int }) + quoted(t).len()) == (if is_library {
            bytes_of("LIBRARY ")
        } else {
            bytes_of("NAME ")
        }) + quoted(t),
        b[(if is_library { 8int } else { 5int }) + quoted(t).len()] == 0x20
            || b[(if is_library { 8int } else { 5int }) + quoted(t).len()] == 0x0a,
    ensures
        spec_token(b, cursor_start(b)) == Some(
            if is_library {
                bytes_of("LIBRARY")
            } else {
                bytes_of("NAME")
            },
        ),
        spec_eaten(b, cursor_start(b)) == (Cursor {
            offset: if is_library { 8int } else { 5int },
            window: 0,
        }),
        spec_token(b, Cursor { offset: if is_library { 8int } else { 5int }, window: 0 }) == Some(
            name_token(t),
        ),
        !has_prefix(name_token(t), bytes_of("BASE")),
        !is_reserved(name_token(t)),
        strip_quote(name_token(t)) == t,
        spec_eaten(b, Cursor { offset: if is_library { 8int } else { 5int }, window: 0 }) == (
        Cursor {
            offset: resting(b, (if is_library { 8int } else { 5int }) + quoted(t).len()),
            window: 0,
        }),
{
    lemma_header_literals();
    let kw = if is_library { bytes_of("LIBRARY") } else { bytes_of("NAME") };
    let n = kw.len() as int;
    let q = quoted(t);
    let ql: int = q.len() as int;
    assert(b.subrange(0, n + 1) =~= b.subrange(0, n + 1 + ql).subrange(0, n + 1));
    assert(b.subrange(0, n + 1) =~= kw + seq![0x20u8]);
    assert(b.subrange(n + 1, n + 1 + ql) =~= b.subrange(0, n + 1 + ql).subrange(n + 1, n + 1 + ql));
    assert(b.subrange(n + 1, n + 1 + ql) =~= q);
    lemma_name_step(b, t, n + 1);
    lemma_keyword_step(b, kw);
    let tok = name_token(t);
    if needs_quotes_spec(t) {
        assert(tok[0] == 0x22u8);
        if is_reserved(tok) {
            lemma_reserved_first_byte(tok);
        }
        if has_prefix(tok, bytes_of("BASE")) {
            assert(tok.subrange(0, 4)[0] == tok[0]);
        }
    } else {
        assert(is_reserved(bytes_of("VERSION")));
    }
}

/// The statement and the rest of the reading, once the name statement of a
/// written header line has been read to its end `c`.
proof fn lemma_header_finish(b: Seq<u8>, is_library: bool, c: Cursor, m: FileModel)
    requires
        spec_token(b, cursor_start(b)) == Some(
            if is_library {
                bytes_of("LIBRARY")
            } else {
                bytes_of("NAME")
            },
        ),
        name_statement(b, spec_eaten(b, cursor_start(b)), empty_file(), is_library) == Ok::<
            (Cursor, FileModel),
            crate::error::ErrorModel,
        >((c, m)),
        cursor_start(b).offset < c.offset <= b.len(),
        spec_token(b, c) is None,
    ensures
        parse_spec(b) == Ok::<FileModel, crate::error::ErrorModel>(m),
{
    lemma_statement_keywords();
    reveal(statement);
    let kw = if is_library { bytes_of("LIBRARY") } else { bytes_of("NAME") };
    assert((kw == bytes_of("LIBRARY")) == is_library);
    let c0 = cursor_start(b);
    assert(statement(b, kw, spec_eaten(b, c0), empty_file()) == name_statement(
        b,
        spec_eaten(b, c0),
        empty_file(),
        is_library,
    ));
    assert(parse_from(b, c, m) == Ok::<FileModel, crate::error::ErrorModel>(m));
    assert(parse_from(b, c0, empty_file()) == parse_from(b, c, m));
}

/// The written header line of a record with a kind and a name.
proof fn lemma_header_text(is_library: bool, t: Seq<u8>, base: Option<u64>)
    ensures
        render_header(
            FileModel {
                name: Some(t),
                is_library: Some(is_library),
                base_address: base,
                ..empty_file()
            },
        ) == (if is_library {
            bytes_of("LIBRARY ")
        } else {
            bytes_of("NAME ")
        }) + quoted(t) + match base {
            Some(x) => bytes_of(" BASE=") + hex_text(x as nat),
            None => Seq::<u8>::empty(),
        } + bytes_of("\n"),
{
    lemma_header_literals();
    let m = FileModel {
        name: Some(t),
        is_library: Some(is_library),
        base_address: base,
        ..empty_file()
    };
    let kw_sp = if is_library { bytes_of("LIBRARY ") } else { bytes_of("NAME ") };
    let base_text = match base {
        Some(x) => bytes_of(" BASE=") + hex_text(x as nat),
        None => Seq::<u8>::empty(),
    };
    assert(render_header(m) =~= kw_sp + quoted(t) + base_text + bytes_of("\n"));
}

#[verifier::rlimit(80)]
proof fn lemma_header_without_base(is_library: bool, t: Seq<u8>, base: Option<u64>)
    requires
        valid_utf8(t),
        reads_back(t),
        !needs_quotes_spec(t) ==> !is_reserved(t) && !has_prefix(t, bytes_of("BASE")),
        base is None,
    ensures
        parse_spec(
            render_header(
                FileModel {
                    name: Some(t),
                    is_library: Some(is_library),
                    base_address: base,
                    ..empty_file()
                },
            ),
        ) == Ok::<FileModel, crate::error::ErrorModel>(
            FileModel {
                name: Some(t),
                is_library: Some(is_library),
                base_address: base,
                ..empty_file()
            },
        ),
{
    lemma_header_literals();
    let m = FileModel {
        name: Some(t),
        is_library: Some(is_library),
        base_address: base,
        ..empty_file()
    };
    let kw_sp = if is_library { bytes_of("LIBRARY ") } else { bytes_of("NAME ") };
    let n1: int = if is_library { 8int } else { 5int };
    let q = quoted(t);
    let ql: int = q.len() as int;
    let base_text = match base {
        Some(x) => bytes_of(" BASE=") + hex_text(x as nat),
        None => Seq::<u8>::empty(),
    };
    let b = kw_sp + q + base_text + bytes_of("\n");
    lemma_header_text(is_library, t, base);
    assert(b.subrange(0, n1 + ql) =~= kw_sp + q);
    assert(b[n1 + ql] == 0x0au8);
    lemma_header_prefix(b, is_library, t);
    let c0 = cursor_start(b);
    let c1 = spec_eaten(b, c0);
    let c2 = spec_eaten(b, c1);
    let f2 = FileModel { name: Some(t), is_library: Some(is_library), ..empty_file() };
    assert(b.len() == n1 + ql + 1);
    assert(skip_blank(b, n1 + ql + 1, false) == b.len());
    assert(skip_blank(b, n1 + ql, false) == b.len());
    assert(c2.offset == n1 + ql);
    assert(spec_token(b, c2) is None);
    assert(f2 == m);
    assert(name_statement(b, c1, empty_file(), is_library) == Ok::<
        (Cursor, FileModel),
        crate::error::ErrorModel,
    >((c2, f2)));
    lemma_header_finish(b, is_library, c2, m);
}

#[verifier::rlimit(80)]
proof fn lemma_header_with_base(is_library: bool, t: Seq<u8>, base: Option<u64>)
    requires
        valid_utf8(t),
        reads_back(t),
        !needs_quotes_spec(t) ==> !is_reserved(t) && !has_prefix(t, bytes_of("BASE")),
        base is Some,
    ensures
        parse_spec(
            render_header(
                FileModel {
                    name: Some(t),
                    is_library: Some(is_library),
                    base_address: base,
                    ..empty_file()
                },
            ),
        ) == Ok::<FileModel, crate::error::ErrorModel>(
            FileModel {
                name: Some(t),
                is_library: Some(is_library),
                base_address: base,
                ..empty_file()
            },
        ),
{
    lemma_header_literals();
    let m = FileModel {
        name: Some(t),
        is_library: Some(is_library),
        base_address: base,
        ..empty_file()
    };
    let kw_sp = if is_library { bytes_of("LIBRARY ") } else { bytes_of("NAME ") };
    let n1: int = if is_library { 8int } else { 5int };
    let q = quoted(t);
    let ql: int = q.len() as int;
    let base_text = match base {
        Some(x) => bytes_of(" BASE=") + hex_text(x as nat),
        None => Seq::<u8>::empty(),
    };
    let b = kw_sp + q + base_text + bytes_of("\n");
    lemma_header_text(is_library, t, base);
    assert(b.subrange(0, n1 + ql) =~= kw_sp + q);
    let x = base.unwrap();
    assert(b[n1 + ql] == 0x20u8);
    lemma_header_prefix(b, is_library, t);
    let c0 = cursor_start(b);
    let c1 = spec_eaten(b, c0);
    let c2 = spec_eaten(b, c1);
    let f2 = FileModel { name: Some(t), is_library: Some(is_library), ..empty_file() };
    let p = n1 + ql + 1;
    assert(b =~= b.subrange(0, p) + bytes_of("BASE") + bytes_of("=") + hex_text(x as nat)
        + bytes_of("\n"));
    lemma_base_step(b, p, x, f2);
    assert(skip_blank(b, n1 + ql, false) == p);
    assert(c2 == Cursor { offset: p, window: 0 });
    assert(bytes_of("BASE") != bytes_of("VERSION"));
    assert(spec_eaten(b, c2) == Cursor { offset: p + 4, window: 0 });
    assert((FileModel { base_address: Some(x), ..f2 }) == m);
    let r = base_clause(b, Cursor { offset: p + 4, window: 0 }, f2);
    assert(name_statement(b, c1, empty_file(), is_library) == r);
    if let Ok((c, g)) = r {
        lemma_header_finish(b, is_library, c, m);
    }
}

/// Reading back a written `NAME` or `LIBRARY` line gives the name, the kind
/// and the base address it was written from, and nothing else, for every
/// name that reads back as itself and, written bare, is neither a reserved
/// word nor begins with `BASE`.
pub proof fn lemma_header_round_trip(is_library: bool, t: Seq<u8>, base: Option<u64>)
    requires
        valid_utf8(t),
        reads_back(t),
        !needs_quotes_spec(t) ==> !is_reserved(t) && !has_prefix(t, bytes_of("BASE")),
    ensures
        parse_spec(
            render_header(
                FileModel {
                    name: Some(t),
                    is_library: Some(is_library),
                    base_address: base,
                    ..empty_file()
                },
            ),
        ) == Ok::<FileModel, crate::error::ErrorModel>(
            FileModel {
                name: Some(t),
                is_library: Some(is_library),
                base_address: base,
                ..empty_file()
            },
        ),
{
    if base is Some {
        lemma_header_with_base(is_library, t, base);
    } else {
        lemma_header_without_base(is_library, t, base);
    }
}

/// Reading back a written `NAME` or `LIBRARY` line with neither a name nor
/// a base address gives the kind it was written from, and nothing else.
#[verifier::rlimit(80)]
pub proof fn lemma_bare_header_round_trip(is_library: bool)
    ensures
        parse_spec(render_header(FileModel { is_library: Some(is_library), ..empty_file() }))
            == Ok::<FileModel, crate::error::ErrorModel>(
            FileModel { is_library: Some(is_library), ..empty_file() },
        ),
{
    lemma_header_literals();
    let m = FileModel { is_library: Some(is_library), ..empty_file() };
    let kw = if is_library { bytes_of("LIBRARY") } else { bytes_of("NAME") };
    let n = kw.len() as int;
    let b = kw + bytes_of("\n");
    assert(b =~= render_header(m));
    assert(b.len() == n + 1);
    assert(b[n] == 0x0au8);
    assert forall|i: int| 0 <= i < n implies 0x41 <= #[trigger] b[i] <= 0x5a by {
        assert(b[i] == kw[i]);
    }
    assert(skip_blank(b, 0, false) == 0);
    lemma_bare_run(b, 1, n, false);
    let c0 = cursor_start(b);
    assert(spec_next(b, c0) == Some((0int, n, n)));
    assert(b.subrange(0, n) =~= kw);
    assert(skip_blank(b, n + 1, false) == b.len());
    assert(skip_blank(b, n, false) == b.len());
    let c1 = spec_eaten(b, c0);
    assert(c1.offset == n);
    assert(spec_token(b, c1) is None);
    assert(name_statement(b, c1, empty_file(), is_library) == Ok::<
        (Cursor, FileModel),
        crate::error::ErrorModel,
    >((c1, m)));
    lemma_header_finish(b, is_library, c1, m);
}

} // verus!
