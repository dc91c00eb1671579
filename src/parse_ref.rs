//! Reading a file without allocating: scalar statements into a record, and
//! the section and export blocks as lazy sequences over the text.
use vstd::prelude::*;
use vstd::utf8::*;

use crate::error::{error_at, ErrorModel, KindModel, ParseError, ParseErrorKind};
use crate::keywords::{is_reserved, is_reserved_word};
use crate::conversions::str_from_utf8;
use crate::number::{number_result, parse_number, parse_u16};
use crate::render::{
    export_lines, push_export, push_section, render_export, render_exports, render_file,
    render_section, render_sections, section_lines, write_file_to_write,
};
use crate::text::{bytes_of, lemma_step_boundary, lemma_str_valid, starts_with, str_eq, substr};
use crate::token_iterator::{
    cursor_start, cursor_wf, lemma_eaten, spec_eaten, spec_token,
    Cursor, TokenIterator,
};

verus! {

broadcast use {is_char_boundary_iff_not_is_continuation_byte, is_char_boundary_start_end_of_seq};

/// The scalar fields of a parsed file, with texts as bytes.
pub struct FileModel {
    pub name: Option<Seq<u8>>,
    pub is_library: Option<bool>,
    pub heap_reserve: Option<u64>,
    pub heap_commit: Option<u64>,
    pub stack_reserve: Option<u64>,
    pub stack_commit: Option<u64>,
    pub base_address: Option<u64>,
    pub stub: Option<Seq<u8>>,
    pub major_version: Option<u16>,
    pub minor_version: Option<u16>,
}

/// A record with no field set.
pub open spec fn empty_file() -> FileModel {
    FileModel {
        name: None,
        is_library: None,
        heap_reserve: None,
        heap_commit: None,
        stack_reserve: None,
        stack_commit: None,
        base_address: None,
        stub: None,
        major_version: None,
        minor_version: None,
    }
}

/// The bytes of an optional text.
pub open spec fn opt_bytes(s: Option<&str>) -> Option<Seq<u8>> {
    match s {
        Some(t) => Some(bytes_of(t)),
        None => None,
    }
}

/// A token without its opening quote, if it has one.
pub open spec fn strip_quote(t: Seq<u8>) -> Seq<u8> {
    if t.len() > 0 && t[0] == 0x22 {
        t.subrange(1, t.len() as int)
    } else {
        t
    }
}

/// Whether `t` begins with `p`.
pub open spec fn has_prefix(t: Seq<u8>, p: Seq<u8>) -> bool {
    p.len() <= t.len() && t.subrange(0, p.len() as int) == p
}

/// Whether the next token is `w`.
pub open spec fn next_is(b: Seq<u8>, c: Cursor, w: &str) -> bool {
    spec_token(b, c) == Some(bytes_of(w))
}

/// Reading a token moves the cursor forward and stays within the text.
pub open spec fn advances(b: Seq<u8>, c: Cursor, d: Cursor) -> bool {
    c.offset < d.offset <= b.len()
}

/// `BASE = <number>`, with the cursor just past `BASE`.
pub open spec fn base_clause(b: Seq<u8>, c: Cursor, f: FileModel) -> Result<
    (Cursor, FileModel),
    ErrorModel,
> {
    if !next_is(b, c, "=") {
        Err(error_at(KindModel::MissingDesignatorFor(bytes_of("BASE")), c.offset))
    } else {
        let c1 = spec_eaten(b, c);
        match spec_token(b, c1) {
            None => Err(error_at(KindModel::MissingArgumentFor(bytes_of("BASE")), c1.offset)),
            Some(v) => match number_result(v, c1.offset, u64::MAX as int) {
                Err(e) => Err(e),
                Ok(n) => Ok((spec_eaten(b, c1), FileModel { base_address: Some(n as u64), ..f })),
            },
        }
    }
}

/// `NAME` or `LIBRARY`, with the cursor just past the keyword.
pub open spec fn name_statement(b: Seq<u8>, c: Cursor, f: FileModel, is_library: bool) -> Result<
    (Cursor, FileModel),
    ErrorModel,
> {
    let f1 = FileModel { is_library: Some(is_library), ..f };
    match spec_token(b, c) {
        None => Ok((c, f1)),
        Some(t) => {
            let takes_name = !has_prefix(t, bytes_of("BASE")) && !is_reserved(t);
            let c2 = if takes_name {
                spec_eaten(b, c)
            } else {
                c
            };
            let f2 = if takes_name {
                FileModel { name: Some(strip_quote(t)), ..f1 }
            } else {
                f1
            };
            if next_is(b, c2, "BASE") {
                base_clause(b, spec_eaten(b, c2), f2)
            } else {
                Ok((c2, f2))
            }
        },
    }
}

/// The arguments of `HEAPSIZE` or `STACKSIZE`: a reserve and an optional
/// commit after a comma.
pub open spec fn size_args(b: Seq<u8>, c: Cursor, keyword: Seq<u8>) -> Result<
    (Cursor, u64, Option<u64>),
    ErrorModel,
> {
    match spec_token(b, c) {
        None => Err(error_at(KindModel::MissingDesignatorFor(keyword), c.offset)),
        Some(a) => match number_result(a, c.offset, u64::MAX as int) {
            Err(e) => Err(e),
            Ok(reserve) => {
                let c1 = spec_eaten(b, c);
                if next_is(b, c1, ",") {
                    let c2 = spec_eaten(b, c1);
                    match spec_token(b, c2) {
                        None => Err(
                            error_at(KindModel::MissingArgumentAfterCommaFor(keyword), c2.offset),
                        ),
                        Some(m) => match number_result(m, c2.offset, u64::MAX as int) {
                            Err(e) => Err(e),
                            Ok(commit) => Ok(
                                (spec_eaten(b, c2), reserve as u64, Some(commit as u64)),
                            ),
                        },
                    }
                } else {
                    Ok((c1, reserve as u64, None))
                }
            },
        },
    }
}

/// `STUB : <file>`, with the cursor just past `STUB`.
pub open spec fn stub_statement(b: Seq<u8>, c: Cursor, f: FileModel) -> Result<
    (Cursor, FileModel),
    ErrorModel,
> {
    if !next_is(b, c, ":") {
        Err(error_at(KindModel::MissingDesignatorFor(bytes_of("STUB")), c.offset))
    } else {
        let c1 = spec_eaten(b, c);
        match spec_token(b, c1) {
            None => Err(error_at(KindModel::MissingArgumentFor(bytes_of("STUB")), c1.offset)),
            Some(v) => Ok((spec_eaten(b, c1), FileModel { stub: Some(strip_quote(v)), ..f })),
        }
    }
}

/// `VERSION <major>[.<minor>]`, with the cursor just past `VERSION`.
pub open spec fn version_statement(b: Seq<u8>, c: Cursor, f: FileModel) -> Result<
    (Cursor, FileModel),
    ErrorModel,
> {
    match spec_token(b, c) {
        None => Err(error_at(KindModel::MissingArgumentFor(bytes_of("VERSION")), c.offset)),
        Some(m) => match number_result(m, c.offset, u16::MAX as int) {
            Err(e) => Err(e),
            Ok(major) => {
                let c1 = spec_eaten(b, c);
                let f1 = FileModel { major_version: Some(major as u16), minor_version: None, ..f };
                if next_is(b, c1, ".") {
                    let c2 = spec_eaten(b, c1);
                    match spec_token(b, c2) {
                        None => Err(
                            error_at(KindModel::MissingArgumentFor(bytes_of("VERSION")), c2.offset),
                        ),
                        Some(n) => match number_result(n, c2.offset, u16::MAX as int) {
                            Err(e) => Err(e),
                            Ok(minor) => Ok(
                                (spec_eaten(b, c2), FileModel { minor_version: Some(minor as u16), ..f1 }),
                            ),
                        },
                    }
                } else {
                    Ok((c1, f1))
                }
            },
        },
    }
}

/// The cursor after skipping tokens up to the next reserved word.
pub open spec fn skip_body(b: Seq<u8>, c: Cursor) -> Cursor
    decreases b.len() - c.offset,
{
    match spec_token(b, c) {
        Some(t) => if !is_reserved(t) && advances(b, c, spec_eaten(b, c)) {
            skip_body(b, spec_eaten(b, c))
        } else {
            c
        },
        None => c,
    }
}

/// One top-level statement that starts with token `t`, with the cursor just
/// past `t`. Tokens that start no known statement are passed over.
#[verifier::opaque]
pub open spec fn statement(b: Seq<u8>, t: Seq<u8>, c: Cursor, f: FileModel) -> Result<
    (Cursor, FileModel),
    ErrorModel,
> {
    if t == bytes_of("NAME") || t == bytes_of("LIBRARY") {
        name_statement(b, c, f, t == bytes_of("LIBRARY"))
    } else if t == bytes_of("HEAPSIZE") {
        match size_args(b, c, bytes_of("HEAPSIZE")) {
            Err(e) => Err(e),
            Ok((c1, r, m)) => Ok((c1, FileModel { heap_reserve: Some(r), heap_commit: m, ..f })),
        }
    } else if t == bytes_of("STACKSIZE") {
        match size_args(b, c, bytes_of("STACKSIZE")) {
            Err(e) => Err(e),
            Ok((c1, r, m)) => Ok((c1, FileModel { stack_reserve: Some(r), stack_commit: m, ..f })),
        }
    } else if t == bytes_of("STUB") {
        stub_statement(b, c, f)
    } else if t == bytes_of("VERSION") {
        version_statement(b, c, f)
    } else if t == bytes_of("SECTIONS") {
        Ok((skip_body(b, c), f))
    } else {
        Ok((c, f))
    }
}

/// Reading the statements from cursor `c` on into record `f`; the first
/// error ends the reading.
pub open spec fn parse_from(b: Seq<u8>, c: Cursor, f: FileModel) -> Result<FileModel, ErrorModel>
    decreases b.len() - c.offset,
{
    match spec_token(b, c) {
        None => Ok(f),
        Some(t) => match statement(b, t, spec_eaten(b, c), f) {
            Err(e) => Err(e),
            Ok((c2, f2)) => if advances(b, c, c2) {
                parse_from(b, c2, f2)
            } else {
                Ok(f2)
            },
        },
    }
}

/// The scalar fields of the file `b`, or the first error in it.
pub open spec fn parse_spec(b: Seq<u8>) -> Result<FileModel, ErrorModel> {
    parse_from(b, cursor_start(b), empty_file())
}

/// The record with the fields that a statement led by `t` always sets
/// cleared: both sizes of `HEAPSIZE` or `STACKSIZE`, the file of `STUB`, both
/// numbers of `VERSION`, the kind of `NAME` or `LIBRARY`.
pub open spec fn without_fields_of(t: Seq<u8>, f: FileModel) -> FileModel {
    if t == bytes_of("HEAPSIZE") {
        FileModel { heap_reserve: None, heap_commit: None, ..f }
    } else if t == bytes_of("STACKSIZE") {
        FileModel { stack_reserve: None, stack_commit: None, ..f }
    } else if t == bytes_of("STUB") {
        FileModel { stub: None, ..f }
    } else if t == bytes_of("VERSION") {
        FileModel { major_version: None, minor_version: None, ..f }
    } else if t == bytes_of("NAME") || t == bytes_of("LIBRARY") {
        FileModel { is_library: None, ..f }
    } else {
        f
    }
}

proof fn lemma_name_overrides(b: Seq<u8>, c: Cursor, f1: FileModel, f2: FileModel, is_library: bool)
    requires
        (FileModel { is_library: None, ..f1 }) == (FileModel { is_library: None, ..f2 }),
    ensures
        name_statement(b, c, f1, is_library) == name_statement(b, c, f2, is_library),
{
    let g1 = FileModel { is_library: Some(is_library), ..f1 };
    let g2 = FileModel { is_library: Some(is_library), ..f2 };
    assert(g1 == g2);
}

/// The statement keywords, told apart by length and first byte.
pub proof fn lemma_statement_keywords()
    ensures
        bytes_of("NAME").len() == 4 && bytes_of("NAME")[0] == 0x4e,
        bytes_of("LIBRARY").len() == 7 && bytes_of("LIBRARY")[0] == 0x4c,
        bytes_of("HEAPSIZE").len() == 8 && bytes_of("HEAPSIZE")[0] == 0x48,
        bytes_of("STACKSIZE").len() == 9 && bytes_of("STACKSIZE")[0] == 0x53,
        bytes_of("STUB").len() == 4 && bytes_of("STUB")[0] == 0x53,
        bytes_of("VERSION").len() == 7 && bytes_of("VERSION")[0] == 0x56,
        bytes_of("SECTIONS").len() == 8 && bytes_of("SECTIONS")[0] == 0x53,
{
    reveal_strlit("NAME");
    vstd::string::is_ascii_spec_bytes("NAME");
    reveal_strlit("LIBRARY");
    vstd::string::is_ascii_spec_bytes("LIBRARY");
    reveal_strlit("HEAPSIZE");
    vstd::string::is_ascii_spec_bytes("HEAPSIZE");
    reveal_strlit("STACKSIZE");
    vstd::string::is_ascii_spec_bytes("STACKSIZE");
    reveal_strlit("STUB");
    vstd::string::is_ascii_spec_bytes("STUB");
    reveal_strlit("VERSION");
    vstd::string::is_ascii_spec_bytes("VERSION");
    reveal_strlit("SECTIONS");
    vstd::string::is_ascii_spec_bytes("SECTIONS");
}

proof fn lemma_size_overrides(b: Seq<u8>, t: Seq<u8>, c: Cursor, f1: FileModel, f2: FileModel)
    requires
        t == bytes_of("HEAPSIZE") || t == bytes_of("STACKSIZE"),
        t == bytes_of("HEAPSIZE") ==> (FileModel { heap_reserve: None, heap_commit: None, ..f1 })
            == (FileModel { heap_reserve: None, heap_commit: None, ..f2 }),
        t == bytes_of("STACKSIZE") ==> (FileModel { stack_reserve: None, stack_commit: None, ..f1 })
            == (FileModel { stack_reserve: None, stack_commit: None, ..f2 }),
        t != bytes_of("NAME") && t != bytes_of("LIBRARY"),
    ensures
        statement(b, t, c, f1) == statement(b, t, c, f2),
{
    reveal(statement);
    lemma_statement_keywords();
    if t == bytes_of("HEAPSIZE") {
        if let Ok((c2, r, m)) = size_args(b, c, t) {
            assert((FileModel { heap_reserve: Some(r), heap_commit: m, ..f1 }) == (FileModel {
                heap_reserve: Some(r),
                heap_commit: m,
                ..f2
            }));
        }
    } else {
        if let Ok((c2, r, m)) = size_args(b, c, t) {
            assert((FileModel { stack_reserve: Some(r), stack_commit: m, ..f1 }) == (FileModel {
                stack_reserve: Some(r),
                stack_commit: m,
                ..f2
            }));
        }
    }
}

proof fn lemma_statement_overrides(b: Seq<u8>, t: Seq<u8>, c: Cursor, f1: FileModel, f2: FileModel)
    requires
        without_fields_of(t, f1) == without_fields_of(t, f2),
    ensures
        statement(b, t, c, f1) == statement(b, t, c, f2),
{
    lemma_statement_keywords();
    if t == bytes_of("NAME") || t == bytes_of("LIBRARY") {
        reveal(statement);
        lemma_name_overrides(b, c, f1, f2, t == bytes_of("LIBRARY"));
    } else if t == bytes_of("HEAPSIZE") || t == bytes_of("STACKSIZE") {
        lemma_size_overrides(b, t, c, f1, f2);
    } else {
        reveal(statement);
    }
}

/// Last write wins: when the next statement is led by `t`, what the record
/// held before in the fields that this statement sets never reaches the
/// result, so a later statement of the same kind overrides an earlier one.
pub proof fn lemma_last_write_wins(b: Seq<u8>, c: Cursor, f1: FileModel, f2: FileModel)
    requires
        spec_token(b, c) is Some,
        without_fields_of(spec_token(b, c).unwrap(), f1) == without_fields_of(
            spec_token(b, c).unwrap(),
            f2,
        ),
    ensures
        parse_from(b, c, f1) == parse_from(b, c, f2),
{
    lemma_statement_overrides(b, spec_token(b, c).unwrap(), spec_eaten(b, c), f1, f2);
}

/// The keywords that lead a scalar statement.
pub open spec fn is_scalar_keyword(t: Seq<u8>) -> bool {
    t == bytes_of("NAME") || t == bytes_of("LIBRARY") || t == bytes_of("HEAPSIZE") || t == bytes_of(
        "STACKSIZE",
    ) || t == bytes_of("STUB") || t == bytes_of("VERSION")
}

/// Whether statement keyword `t` is of kind `k`; `NAME` and `LIBRARY` are of
/// one kind.
pub open spec fn same_kind(t: Seq<u8>, k: Seq<u8>) -> bool {
    t == k || ((t == bytes_of("NAME") || t == bytes_of("LIBRARY")) && (k == bytes_of("NAME")
        || k == bytes_of("LIBRARY")))
}

/// The fields that every statement of kind `k` sets, taken from `f`; the
/// others are left empty.
pub open spec fn fields_of(k: Seq<u8>, f: FileModel) -> FileModel {
    if k == bytes_of("HEAPSIZE") {
        FileModel { heap_reserve: f.heap_reserve, heap_commit: f.heap_commit, ..empty_file() }
    } else if k == bytes_of("STACKSIZE") {
        FileModel { stack_reserve: f.stack_reserve, stack_commit: f.stack_commit, ..empty_file() }
    } else if k == bytes_of("STUB") {
        FileModel { stub: f.stub, ..empty_file() }
    } else if k == bytes_of("VERSION") {
        FileModel { major_version: f.major_version, minor_version: f.minor_version, ..empty_file() }
    } else if k == bytes_of("NAME") || k == bytes_of("LIBRARY") {
        FileModel { is_library: f.is_library, ..empty_file() }
    } else {
        empty_file()
    }
}

/// Whether the statements read from cursor `c` on, into record `f`, hold
/// none of kind `k`.
pub open spec fn keeps_kind(b: Seq<u8>, c: Cursor, f: FileModel, k: Seq<u8>) -> bool
    decreases b.len() - c.offset,
{
    match spec_token(b, c) {
        None => true,
        Some(t) => !same_kind(t, k) && match statement(b, t, spec_eaten(b, c), f) {
            Err(_) => true,
            Ok((c2, f2)) => if advances(b, c, c2) {
                keeps_kind(b, c2, f2, k)
            } else {
                true
            },
        },
    }
}

proof fn lemma_name_frame(b: Seq<u8>, c: Cursor, f: FileModel, is_library: bool)
    ensures
        name_statement(b, c, f, is_library) matches Ok((_, g)) ==> (FileModel {
            is_library: None,
            name: None,
            base_address: None,
            ..g
        }) == (FileModel { is_library: None, name: None, base_address: None, ..f }),
{
}

proof fn lemma_version_frame(b: Seq<u8>, c: Cursor, f: FileModel)
    ensures
        version_statement(b, c, f) matches Ok((_, g)) ==> (FileModel {
            major_version: None,
            minor_version: None,
            ..g
        }) == (FileModel { major_version: None, minor_version: None, ..f }),
{
}

proof fn lemma_stub_frame(b: Seq<u8>, c: Cursor, f: FileModel)
    ensures
        stub_statement(b, c, f) matches Ok((_, g)) ==> (FileModel { stub: None, ..g }) == (
        FileModel { stub: None, ..f }),
{
}

/// A statement of another kind leaves the fields of kind `k` alone.
#[verifier::rlimit(60)]
proof fn lemma_other_kind_keeps(b: Seq<u8>, t: Seq<u8>, c: Cursor, f: FileModel, k: Seq<u8>)
    requires
        !same_kind(t, k),
    ensures
        statement(b, t, c, f) matches Ok((_, g)) ==> fields_of(k, g) == fields_of(k, f),
{
    reveal(statement);
    lemma_statement_keywords();
    if t == bytes_of("NAME") || t == bytes_of("LIBRARY") {
        lemma_name_frame(b, c, f, t == bytes_of("LIBRARY"));
    } else if t == bytes_of("STUB") {
        lemma_stub_frame(b, c, f);
    } else if t == bytes_of("VERSION") {
        lemma_version_frame(b, c, f);
    }
}

proof fn lemma_keeps_kind(b: Seq<u8>, c: Cursor, f: FileModel, k: Seq<u8>)
    requires
        keeps_kind(b, c, f, k),
    ensures
        parse_from(b, c, f) matches Ok(r) ==> fields_of(k, r) == fields_of(k, f),
    decreases b.len() - c.offset,
{
    if let Some(t) = spec_token(b, c) {
        lemma_other_kind_keeps(b, t, spec_eaten(b, c), f, k);
        if let Ok((c2, f2)) = statement(b, t, spec_eaten(b, c), f) {
            if advances(b, c, c2) {
                lemma_keeps_kind(b, c2, f2, k);
            }
        }
    }
}

/// What a scalar statement sets in the fields of its kind does not depend
/// on the record it is read into.
#[verifier::rlimit(60)]
proof fn lemma_kind_fields_fixed(b: Seq<u8>, t: Seq<u8>, c: Cursor, f: FileModel)
    requires
        is_scalar_keyword(t),
    ensures
        statement(b, t, c, f) matches Ok((c2, f2)) ==> (statement(b, t, c, empty_file()) matches Ok(
            (c3, g),
        ) && c3 == c2 && fields_of(t, g) == fields_of(t, f2)),
{
    reveal(statement);
    lemma_statement_keywords();
    if t == bytes_of("NAME") || t == bytes_of("LIBRARY") {
        lemma_name_frame(b, c, f, t == bytes_of("LIBRARY"));
        lemma_name_frame(b, c, empty_file(), t == bytes_of("LIBRARY"));
        lemma_name_fixed(b, c, f, t == bytes_of("LIBRARY"));
    } else if t == bytes_of("STUB") {
        lemma_stub_fixed(b, c, f);
    } else if t == bytes_of("VERSION") {
        lemma_version_fixed(b, c, f);
    }
}

proof fn lemma_name_fixed(b: Seq<u8>, c: Cursor, f: FileModel, is_library: bool)
    ensures
        name_statement(b, c, f, is_library) matches Ok((c2, f2)) ==> (name_statement(
            b,
            c,
            empty_file(),
            is_library,
        ) matches Ok((c3, g)) && c3 == c2 && g.is_library == f2.is_library),
{
}

proof fn lemma_stub_fixed(b: Seq<u8>, c: Cursor, f: FileModel)
    ensures
        stub_statement(b, c, f) matches Ok((c2, f2)) ==> (stub_statement(b, c, empty_file()) matches Ok(
            (c3, g),
        ) && c3 == c2 && g.stub == f2.stub),
{
}

proof fn lemma_version_fixed(b: Seq<u8>, c: Cursor, f: FileModel)
    ensures
        version_statement(b, c, f) matches Ok((c2, f2)) ==> (version_statement(b, c, empty_file())
            matches Ok((c3, g)) && c3 == c2 && g.major_version == f2.major_version
            && g.minor_version == f2.minor_version),
{
}

/// Last write wins: when a scalar statement led by `t` is followed by no
/// other statement of its kind, the result holds in the fields of that kind
/// what this statement, read on its own into an empty record, sets there,
/// whatever earlier statements wrote.
pub proof fn lemma_last_statement_wins(
    b: Seq<u8>,
    c: Cursor,
    f: FileModel,
    c2: Cursor,
    f2: FileModel,
)
    requires
        spec_token(b, c) is Some,
        is_scalar_keyword(spec_token(b, c).unwrap()),
        statement(b, spec_token(b, c).unwrap(), spec_eaten(b, c), f) == Ok::<
            (Cursor, FileModel),
            ErrorModel,
        >((c2, f2)),
        advances(b, c, c2),
        keeps_kind(b, c2, f2, spec_token(b, c).unwrap()),
    ensures
        parse_from(b, c, f) matches Ok(r) ==> (statement(
            b,
            spec_token(b, c).unwrap(),
            spec_eaten(b, c),
            empty_file(),
        ) matches Ok((_, g)) && fields_of(spec_token(b, c).unwrap(), r) == fields_of(
            spec_token(b, c).unwrap(),
            g,
        )),
{
    let t = spec_token(b, c).unwrap();
    let c1 = spec_eaten(b, c);
    lemma_keeps_kind(b, c2, f2, t);
    lemma_kind_fields_fixed(b, t, c1, f);
}

/// The cursor just past the first `header` token of `b`, reading from `c`
/// (past the end when there is none).
pub open spec fn seek_header(b: Seq<u8>, c: Cursor, header: Seq<u8>) -> Cursor
    decreases b.len() - c.offset,
{
    let c1 = spec_eaten(b, c);
    match spec_token(b, c) {
        None => c1,
        Some(t) => if t == header || !advances(b, c, c1) {
            c1
        } else {
            seek_header(b, c1, header)
        },
    }
}

proof fn lemma_skip_body(b: Seq<u8>, c: Cursor)
    requires
        cursor_wf(b, c),
    ensures
        cursor_wf(b, skip_body(b, c)),
        c.offset <= skip_body(b, c).offset,
        skip_body(b, c).window == c.window || skip_body(b, c).offset > c.offset,
    decreases b.len() - c.offset,
{
    lemma_eaten(b, c);
    if let Some(t) = spec_token(b, c) {
        if !is_reserved(t) && advances(b, c, spec_eaten(b, c)) {
            lemma_skip_body(b, spec_eaten(b, c));
        }
    }
}

proof fn lemma_seek_header(b: Seq<u8>, c: Cursor, header: Seq<u8>)
    requires
        cursor_wf(b, c),
    ensures
        cursor_wf(b, seek_header(b, c, header)),
        c.offset <= seek_header(b, c, header).offset,
    decreases b.len() - c.offset,
{
    lemma_eaten(b, c);
    if let Some(t) = spec_token(b, c) {
        if !(t == header || !advances(b, c, spec_eaten(b, c))) {
            lemma_seek_header(b, spec_eaten(b, c), header);
        }
    }
}

/// A statement keeps the cursor well formed and never moves it back.
pub proof fn lemma_statement(b: Seq<u8>, t: Seq<u8>, c: Cursor, f: FileModel)
    requires
        cursor_wf(b, c),
    ensures
        statement(b, t, c, f) matches Ok((c2, _)) ==> cursor_wf(b, c2) && c.offset <= c2.offset,
{
    reveal(statement);
    lemma_eaten(b, c);
    let c1 = spec_eaten(b, c);
    lemma_eaten(b, c1);
    let c2 = spec_eaten(b, c1);
    lemma_eaten(b, c2);
    let c3 = spec_eaten(b, c2);
    lemma_eaten(b, c3);
    lemma_skip_body(b, c);
}

/// The record that a parse produces: the scalar fields, and the section and
/// export blocks as lazy sequences over the text.
#[derive(Debug, Clone, Copy, PartialEq, Eq, Hash)]
pub struct ModuleDefinitionFileRef<'a> {
    /// Name specified by either the `NAME` or `LIBRARY` statements.
    pub name: Option<&'a str>,
    /// `true` if the file contains a `LIBRARY` statement and `false` if it
    /// contains a `NAME` statement.
    pub is_library: Option<bool>,
    /// The first argument to the `HEAPSIZE` statement.
    pub heap_reserve: Option<u64>,
    /// The second argument to the `HEAPSIZE` statement.
    pub heap_commit: Option<u64>,
    /// The first argument to the `STACKSIZE` statement.
    pub stack_reserve: Option<u64>,
    /// The second argument to the `STACKSIZE` statement.
    pub stack_commit: Option<u64>,
    /// The base address given with `BASE=` after `NAME` or `LIBRARY`.
    pub base_address: Option<u64>,
    /// The file named by the `STUB` statement.
    pub stub: Option<&'a str>,
    /// The major number of the `VERSION` statement.
    pub major_version: Option<u16>,
    /// The minor number of the `VERSION` statement.
    pub minor_version: Option<u16>,
    /// The items of the `SECTIONS` blocks.
    pub sections: Sections<'a>,
    /// The items of the `EXPORTS` blocks.
    pub exports: Exports<'a>,
}

impl<'a> View for ModuleDefinitionFileRef<'a> {
    type V = FileModel;

    open spec fn view(&self) -> FileModel {
        FileModel {
            name: opt_bytes(self.name),
            is_library: self.is_library,
            heap_reserve: self.heap_reserve,
            heap_commit: self.heap_commit,
            stack_reserve: self.stack_reserve,
            stack_commit: self.stack_commit,
            base_address: self.base_address,
            stub: opt_bytes(self.stub),
            major_version: self.major_version,
            minor_version: self.minor_version,
        }
    }
}

/// Sequence of the items of the `EXPORTS` blocks of a text.
#[derive(Debug, Clone, Copy, PartialEq, Eq, Hash)]
pub struct Exports<'a> {
    /// Cursor just past the part already read.
    pub it: TokenIterator<'a>,
}

/// Sequence of the items of the `SECTIONS` blocks of a text.
#[derive(Debug, Clone, Copy, PartialEq, Eq, Hash)]
pub struct Sections<'a> {
    /// Cursor just past the part already read.
    pub it: TokenIterator<'a>,
}

/// The cursor of a fresh block sequence over `s` for `header`.
pub open spec fn block_start(s: &str, header: &str) -> Cursor {
    seek_header(bytes_of(s), cursor_start(bytes_of(s)), bytes_of(header))
}

/// Reads tokens up to and including the next `header` token.
fn seek_from<'a>(it: &mut TokenIterator<'a>, header: &str)
    requires
        old(it).wf(),
    ensures
        final(it).text == old(it).text,
        final(it).wf(),
        final(it).cursor() == seek_header(old(it).bytes(), old(it).cursor(), bytes_of(header)),
{
    let ghost b = it.bytes();
    let ghost c0 = it.cursor();
    loop
        invariant_except_break
            seek_header(b, it.cursor(), bytes_of(header)) == seek_header(b, c0, bytes_of(header)),
        invariant
            b == it.bytes(),
            it.text == old(it).text,
            it.wf(),
        ensures
            it.text == old(it).text,
            it.wf(),
            it.cursor() == seek_header(b, c0, bytes_of(header)),
        decreases b.len() - it.offset,
    {
        let ghost c = it.cursor();
        proof {
            lemma_eaten(b, c);
        }
        match it.eat_token() {
            None => break,
            Some(token) => {
                if str_eq(token, header) {
                    break;
                }
            },
        }
    }
}

fn seek<'a>(inner: &'a str, header: &str) -> (r: TokenIterator<'a>)
    ensures
        r.text == inner,
        r.wf(),
        r.cursor() == block_start(inner, header),
{
    let mut it = TokenIterator::new(inner);
    seek_from(&mut it, header);
    it
}

impl<'a> Exports<'a> {
    /// Create a new sequence over the text `inner`, the same text that is
    /// handed to [`ModuleDefinitionFileRef::new`].
    pub fn new(inner: &'a str) -> (r: Self)
        ensures
            r.it.text == inner,
            r.it.wf(),
            r.it.cursor() == block_start(inner, "EXPORTS"),
    {
        Exports { it: seek(inner, "EXPORTS") }
    }
}

impl<'a> Sections<'a> {
    /// Create a new sequence over the text `inner`, the same text that is
    /// handed to [`ModuleDefinitionFileRef::new`].
    pub fn new(inner: &'a str) -> (r: Self)
        ensures
            r.it.text == inner,
            r.it.wf(),
            r.it.cursor() == block_start(inner, "SECTIONS"),
    {
        Sections { it: seek(inner, "SECTIONS") }
    }
}

/// How an exec statement's outcome matches its abstract one.
pub open spec fn stmt_matches<'a>(
    r: Result<(), ParseError<'a>>,
    it: TokenIterator<'a>,
    file: ModuleDefinitionFileRef<'a>,
    m: Result<(Cursor, FileModel), ErrorModel>,
) -> bool {
    match r {
        Ok(_) => m matches Ok((c, f)) && it.cursor() == c && file@ == f,
        Err(e) => m matches Err(em) && e@ == em,
    }
}

fn strip_ident<'a>(s: &'a str) -> (r: &'a str)
    ensures
        bytes_of(r) == strip_quote(bytes_of(s)),
{
    let b = s.as_bytes();
    if b.len() > 0 && b[0] == 0x22 {
        proof {
            lemma_str_valid(s);
            lemma_step_boundary(b@, 0);
        }
        substr(s, 1, b.len())
    } else {
        proof {
            lemma_str_valid(s);
            assert(bytes_of(s).subrange(0, bytes_of(s).len() as int) =~= bytes_of(s));
        }
        s
    }
}

fn parse_base<'a>(it: &mut TokenIterator<'a>, file: &mut ModuleDefinitionFileRef<'a>) -> (r: Result<
    (),
    ParseError<'a>,
>)
    requires
        old(it).wf(),
    ensures
        final(it).text == old(it).text,
        final(it).wf(),
        final(file).sections == old(file).sections,
        final(file).exports == old(file).exports,
        stmt_matches(r, *final(it), *final(file), base_clause(old(it).bytes(), old(it).cursor(), old(file)@)),
{
    if !it.next_token_is("=") {
        return Err(ParseError::new(ParseErrorKind::MissingDesignatorFor("BASE"), it.offset));
    }
    it.eat_token();
    let start = it.offset;
    let ghost c1 = it.cursor();
    proof {
        lemma_eaten(it.bytes(), c1);
    }
    match it.eat_token() {
        None => Err(ParseError::missing_arg("BASE", start)),
        Some(base) => match parse_number(base, start) {
            Err(e) => Err(e),
            Ok(n) => {
                file.base_address = Some(n);
                Ok(())
            },
        },
    }
}

fn parse_name<'a>(
    is_library: bool,
    it: &mut TokenIterator<'a>,
    file: &mut ModuleDefinitionFileRef<'a>,
) -> (r: Result<(), ParseError<'a>>)
    requires
        old(it).wf(),
    ensures
        final(it).text == old(it).text,
        final(it).wf(),
        final(file).sections == old(file).sections,
        final(file).exports == old(file).exports,
        stmt_matches(
            r,
            *final(it),
            *final(file),
            name_statement(old(it).bytes(), old(it).cursor(), old(file)@, is_library),
        ),
{
    file.is_library = Some(is_library);
    match it.peek_token() {
        None => Ok(()),
        Some(next_token) => {
            if !starts_with(next_token, "BASE") && !is_reserved_word(next_token) {
                let name = it.eat_token().unwrap();
                file.name = Some(strip_ident(name));
            }
            if it.next_token_is("BASE") {
                it.eat_token();
                parse_base(it, file)
            } else {
                Ok(())
            }
        },
    }
}

/// The reserve and optional commit of `HEAPSIZE` or `STACKSIZE`.
fn parse_double_arg<'a>(it: &mut TokenIterator<'a>, keyword: &'static str) -> (r: Result<
    (u64, Option<u64>),
    ParseError<'a>,
>)
    requires
        old(it).wf(),
    ensures
        final(it).text == old(it).text,
        final(it).wf(),
        match r {
            Ok((reserve, commit)) => size_args(old(it).bytes(), old(it).cursor(), bytes_of(keyword))
                == Ok::<(Cursor, u64, Option<u64>), ErrorModel>((final(it).cursor(), reserve, commit)),
            Err(e) => size_args(old(it).bytes(), old(it).cursor(), bytes_of(keyword)) == Err::<
                (Cursor, u64, Option<u64>),
                ErrorModel,
            >(e@),
        },
{
    let argument = match it.peek_token() {
        None => {
            return Err(ParseError::new(ParseErrorKind::MissingDesignatorFor(keyword), it.offset));
        },
        Some(a) => a,
    };
    let reserve = match parse_number(argument, it.offset) {
        Err(e) => return Err(e),
        Ok(v) => v,
    };
    it.eat_token();
    if it.next_token_is(",") {
        it.eat_token();
        let start = it.offset;
        let ghost c2 = it.cursor();
        proof {
            lemma_eaten(it.bytes(), c2);
        }
        match it.eat_token() {
            None => Err(
                ParseError::new(ParseErrorKind::MissingArgumentAfterCommaFor(keyword), start),
            ),
            Some(commit) => match parse_number(commit, start) {
                Err(e) => Err(e),
                Ok(v) => Ok((reserve, Some(v))),
            },
        }
    } else {
        Ok((reserve, None))
    }
}

fn parse_stub<'a>(it: &mut TokenIterator<'a>, file: &mut ModuleDefinitionFileRef<'a>) -> (r: Result<
    (),
    ParseError<'a>,
>)
    requires
        old(it).wf(),
    ensures
        final(it).text == old(it).text,
        final(it).wf(),
        final(file).sections == old(file).sections,
        final(file).exports == old(file).exports,
        stmt_matches(r, *final(it), *final(file), stub_statement(old(it).bytes(), old(it).cursor(), old(file)@)),
{
    if !it.next_token_is(":") {
        return Err(ParseError::new(ParseErrorKind::MissingDesignatorFor("STUB"), it.offset));
    }
    it.eat_token();
    let start = it.offset;
    let ghost c1 = it.cursor();
    proof {
        lemma_eaten(it.bytes(), c1);
    }
    match it.eat_token() {
        None => Err(ParseError::missing_arg("STUB", start)),
        Some(stub) => {
            file.stub = Some(strip_ident(stub));
            Ok(())
        },
    }
}

fn parse_version<'a>(it: &mut TokenIterator<'a>, file: &mut ModuleDefinitionFileRef<'a>) -> (r: Result<
    (),
    ParseError<'a>,
>)
    requires
        old(it).wf(),
    ensures
        final(it).text == old(it).text,
        final(it).wf(),
        final(file).sections == old(file).sections,
        final(file).exports == old(file).exports,
        stmt_matches(
            r,
            *final(it),
            *final(file),
            version_statement(old(it).bytes(), old(it).cursor(), old(file)@),
        ),
{
    let start = it.offset;
    let ghost c0 = it.cursor();
    proof {
        lemma_eaten(it.bytes(), c0);
    }
    let major = match it.eat_token() {
        None => return Err(ParseError::missing_arg("VERSION", start)),
        Some(m) => m,
    };
    let major = match parse_u16(major, start) {
        Err(e) => return Err(e),
        Ok(v) => v,
    };
    file.major_version = Some(major);
    file.minor_version = None;
    if it.next_token_is(".") {
        it.eat_token();
        let start = it.offset;
        let ghost c2 = it.cursor();
        proof {
            lemma_eaten(it.bytes(), c2);
        }
        match it.eat_token() {
            None => Err(ParseError::missing_arg("VERSION", start)),
            Some(minor) => match parse_u16(minor, start) {
                Err(e) => Err(e),
                Ok(v) => {
                    file.minor_version = Some(v);
                    Ok(())
                },
            },
        }
    } else {
        Ok(())
    }
}

/// Passes over the body of a `SECTIONS` block, up to the next reserved word.
fn skip_sections_body<'a>(it: &mut TokenIterator<'a>)
    requires
        old(it).wf(),
    ensures
        final(it).text == old(it).text,
        final(it).wf(),
        final(it).cursor() == skip_body(old(it).bytes(), old(it).cursor()),
{
    let ghost b = it.bytes();
    let ghost c0 = it.cursor();
    loop
        invariant
            it.text == old(it).text,
            b == it.bytes(),
            it.wf(),
            skip_body(b, it.cursor()) == skip_body(b, c0),
        ensures
            it.text == old(it).text,
            it.wf(),
            it.cursor() == skip_body(b, c0),
        decreases b.len() - it.offset,
    {
        proof {
            lemma_eaten(b, it.cursor());
        }
        match it.peek_token() {
            None => break,
            Some(token) => {
                if is_reserved_word(token) {
                    break;
                }
                it.eat_token();
            },
        }
    }
}

fn parser_inner<'a>(
    token: &'a str,
    it: &mut TokenIterator<'a>,
    file: &mut ModuleDefinitionFileRef<'a>,
) -> (r: Result<(), ParseError<'a>>)
    requires
        old(it).wf(),
    ensures
        final(it).text == old(it).text,
        final(it).wf(),
        final(file).sections == old(file).sections,
        final(file).exports == old(file).exports,
        stmt_matches(
            r,
            *final(it),
            *final(file),
            statement(old(it).bytes(), bytes_of(token), old(it).cursor(), old(file)@),
        ),
{
    reveal(statement);
    if str_eq(token, "NAME") || str_eq(token, "LIBRARY") {
        let is_library = str_eq(token, "LIBRARY");
        parse_name(is_library, it, file)
    } else if str_eq(token, "HEAPSIZE") {
        match parse_double_arg(it, "HEAPSIZE") {
            Err(e) => Err(e),
            Ok((reserve, commit)) => {
                file.heap_reserve = Some(reserve);
                file.heap_commit = commit;
                Ok(())
            },
        }
    } else if str_eq(token, "STACKSIZE") {
        match parse_double_arg(it, "STACKSIZE") {
            Err(e) => Err(e),
            Ok((reserve, commit)) => {
                file.stack_reserve = Some(reserve);
                file.stack_commit = commit;
                Ok(())
            },
        }
    } else if str_eq(token, "STUB") {
        parse_stub(it, file)
    } else if str_eq(token, "VERSION") {
        parse_version(it, file)
    } else if str_eq(token, "SECTIONS") {
        skip_sections_body(it);
        Ok(())
    } else {
        Ok(())
    }
}

/// What reading `s` gives: the record of its scalar statements with fresh
/// section and export sequences over `s`, or the first error in it.
pub open spec fn parsed_ref<'a>(s: &'a str, r: Result<ModuleDefinitionFileRef<'a>, ParseError<'a>>) -> bool {
    match r {
        Ok(f) => {
            &&& parse_spec(bytes_of(s)) == Ok::<FileModel, ErrorModel>(f@)
            &&& f.sections.it.text == s
            &&& f.sections.it.wf()
            &&& f.sections.it.cursor() == block_start(s, "SECTIONS")
            &&& f.exports.it.text == s
            &&& f.exports.it.wf()
            &&& f.exports.it.cursor() == block_start(s, "EXPORTS")
        },
        Err(e) => parse_spec(bytes_of(s)) == Err::<FileModel, ErrorModel>(e@),
    }
}

/// Reads the scalar statements of `s`; the section and export blocks are
/// left to the record's lazy sequences.
pub fn parse_ref_inner(s: &str) -> (r: Result<ModuleDefinitionFileRef<'_>, ParseError<'_>>)
    ensures
        parsed_ref(s, r),
{
    let mut it = TokenIterator::new(s);
    let mut file = ModuleDefinitionFileRef::inner_new(s);
    let ghost b = bytes_of(s);
    loop
        invariant_except_break
            parse_from(b, it.cursor(), file@) == parse_spec(b),
        invariant
            it.text == s,
            it.wf(),
            file.sections.it.text == s && file.sections.it.wf(),
            file.sections.it.cursor() == block_start(s, "SECTIONS"),
            file.exports.it.text == s && file.exports.it.wf(),
            file.exports.it.cursor() == block_start(s, "EXPORTS"),
            b == bytes_of(s),
        ensures
            parse_spec(b) == Ok::<FileModel, ErrorModel>(file@),
            file.sections.it.text == s && file.sections.it.wf(),
            file.sections.it.cursor() == block_start(s, "SECTIONS"),
            file.exports.it.text == s && file.exports.it.wf(),
            file.exports.it.cursor() == block_start(s, "EXPORTS"),
        decreases b.len() - it.offset,
    {
        let ghost c = it.cursor();
        proof {
            lemma_eaten(b, c);
        }
        match it.eat_token() {
            None => break,
            Some(token) => {
                proof {
                    lemma_statement(b, bytes_of(token), spec_eaten(b, c), file@);
                }
                match parser_inner(token, &mut it, &mut file) {
                    Err(e) => return Err(e),
                    Ok(()) => {},
                }
            },
        }
    }
    Ok(file)
}

impl<'a> ModuleDefinitionFileRef<'a> {
    /// Parse file without allocating.
    pub fn new(file: &'a str) -> (r: Result<Self, ParseError<'a>>)
        ensures
            parsed_ref(file, r),
    {
        parse_ref_inner(file)
    }

    pub(crate) fn inner_new(file: &'a str) -> (r: Self)
        ensures
            r@ == empty_file(),
            r.sections.it.text == file && r.sections.it.wf(),
            r.sections.it.cursor() == block_start(file, "SECTIONS"),
            r.exports.it.text == file && r.exports.it.wf(),
            r.exports.it.cursor() == block_start(file, "EXPORTS"),
    {
        ModuleDefinitionFileRef {
            name: None,
            is_library: None,
            heap_reserve: None,
            heap_commit: None,
            stack_reserve: None,
            stack_commit: None,
            base_address: None,
            stub: None,
            major_version: None,
            minor_version: None,
            sections: Sections::new(file),
            exports: Exports::new(file),
        }
    }
}

/// Abstract section item.
pub struct SectionModel {
    pub name: Seq<u8>,
    pub read: bool,
    pub write: bool,
    pub execute: bool,
    pub shared: bool,
}

/// Abstract export item.
pub struct ExportModel {
    pub name: Seq<u8>,
    pub internal_name: Option<Seq<u8>>,
    pub ordinal: Option<u64>,
    pub noname: bool,
    pub private: bool,
    pub data: bool,
}

/// The first of two errors: `err` if there already is one, else `e`.
pub open spec fn first_error(err: Option<ErrorModel>, e: ErrorModel) -> Option<ErrorModel> {
    if err is Some {
        err
    } else {
        Some(e)
    }
}

/// After an item: when a reserved word follows, the block has ended, and
/// reading goes on after the next `header` token.
pub open spec fn block_tail(b: Seq<u8>, c: Cursor, header: Seq<u8>) -> Cursor {
    match spec_token(b, c) {
        Some(t) => if is_reserved(t) {
            seek_header(b, c, header)
        } else {
            c
        },
        None => c,
    }
}

/// The attributes that follow a section's name: `READ`, `WRITE`, `EXECUTE`,
/// `SHARED`, and the ignored `CLASS <name>`.
pub open spec fn section_attrs(b: Seq<u8>, c: Cursor, item: SectionModel) -> (
    Cursor,
    SectionModel,
    Option<ErrorModel>,
)
    decreases b.len() - c.offset,
{
    let c1 = spec_eaten(b, c);
    match spec_token(b, c) {
        None => (c, item, None),
        Some(t) => if !advances(b, c, c1) {
            (c, item, None)
        } else if t == bytes_of("READ") {
            section_attrs(b, c1, SectionModel { read: true, ..item })
        } else if t == bytes_of("WRITE") {
            section_attrs(b, c1, SectionModel { write: true, ..item })
        } else if t == bytes_of("EXECUTE") {
            section_attrs(b, c1, SectionModel { execute: true, ..item })
        } else if t == bytes_of("SHARED") {
            section_attrs(b, c1, SectionModel { shared: true, ..item })
        } else if t == bytes_of("CLASS") {
            match spec_token(b, c1) {
                None => (
                    spec_eaten(b, c1),
                    item,
                    Some(error_at(KindModel::MissingArgumentFor(bytes_of("SECTIONS")), c1.offset)),
                ),
                Some(_) => if advances(b, c, spec_eaten(b, c1)) {
                    section_attrs(b, spec_eaten(b, c1), item)
                } else {
                    (spec_eaten(b, c1), item, None)
                },
            }
        } else {
            (c, item, None)
        },
    }
}

/// The next item of a section sequence whose cursor is `c`, and the cursor
/// after it.
pub open spec fn section_next(b: Seq<u8>, c: Cursor) -> (Cursor, Option<Result<SectionModel, ErrorModel>>) {
    match spec_token(b, c) {
        None => (spec_eaten(b, c), None),
        Some(name) => {
            let start = SectionModel {
                name,
                read: false,
                write: false,
                execute: false,
                shared: false,
            };
            let (c2, item, err) = section_attrs(b, spec_eaten(b, c), start);
            (
                block_tail(b, c2, bytes_of("SECTIONS")),
                Some(
                    match err {
                        Some(e) => Err(e),
                        None => Ok(item),
                    },
                ),
            )
        },
    }
}

/// A token with its leading `@` signs removed.
pub open spec fn strip_ats(t: Seq<u8>) -> Seq<u8>
    decreases t.len(),
{
    if t.len() > 0 && t[0] == 0x40 {
        strip_ats(t.drop_first())
    } else {
        t
    }
}

/// The attributes that follow an export's name: `=<internal name>`,
/// `@<ordinal>`, `NONAME`, `PRIVATE` and `DATA`. A malformed attribute makes
/// the item an error; the first such error is kept.
pub open spec fn export_attrs(
    b: Seq<u8>,
    c: Cursor,
    item: ExportModel,
    err: Option<ErrorModel>,
) -> (Cursor, ExportModel, Option<ErrorModel>)
    decreases b.len() - c.offset,
{
    let c1 = spec_eaten(b, c);
    match spec_token(b, c) {
        None => (c, item, err),
        Some(t) => if !advances(b, c, c1) {
            (c, item, err)
        } else if t == bytes_of("=") {
            match spec_token(b, c1) {
                None => (
                    c1,
                    item,
                    first_error(
                        err,
                        error_at(KindModel::MissingArgumentFor(bytes_of("EXPORTS")), c1.offset),
                    ),
                ),
                Some(n) => if advances(b, c, spec_eaten(b, c1)) {
                    export_attrs(
                        b,
                        spec_eaten(b, c1),
                        ExportModel { internal_name: Some(n), ..item },
                        err,
                    )
                } else {
                    (c, item, err)
                },
            }
        } else if t == bytes_of("NONAME") {
            export_attrs(b, c1, ExportModel { noname: true, ..item }, err)
        } else if t == bytes_of("PRIVATE") {
            export_attrs(b, c1, ExportModel { private: true, ..item }, err)
        } else if t == bytes_of("DATA") {
            export_attrs(b, c1, ExportModel { data: true, ..item }, err)
        } else if t.len() > 0 && t[0] == 0x40 {
            match number_result(strip_ats(t), c.offset, u64::MAX as int) {
                Err(e) => export_attrs(b, c1, item, first_error(err, e)),
                Ok(v) => export_attrs(b, c1, ExportModel { ordinal: Some(v as u64), ..item }, err),
            }
        } else {
            (c, item, err)
        },
    }
}

/// The next item of an export sequence whose cursor is `c`, and the cursor
/// after it.
pub open spec fn export_next(b: Seq<u8>, c: Cursor) -> (Cursor, Option<Result<ExportModel, ErrorModel>>) {
    match spec_token(b, c) {
        None => (spec_eaten(b, c), None),
        Some(name) => {
            let start = ExportModel {
                name,
                internal_name: None,
                ordinal: None,
                noname: false,
                private: false,
                data: false,
            };
            let (c2, item, err) = export_attrs(b, spec_eaten(b, c), start, None);
            (
                block_tail(b, c2, bytes_of("EXPORTS")),
                Some(
                    match err {
                        Some(e) => Err(e),
                        None => Ok(item),
                    },
                ),
            )
        },
    }
}

/// Section of the image, as named in a `SECTIONS` block.
#[derive(Debug, Clone, Copy, PartialEq, Eq, Hash)]
pub struct SectionRef<'a> {
    /// Name of the section in the program image.
    pub name: &'a str,
    /// Allows read operations on data.
    pub read: bool,
    /// Allows write operations on data.
    pub write: bool,
    /// The section is executable.
    pub execute: bool,
    /// Shares the section among all processes that load the image.
    pub shared: bool,
}

impl<'a> View for SectionRef<'a> {
    type V = SectionModel;

    open spec fn view(&self) -> SectionModel {
        SectionModel {
            name: bytes_of(self.name),
            read: self.read,
            write: self.write,
            execute: self.execute,
            shared: self.shared,
        }
    }
}

impl<'a> SectionRef<'a> {
    /// Create new [`SectionRef`].
    pub fn new(name: &'a str, read: bool, write: bool, execute: bool, shared: bool) -> (r: Self)
        ensures
            r.name == name,
            r.read == read,
            r.write == write,
            r.execute == execute,
            r.shared == shared,
    {
        SectionRef { name, read, write, execute, shared }
    }
}

/// Export definition, as given in an `EXPORTS` block.
#[derive(Debug, Clone, Copy, PartialEq, Eq, Hash)]
pub struct ExportRef<'a> {
    /// The public name of the exported function; also its internal name when
    /// `internal_name` is `None`.
    pub name: &'a str,
    /// The internal name of the function to export.
    pub internal_name: Option<&'a str>,
    /// The ordinal associated with the export.
    pub ordinal: Option<u64>,
    /// Export by ordinal only.
    pub noname: bool,
    /// Keep the name out of the import library.
    pub private: bool,
    /// The export is data, not code.
    pub data: bool,
}

impl<'a> View for ExportRef<'a> {
    type V = ExportModel;

    open spec fn view(&self) -> ExportModel {
        ExportModel {
            name: bytes_of(self.name),
            internal_name: opt_bytes(self.internal_name),
            ordinal: self.ordinal,
            noname: self.noname,
            private: self.private,
            data: self.data,
        }
    }
}

impl<'a> ExportRef<'a> {
    /// Create a new export item.
    pub fn new(
        name: &'a str,
        internal_name: Option<&'a str>,
        ordinal: Option<u64>,
        noname: bool,
        private: bool,
        data: bool,
    ) -> (r: Self)
        ensures
            r.name == name,
            r.internal_name == internal_name,
            r.ordinal == ordinal,
            r.noname == noname,
            r.private == private,
            r.data == data,
    {
        ExportRef { name, internal_name, ordinal, noname, private, data }
    }
}

/// The abstract form of a pulled section item.
pub open spec fn section_item_view<'a>(r: Option<Result<SectionRef<'a>, ParseError<'a>>>) -> Option<
    Result<SectionModel, ErrorModel>,
> {
    match r {
        None => None,
        Some(Ok(s)) => Some(Ok(s@)),
        Some(Err(e)) => Some(Err(e@)),
    }
}

/// The abstract form of a pulled export item.
pub open spec fn export_item_view<'a>(r: Option<Result<ExportRef<'a>, ParseError<'a>>>) -> Option<
    Result<ExportModel, ErrorModel>,
> {
    match r {
        None => None,
        Some(Ok(s)) => Some(Ok(s@)),
        Some(Err(e)) => Some(Err(e@)),
    }
}

proof fn lemma_section_attrs(b: Seq<u8>, c: Cursor, item: SectionModel)
    requires
        cursor_wf(b, c),
    ensures
        cursor_wf(b, section_attrs(b, c, item).0),
        c.offset <= section_attrs(b, c, item).0.offset,
        section_attrs(b, c, item).1.name == item.name,
    decreases b.len() - c.offset,
{
    let c1 = spec_eaten(b, c);
    lemma_eaten(b, c);
    lemma_eaten(b, c1);
    if let Some(t) = spec_token(b, c) {
        if advances(b, c, c1) {
            if t == bytes_of("READ") {
                lemma_section_attrs(b, c1, SectionModel { read: true, ..item });
            } else if t == bytes_of("WRITE") {
                lemma_section_attrs(b, c1, SectionModel { write: true, ..item });
            } else if t == bytes_of("EXECUTE") {
                lemma_section_attrs(b, c1, SectionModel { execute: true, ..item });
            } else if t == bytes_of("SHARED") {
                lemma_section_attrs(b, c1, SectionModel { shared: true, ..item });
            } else if t == bytes_of("CLASS") {
                if spec_token(b, c1) is Some && advances(b, c, spec_eaten(b, c1)) {
                    lemma_section_attrs(b, spec_eaten(b, c1), item);
                }
            }
        }
    }
}

proof fn lemma_export_attrs(b: Seq<u8>, c: Cursor, item: ExportModel, err: Option<ErrorModel>)
    requires
        cursor_wf(b, c),
    ensures
        cursor_wf(b, export_attrs(b, c, item, err).0),
        c.offset <= export_attrs(b, c, item, err).0.offset,
        export_attrs(b, c, item, err).1.name == item.name,
        err is Some ==> export_attrs(b, c, item, err).2 == err,
    decreases b.len() - c.offset,
{
    let c1 = spec_eaten(b, c);
    lemma_eaten(b, c);
    lemma_eaten(b, c1);
    let c2 = spec_eaten(b, c1);
    if let Some(t) = spec_token(b, c) {
        if advances(b, c, c1) {
            if t == bytes_of("=") {
                if let Some(n) = spec_token(b, c1) {
                    if advances(b, c, c2) {
                        lemma_export_attrs(b, c2, ExportModel { internal_name: Some(n), ..item }, err);
                    }
                }
            } else if t == bytes_of("NONAME") {
                lemma_export_attrs(b, c1, ExportModel { noname: true, ..item }, err);
            } else if t == bytes_of("PRIVATE") {
                lemma_export_attrs(b, c1, ExportModel { private: true, ..item }, err);
            } else if t == bytes_of("DATA") {
                lemma_export_attrs(b, c1, ExportModel { data: true, ..item }, err);
            } else if t.len() > 0 && t[0] == 0x40 {
                match number_result(strip_ats(t), c.offset, u64::MAX as int) {
                    Err(e) => lemma_export_attrs(b, c1, item, first_error(err, e)),
                    Ok(v) => lemma_export_attrs(
                        b,
                        c1,
                        ExportModel { ordinal: Some(v as u64), ..item },
                        err,
                    ),
                }
            }
        }
    }
}

proof fn lemma_block_tail(b: Seq<u8>, c: Cursor, header: Seq<u8>)
    requires
        cursor_wf(b, c),
    ensures
        cursor_wf(b, block_tail(b, c, header)),
        c.offset <= block_tail(b, c, header).offset,
{
    lemma_seek_header(b, c, header);
}

/// Passes over the rest of the file up to the next `header` when a reserved
/// word ends the block.
fn end_of_item<'a>(it: &mut TokenIterator<'a>, header: &str)
    requires
        old(it).wf(),
    ensures
        final(it).text == old(it).text,
        final(it).wf(),
        final(it).cursor() == block_tail(old(it).bytes(), old(it).cursor(), bytes_of(header)),
{
    if it.next_token_is_keyword() {
        seek_from(it, header);
    }
}

/// The token `s` without its leading `@` signs.
fn trim_ats<'a>(s: &'a str) -> (r: &'a str)
    ensures
        bytes_of(r) == strip_ats(bytes_of(s)),
{
    let b = s.as_bytes();
    let mut i: usize = 0;
    proof {
        lemma_str_valid(s);
        assert(b@.subrange(0, b@.len() as int) =~= b@);
    }
    while i < b.len() && b[i] == 0x40
        invariant
            i <= b@.len(),
            b@ == bytes_of(s),
            valid_utf8(b@),
            is_char_boundary(b@, i as int),
            strip_ats(b@.subrange(i as int, b@.len() as int)) == strip_ats(b@),
        decreases b@.len() - i,
    {
        proof {
            lemma_step_boundary(b@, i as int);
            assert(b@.subrange(i as int, b@.len() as int).drop_first() =~= b@.subrange(
                i + 1,
                b@.len() as int,
            ));
        }
        i = i + 1;
    }
    substr(s, i, b.len())
}

impl<'a> Sections<'a> {
    /// Reads the next section, an error for a malformed one, or `None` when
    /// the sequence is exhausted.
    pub fn next(&mut self) -> (r: Option<Result<SectionRef<'a>, ParseError<'a>>>)
        requires
            old(self).it.wf(),
        ensures
            final(self).it.text == old(self).it.text,
            final(self).it.wf(),
            (final(self).it.cursor(), section_item_view(r)) == section_next(
                old(self).it.bytes(),
                old(self).it.cursor(),
            ),
    {
        let ghost b = self.it.bytes();
        let name = match self.it.eat_token() {
            None => return None,
            Some(n) => n,
        };
        let ghost c1 = self.it.cursor();
        let ghost start = SectionModel {
            name: bytes_of(name),
            read: false,
            write: false,
            execute: false,
            shared: false,
        };
        let mut read = false;
        let mut write = false;
        let mut execute = false;
        let mut shared = false;
        let mut err: Option<ParseError<'a>> = None;
        loop
            invariant_except_break
                section_attrs(
                    b,
                    self.it.cursor(),
                    SectionModel { name: bytes_of(name), read, write, execute, shared },
                ) == section_attrs(b, c1, start),
                err is None,
            invariant
                b == self.it.bytes(),
                self.it.text == old(self).it.text,
                self.it.wf(),
            ensures
                section_attrs(b, c1, start) == (
                    self.it.cursor(),
                    SectionModel { name: bytes_of(name), read, write, execute, shared },
                    match err {
                        Some(e) => Some(e@),
                        None => None::<ErrorModel>,
                    },
                ),
            decreases b.len() - self.it.offset,
        {
            let ghost c = self.it.cursor();
            proof {
                lemma_eaten(b, c);
                lemma_eaten(b, spec_eaten(b, c));
            }
            let token = match self.it.peek_token() {
                None => break,
                Some(t) => t,
            };
            if str_eq(token, "READ") {
                read = true;
            } else if str_eq(token, "WRITE") {
                write = true;
            } else if str_eq(token, "EXECUTE") {
                execute = true;
            } else if str_eq(token, "SHARED") {
                shared = true;
            } else if str_eq(token, "CLASS") {
                self.it.eat_token();
                let at = self.it.offset;
                proof {
                    lemma_eaten(b, self.it.cursor());
                }
                if self.it.eat_token().is_none() {
                    err = Some(ParseError::missing_arg("SECTIONS", at));
                    break;
                }
                continue;
            } else {
                break;
            }
            self.it.eat_token();
        }
        proof {
            lemma_section_attrs(b, c1, start);
        }
        end_of_item(&mut self.it, "SECTIONS");
        match err {
            Some(e) => Some(Err(e)),
            None => Some(Ok(SectionRef::new(name, read, write, execute, shared))),
        }
    }
}

impl<'a> Exports<'a> {
    /// Reads the next export, an error for a malformed one, or `None` when
    /// the sequence is exhausted.
    pub fn next(&mut self) -> (r: Option<Result<ExportRef<'a>, ParseError<'a>>>)
        requires
            old(self).it.wf(),
        ensures
            final(self).it.text == old(self).it.text,
            final(self).it.wf(),
            (final(self).it.cursor(), export_item_view(r)) == export_next(
                old(self).it.bytes(),
                old(self).it.cursor(),
            ),
    {
        let ghost b = self.it.bytes();
        let name = match self.it.eat_token() {
            None => return None,
            Some(n) => n,
        };
        let ghost c1 = self.it.cursor();
        let ghost start = ExportModel {
            name: bytes_of(name),
            internal_name: None,
            ordinal: None,
            noname: false,
            private: false,
            data: false,
        };
        let mut internal_name: Option<&'a str> = None;
        let mut ordinal: Option<u64> = None;
        let mut noname = false;
        let mut private = false;
        let mut data = false;
        let mut err: Option<ParseError<'a>> = None;
        loop
            invariant_except_break
                export_attrs(
                    b,
                    self.it.cursor(),
                    ExportModel {
                        name: bytes_of(name),
                        internal_name: opt_bytes(internal_name),
                        ordinal,
                        noname,
                        private,
                        data,
                    },
                    match err {
                        Some(e) => Some(e@),
                        None => None::<ErrorModel>,
                    },
                ) == export_attrs(b, c1, start, None),
            invariant
                b == self.it.bytes(),
                self.it.text == old(self).it.text,
                self.it.wf(),
            ensures
                export_attrs(b, c1, start, None) == (
                    self.it.cursor(),
                    ExportModel {
                        name: bytes_of(name),
                        internal_name: opt_bytes(internal_name),
                        ordinal,
                        noname,
                        private,
                        data,
                    },
                    match err {
                        Some(e) => Some(e@),
                        None => None::<ErrorModel>,
                    },
                ),
            decreases b.len() - self.it.offset,
        {
            let ghost c = self.it.cursor();
            proof {
                lemma_eaten(b, c);
                lemma_eaten(b, spec_eaten(b, c));
            }
            let at = self.it.offset;
            let token = match self.it.peek_token() {
                None => break,
                Some(t) => t,
            };
            if str_eq(token, "=") {
                self.it.eat_token();
                let at = self.it.offset;
                match self.it.peek_token() {
                    None => {
                        if err.is_none() {
                            err = Some(ParseError::missing_arg("EXPORTS", at));
                        }
                        break;
                    },
                    Some(n) => {
                        internal_name = Some(n);
                    },
                }
            } else if str_eq(token, "NONAME") {
                noname = true;
            } else if str_eq(token, "PRIVATE") {
                private = true;
            } else if str_eq(token, "DATA") {
                data = true;
            } else if token.as_bytes().len() > 0 && token.as_bytes()[0] == 0x40 {
                match parse_number(trim_ats(token), at) {
                    Ok(v) => {
                        ordinal = Some(v);
                    },
                    Err(e) => {
                        if err.is_none() {
                            err = Some(e);
                        }
                    },
                }
            } else {
                break;
            }
            self.it.eat_token();
        }
        proof {
            lemma_export_attrs(b, c1, start, None);
        }
        end_of_item(&mut self.it, "EXPORTS");
        match err {
            Some(e) => Some(Err(e)),
            None => Some(
                Ok(ExportRef::new(name, internal_name, ordinal, noname, private, data)),
            ),
        }
    }
}

/// The well-formed items that a section sequence from cursor `c` yields,
/// in order; malformed items are left out.
pub open spec fn ok_sections(b: Seq<u8>, c: Cursor) -> Seq<SectionModel>
    decreases b.len() - c.offset,
{
    let (c2, item) = section_next(b, c);
    match item {
        None => Seq::empty(),
        Some(r) => if advances(b, c, c2) {
            match r {
                Ok(x) => seq![x] + ok_sections(b, c2),
                Err(_) => ok_sections(b, c2),
            }
        } else {
            Seq::empty()
        },
    }
}

/// The well-formed items that an export sequence from cursor `c` yields,
/// in order; malformed items are left out.
pub open spec fn ok_exports(b: Seq<u8>, c: Cursor) -> Seq<ExportModel>
    decreases b.len() - c.offset,
{
    let (c2, item) = export_next(b, c);
    match item {
        None => Seq::empty(),
        Some(r) => if advances(b, c, c2) {
            match r {
                Ok(x) => seq![x] + ok_exports(b, c2),
                Err(_) => ok_exports(b, c2),
            }
        } else {
            Seq::empty()
        },
    }
}

/// Pulling an item moves a section sequence forward.
pub proof fn lemma_section_next(b: Seq<u8>, c: Cursor)
    requires
        cursor_wf(b, c),
    ensures
        cursor_wf(b, section_next(b, c).0),
        section_next(b, c).1 is Some ==> advances(b, c, section_next(b, c).0),
        section_next(b, c).1 is None ==> section_next(b, c).0.offset == c.offset,
{
    lemma_eaten(b, c);
    if let Some(name) = spec_token(b, c) {
        let start = SectionModel { name, read: false, write: false, execute: false, shared: false };
        lemma_section_attrs(b, spec_eaten(b, c), start);
        let (c2, item, err) = section_attrs(b, spec_eaten(b, c), start);
        lemma_block_tail(b, c2, bytes_of("SECTIONS"));
    }
}

/// Pulling an item moves an export sequence forward.
pub proof fn lemma_export_next(b: Seq<u8>, c: Cursor)
    requires
        cursor_wf(b, c),
    ensures
        cursor_wf(b, export_next(b, c).0),
        export_next(b, c).1 is Some ==> advances(b, c, export_next(b, c).0),
        export_next(b, c).1 is None ==> export_next(b, c).0.offset == c.offset,
{
    lemma_eaten(b, c);
    if let Some(name) = spec_token(b, c) {
        let start = ExportModel {
            name,
            internal_name: None,
            ordinal: None,
            noname: false,
            private: false,
            data: false,
        };
        lemma_export_attrs(b, spec_eaten(b, c), start, None);
        let (c2, item, err) = export_attrs(b, spec_eaten(b, c), start, None);
        lemma_block_tail(b, c2, bytes_of("EXPORTS"));
    }
}

/// The canonical text of a record: its scalar fields, then the well-formed
/// items of its section and export sequences.
pub open spec fn rendered_ref<'a>(f: ModuleDefinitionFileRef<'a>) -> Seq<u8> {
    render_file(
        f@,
        ok_sections(f.sections.it.bytes(), f.sections.it.cursor()),
        ok_exports(f.exports.it.bytes(), f.exports.it.cursor()),
    )
}

proof fn lemma_ok_sections_step(b: Seq<u8>, c: Cursor)
    requires
        cursor_wf(b, c),
    ensures
        section_next(b, c).1 is None ==> ok_sections(b, c) =~= Seq::<SectionModel>::empty(),
        section_next(b, c).1 matches Some(r) ==> ok_sections(b, c) =~= match r {
            Ok(x) => seq![x],
            Err(_) => Seq::<SectionModel>::empty(),
        } + ok_sections(b, section_next(b, c).0),
{
    lemma_section_next(b, c);
}

proof fn lemma_ok_exports_step(b: Seq<u8>, c: Cursor)
    requires
        cursor_wf(b, c),
    ensures
        export_next(b, c).1 is None ==> ok_exports(b, c) =~= Seq::<ExportModel>::empty(),
        export_next(b, c).1 matches Some(r) ==> ok_exports(b, c) =~= match r {
            Ok(x) => seq![x],
            Err(_) => Seq::<ExportModel>::empty(),
        } + ok_exports(b, export_next(b, c).0),
{
    lemma_export_next(b, c);
}

/// Appends the `SECTIONS` block of the well-formed items that `sections`
/// yields.
#[verifier::rlimit(50)]
fn write_sections<'a>(out: &mut Vec<u8>, sections: Sections<'a>)
    requires
        sections.it.wf(),
    ensures
        final(out)@ == old(out)@ + render_sections(
            ok_sections(sections.it.bytes(), sections.it.cursor()),
        ),
        valid_utf8(old(out)@) ==> valid_utf8(final(out)@),
{
    let mut sections = sections;
    let ghost b = sections.it.bytes();
    let ghost c0 = sections.it.cursor();
    let ghost start = out@;
    let ghost mut acc: Seq<SectionModel> = Seq::empty();
    let mut has_header = false;
    loop
        invariant_except_break
            ok_sections(b, c0) == acc + ok_sections(b, sections.it.cursor()),
        invariant
            sections.it.wf(),
            sections.it.bytes() == b,
            out@ == start + render_sections(acc),
            has_header == (acc.len() > 0),
            valid_utf8(start) ==> valid_utf8(out@),
        ensures
            ok_sections(b, c0) == acc,
        decreases b.len() - sections.it.offset,
    {
        let ghost c = sections.it.cursor();
        proof {
            lemma_section_next(b, c);
            lemma_ok_sections_step(b, c);
        }
        match sections.next() {
            None => {
                assert(acc + ok_sections(b, c) =~= acc);
                break;
            },
            Some(Err(_)) => {},
            Some(Ok(section)) => {
                let ghost before = out@;
                if !has_header {
                    crate::render::push_str(out, "SECTIONS\n");
                    has_header = true;
                }
                push_section(
                    out,
                    section.name,
                    section.read,
                    section.write,
                    section.execute,
                    section.shared,
                );
                proof {
                    let acc2 = acc.push(section@);
                    assert(acc2.drop_last() =~= acc);
                    assert(acc2.last() == section@);
                    assert(section_lines(acc2) == section_lines(acc) + render_section(section@));
                    if acc.len() == 0 {
                        assert(section_lines(acc) =~= Seq::<u8>::empty());
                    }
                    assert(acc + ok_sections(b, c) =~= acc2 + ok_sections(b, sections.it.cursor()));
                    assert(out@ =~= start + render_sections(acc2));
                    acc = acc2;
                }
            },
        }
    }
}

/// Appends the `EXPORTS` block of the well-formed items that `exports`
/// yields.
#[verifier::rlimit(50)]
fn write_exports<'a>(out: &mut Vec<u8>, exports: Exports<'a>)
    requires
        exports.it.wf(),
    ensures
        final(out)@ == old(out)@ + render_exports(
            ok_exports(exports.it.bytes(), exports.it.cursor()),
        ),
        valid_utf8(old(out)@) ==> valid_utf8(final(out)@),
{
    let mut exports = exports;
    let ghost b = exports.it.bytes();
    let ghost c0 = exports.it.cursor();
    let ghost start = out@;
    let ghost mut acc: Seq<ExportModel> = Seq::empty();
    let mut has_header = false;
    loop
        invariant_except_break
            ok_exports(b, c0) == acc + ok_exports(b, exports.it.cursor()),
        invariant
            exports.it.wf(),
            exports.it.bytes() == b,
            out@ == start + render_exports(acc),
            has_header == (acc.len() > 0),
            valid_utf8(start) ==> valid_utf8(out@),
        ensures
            ok_exports(b, c0) == acc,
        decreases b.len() - exports.it.offset,
    {
        let ghost c = exports.it.cursor();
        proof {
            lemma_export_next(b, c);
            lemma_ok_exports_step(b, c);
        }
        match exports.next() {
            None => {
                assert(acc + ok_exports(b, c) =~= acc);
                break;
            },
            Some(Err(_)) => {},
            Some(Ok(export)) => {
                if !has_header {
                    crate::render::push_str(out, "EXPORTS\n");
                    has_header = true;
                }
                push_export(
                    out,
                    export.name,
                    export.internal_name,
                    export.ordinal,
                    export.noname,
                    export.private,
                    export.data,
                );
                proof {
                    let acc2 = acc.push(export@);
                    assert(acc2.drop_last() =~= acc);
                    assert(acc2.last() == export@);
                    assert(export_lines(acc2) == export_lines(acc) + render_export(export@));
                    if acc.len() == 0 {
                        assert(export_lines(acc) =~= Seq::<u8>::empty());
                    }
                    assert(acc + ok_exports(b, c) =~= acc2 + ok_exports(b, exports.it.cursor()));
                    assert(out@ =~= start + render_exports(acc2));
                    acc = acc2;
                }
            },
        }
    }
}

/// Copies `src` to the front of `dst`, which is at least as long.
fn copy_into(dst: &mut [u8], src: &Vec<u8>)
    requires
        src@.len() <= old(dst)@.len(),
    ensures
        final(dst)@.len() == old(dst)@.len(),
        final(dst)@.subrange(0, src@.len() as int) == src@,
        final(dst)@.subrange(src@.len() as int, old(dst)@.len() as int) == old(dst)@.subrange(
            src@.len() as int,
            old(dst)@.len() as int,
        ),
{
    let mut i: usize = 0;
    while i < src.len()
        invariant
            i <= src@.len(),
            src@.len() <= dst@.len(),
            dst@.len() == old(dst)@.len(),
            forall|k: int| 0 <= k < i ==> dst@[k] == src@[k],
            forall|k: int| i <= k < dst@.len() ==> dst@[k] == old(dst)@[k],
        decreases src@.len() - i,
    {
        dst[i] = src[i];
        i = i + 1;
    }
    assert(dst@.subrange(0, src@.len() as int) =~= src@);
    assert(dst@.subrange(src@.len() as int, old(dst)@.len() as int) =~= old(dst)@.subrange(
        src@.len() as int,
        old(dst)@.len() as int,
    ));
}

impl<'a> ModuleDefinitionFileRef<'a> {
    /// The canonical text of the record, as bytes.
    pub(crate) fn render(&self) -> (r: Vec<u8>)
        requires
            self.sections.it.wf(),
            self.exports.it.wf(),
        ensures
            r@ == rendered_ref(*self),
            valid_utf8(r@),
    {
        let mut out: Vec<u8> = Vec::new();
        write_file_to_write(
            &mut out,
            self.name,
            self.is_library,
            self.base_address,
            self.heap_reserve,
            self.heap_commit,
            self.stack_reserve,
            self.stack_commit,
            self.stub,
            self.major_version,
            self.minor_version,
        );
        write_sections(&mut out, self.sections);
        write_exports(&mut out, self.exports);
        assert(out@ =~= rendered_ref(*self));
        out
    }

    /// Writes the file to `buf` in canonical form and returns the text
    /// written: the scalar statements in a fixed order, then the well-formed
    /// sections and exports, each on an indented line; malformed items are
    /// left out. Fails with `core::fmt::Error` when the text does not fit.
    pub fn write_to_buffer<'buf>(&self, buf: &'buf mut [u8]) -> (r: Result<
        Result<&'buf str, core::str::Utf8Error>,
        core::fmt::Error,
    >)
        requires
            self.sections.it.wf(),
            self.exports.it.wf(),
        ensures
            r is Ok <==> rendered_ref(*self).len() <= old(buf)@.len(),
            r matches Ok(inner) ==> (inner matches Ok(s) && bytes_of(s) == rendered_ref(*self)),
            r is Ok ==> final(buf)@.subrange(0, rendered_ref(*self).len() as int)
                == rendered_ref(*self),
            r is Ok ==> final(buf)@.subrange(rendered_ref(*self).len() as int, old(buf)@.len() as int)
                == old(buf)@.subrange(rendered_ref(*self).len() as int, old(buf)@.len() as int),
            r is Err ==> final(buf)@ == old(buf)@,
            final(buf)@.len() == old(buf)@.len(),
    {
        let out = self.render();
        if out.len() > buf.len() {
            return Err(core::fmt::Error::default());
        }
        copy_into(buf, &out);
        let shared: &'buf [u8] = buf;
        let (head, _) = shared.split_at(out.len());
        assert(head@ == out@);
        Ok(str_from_utf8(head))
    }
}

} // verus!
