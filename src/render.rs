//! Writing a record back out in canonical form.
use vstd::prelude::*;
use vstd::utf8::*;

use crate::parse_ref::{opt_bytes, ExportModel, FileModel, SectionModel};
use crate::text::{bytes_of, lemma_str_valid};

verus! {


/// The character for digit `d` (uppercase for hexadecimal digits).
pub open spec fn digit_char(d: int) -> u8 {
    if d < 10 {
        (0x30 + d) as u8
    } else {
        (0x41 + d - 10) as u8
    }
}

/// Decimal digits of `n`, without leading zeros.
pub open spec fn dec_digits(n: nat) -> Seq<u8>
    decreases n,
{
    if n < 10 {
        seq![digit_char(n as int)]
    } else {
        dec_digits(n / 10) + seq![digit_char((n % 10) as int)]
    }
}

/// Uppercase hexadecimal digits of `n`, without leading zeros.
pub open spec fn hex_digits(n: nat) -> Seq<u8>
    decreases n,
{
    if n < 16 {
        seq![digit_char(n as int)]
    } else {
        hex_digits(n / 16) + seq![digit_char((n % 16) as int)]
    }
}

/// `n` in hexadecimal with a `0x` prefix.
pub open spec fn hex_text(n: nat) -> Seq<u8> {
    seq![0x30u8, 0x78u8] + hex_digits(n)
}

/// Whether a name must be quoted: it holds a space or a `;`.
pub open spec fn needs_quotes_spec(t: Seq<u8>) -> bool {
    t.contains(0x20) || t.contains(0x3b)
}

/// A name as written: in double quotes when it needs them.
pub open spec fn quoted(t: Seq<u8>) -> Seq<u8> {
    if needs_quotes_spec(t) {
        seq![0x22u8] + t + seq![0x22u8]
    } else {
        t
    }
}

/// The `NAME` or `LIBRARY` line, written whenever the kind is known: the
/// keyword, the name when there is one, the base address when there is one.
/// Without a kind no statement can carry a name or a base address.
pub open spec fn render_header(m: FileModel) -> Seq<u8> {
    match m.is_library {
        None => Seq::empty(),
        Some(l) => {
            let kw = if l {
                bytes_of("LIBRARY")
            } else {
                bytes_of("NAME")
            };
            let name = match m.name {
                Some(n) => bytes_of(" ") + quoted(n),
                None => Seq::empty(),
            };
            let base = match m.base_address {
                Some(x) => bytes_of(" BASE=") + hex_text(x as nat),
                None => Seq::empty(),
            };
            kw + name + base + bytes_of("\n")
        },
    }
}

/// The `HEAPSIZE` or `STACKSIZE` line, led by `kw`.
pub open spec fn render_size(kw: Seq<u8>, reserve: Option<u64>, commit: Option<u64>) -> Seq<u8> {
    match reserve {
        None => Seq::empty(),
        Some(r) => kw + hex_text(r as nat) + match commit {
            Some(c) => bytes_of(",") + hex_text(c as nat),
            None => Seq::empty(),
        } + bytes_of("\n"),
    }
}

/// The `STUB` line.
pub open spec fn render_stub(stub: Option<Seq<u8>>) -> Seq<u8> {
    match stub {
        None => Seq::empty(),
        Some(s) => bytes_of("STUB:") + quoted(s) + bytes_of("\n"),
    }
}

/// The `VERSION` line.
pub open spec fn render_version(major: Option<u16>, minor: Option<u16>) -> Seq<u8> {
    match major {
        None => Seq::empty(),
        Some(a) => bytes_of("VERSION ") + dec_digits(a as nat) + match minor {
            Some(b) => bytes_of(".") + dec_digits(b as nat),
            None => Seq::empty(),
        } + bytes_of("\n"),
    }
}

/// The scalar statements, in canonical order.
pub open spec fn render_scalars(m: FileModel) -> Seq<u8> {
    render_header(m) + render_size(bytes_of("HEAPSIZE "), m.heap_reserve, m.heap_commit)
        + render_size(bytes_of("STACKSIZE "), m.stack_reserve, m.stack_commit) + render_stub(m.stub)
        + render_version(m.major_version, m.minor_version)
}

/// `text` when `flag` holds, nothing otherwise.
pub open spec fn flag_text(flag: bool, text: Seq<u8>) -> Seq<u8> {
    if flag {
        text
    } else {
        Seq::empty()
    }
}

/// One indented line of a `SECTIONS` block.
pub open spec fn render_section(s: SectionModel) -> Seq<u8> {
    bytes_of("    ") + s.name + flag_text(s.read, bytes_of(" READ")) + flag_text(
        s.write,
        bytes_of(" WRITE"),
    ) + flag_text(s.execute, bytes_of(" EXECUTE")) + flag_text(s.shared, bytes_of(" SHARED"))
        + bytes_of("\n")
}

/// One indented line of an `EXPORTS` block.
pub open spec fn render_export(e: ExportModel) -> Seq<u8> {
    bytes_of("    ") + e.name + match e.internal_name {
        Some(i) => bytes_of("=") + i,
        None => Seq::empty(),
    } + match e.ordinal {
        Some(o) => bytes_of(" @") + dec_digits(o as nat) + flag_text(e.noname, bytes_of(" NONAME")),
        None => Seq::empty(),
    } + flag_text(e.private, bytes_of(" PRIVATE")) + flag_text(e.data, bytes_of(" DATA"))
        + bytes_of("\n")
}

/// The lines of the given sections, one after another.
pub open spec fn section_lines(items: Seq<SectionModel>) -> Seq<u8>
    decreases items.len(),
{
    if items.len() == 0 {
        Seq::empty()
    } else {
        section_lines(items.drop_last()) + render_section(items.last())
    }
}

/// The lines of the given exports, one after another.
pub open spec fn export_lines(items: Seq<ExportModel>) -> Seq<u8>
    decreases items.len(),
{
    if items.len() == 0 {
        Seq::empty()
    } else {
        export_lines(items.drop_last()) + render_export(items.last())
    }
}

/// The `SECTIONS` block, left out when there is no section.
pub open spec fn render_sections(items: Seq<SectionModel>) -> Seq<u8> {
    if items.len() == 0 {
        Seq::empty()
    } else {
        bytes_of("SECTIONS\n") + section_lines(items)
    }
}

/// The `EXPORTS` block, left out when there is no export.
pub open spec fn render_exports(items: Seq<ExportModel>) -> Seq<u8> {
    if items.len() == 0 {
        Seq::empty()
    } else {
        bytes_of("EXPORTS\n") + export_lines(items)
    }
}

/// The whole file in canonical form.
pub open spec fn render_file(
    m: FileModel,
    sections: Seq<SectionModel>,
    exports: Seq<ExportModel>,
) -> Seq<u8> {
    render_scalars(m) + render_sections(sections) + render_exports(exports)
}

proof fn lemma_ascii_byte_valid(c: u8)
    requires
        c < 0x80,
    ensures
        valid_utf8(seq![c]),
{
    let s = seq![c];
    reveal_with_fuel(valid_utf8, 2);
    assert((c & 0x7F) <= 0x7F) by (bit_vector);
    assert(pop_first_scalar(s) =~= Seq::<u8>::empty());
}

/// Appends the text `s`.
pub fn push_str(out: &mut Vec<u8>, s: &str)
    ensures
        final(out)@ == old(out)@ + bytes_of(s),
        valid_utf8(old(out)@) ==> valid_utf8(final(out)@),
{
    let b = s.as_bytes();
    let ghost start = out@;
    let mut i: usize = 0;
    while i < b.len()
        invariant
            i <= b@.len(),
            out@ == start + b@.subrange(0, i as int),
        decreases b@.len() - i,
    {
        out.push(b[i]);
        i = i + 1;
        assert(out@ =~= start + b@.subrange(0, i as int));
    }
    assert(b@.subrange(0, i as int) =~= b@);
    proof {
        lemma_str_valid(s);
        if valid_utf8(start) {
            valid_utf8_concat(start, bytes_of(s));
        }
    }
}

/// Appends the digits of `n`, hexadecimal when `hex` holds and decimal otherwise,
/// without leading zeros.
fn push_digits(out: &mut Vec<u8>, n: u64, hex: bool)
    ensures
        final(out)@ == old(out)@ + if hex {
            hex_digits(n as nat)
        } else {
            dec_digits(n as nat)
        },
        valid_utf8(old(out)@) ==> valid_utf8(final(out)@),
    decreases n,
{
    let radix: u64 = if hex { 16 } else { 10 };
    if n >= radix {
        push_digits(out, n / radix, hex);
    }
    let d = (n % radix) as u8;
    let c = if d < 10 { 0x30 + d } else { 0x41 + d - 10 };
    let ghost before = out@;
    out.push(c);
    proof {
        lemma_ascii_byte_valid(c);
        assert(out@ =~= before + seq![c]);
        assert(seq![c] =~= seq![digit_char(d as int)]);
        if valid_utf8(before) {
            valid_utf8_concat(before, seq![c]);
        }
    }
}

/// Appends `n` in hexadecimal with a `0x` prefix.
fn push_hex(out: &mut Vec<u8>, n: u64)
    ensures
        final(out)@ == old(out)@ + hex_text(n as nat),
        valid_utf8(old(out)@) ==> valid_utf8(final(out)@),
{
    let ghost start = out@;
    push_str(out, "0x");
    proof {
        reveal_strlit("0x");
        assert(bytes_of("0x") =~= seq![0x30u8, 0x78u8]) by {
            vstd::string::is_ascii_spec_bytes("0x");
        }
    }
    push_digits(out, n, true);
    assert(out@ =~= start + hex_text(n as nat));
}

/// Whether a name must be quoted when written.
pub fn needs_quotes(s: &str) -> (r: bool)
    ensures
        r == needs_quotes_spec(bytes_of(s)),
{
    let b = s.as_bytes();
    let mut i: usize = 0;
    while i < b.len()
        invariant
            i <= b@.len(),
            b@ == bytes_of(s),
            forall|k: int| 0 <= k < i ==> b@[k] != 0x20 && b@[k] != 0x3b,
        decreases b@.len() - i,
    {
        if b[i] == 0x20 {
            assert(b@.contains(0x20)) by {
                assert(b@[i as int] == 0x20);
            }
            return true;
        }
        if b[i] == 0x3b {
            assert(b@.contains(0x3b)) by {
                assert(b@[i as int] == 0x3b);
            }
            return true;
        }
        i = i + 1;
    }
    false
}

/// Appends a name, in quotes when it needs them.
fn push_name(out: &mut Vec<u8>, s: &str)
    ensures
        final(out)@ == old(out)@ + quoted(bytes_of(s)),
        valid_utf8(old(out)@) ==> valid_utf8(final(out)@),
{
    let ghost start = out@;
    if needs_quotes(s) {
        push_str(out, "\"");
        push_str(out, s);
        push_str(out, "\"");
        proof {
            reveal_strlit("\"");
            assert(bytes_of("\"") =~= seq![0x22u8]) by {
                vstd::string::is_ascii_spec_bytes("\"");
            }
        }
        assert(out@ =~= start + quoted(bytes_of(s)));
    } else {
        push_str(out, s);
    }
}

/// Appends the `NAME` or `LIBRARY` line.
#[verifier::rlimit(40)]
fn push_header(buf: &mut Vec<u8>, m: Ghost<FileModel>, name: Option<&str>, is_library: Option<bool>, base_address: Option<u64>)
    requires
        m@.name == opt_bytes(name),
        m@.is_library == is_library,
        m@.base_address == base_address,
    ensures
        final(buf)@ == old(buf)@ + render_header(m@),
        valid_utf8(old(buf)@) ==> valid_utf8(final(buf)@),
{
    let ghost start = buf@;
    if let Some(is_library) = is_library {
        if is_library {
            push_str(buf, "LIBRARY");
        } else {
            push_str(buf, "NAME");
        }
        let ghost k = buf@;
        if let Some(name) = name {
            push_str(buf, " ");
            push_name(buf, name);
        }
        assert(buf@ =~= k + match m@.name {
            Some(n) => bytes_of(" ") + quoted(n),
            None => Seq::empty(),
        });
        let ghost a = buf@;
        if let Some(base) = base_address {
            push_str(buf, " BASE=");
            push_hex(buf, base);
        }
        assert(buf@ =~= a + match base_address {
            Some(x) => bytes_of(" BASE=") + hex_text(x as nat),
            None => Seq::empty(),
        });
        push_str(buf, "\n");
    }
    assert(buf@ =~= start + render_header(m@));
}

/// Appends a `HEAPSIZE` or `STACKSIZE` line led by `kw`.
#[verifier::rlimit(40)]
fn push_size(buf: &mut Vec<u8>, kw: &str, reserve: Option<u64>, commit: Option<u64>)
    ensures
        final(buf)@ == old(buf)@ + render_size(bytes_of(kw), reserve, commit),
        valid_utf8(old(buf)@) ==> valid_utf8(final(buf)@),
{
    let ghost start = buf@;
    if let Some(reserve) = reserve {
        push_str(buf, kw);
        push_hex(buf, reserve);
        let ghost a = buf@;
        if let Some(commit) = commit {
            push_str(buf, ",");
            push_hex(buf, commit);
        }
        assert(buf@ =~= a + match commit {
            Some(c) => bytes_of(",") + hex_text(c as nat),
            None => Seq::empty(),
        });
        push_str(buf, "\n");
    }
    assert(buf@ =~= start + render_size(bytes_of(kw), reserve, commit));
}

/// Appends the `STUB` line.
#[verifier::rlimit(40)]
fn push_stub(buf: &mut Vec<u8>, stub: Option<&str>)
    ensures
        final(buf)@ == old(buf)@ + render_stub(opt_bytes(stub)),
        valid_utf8(old(buf)@) ==> valid_utf8(final(buf)@),
{
    let ghost start = buf@;
    if let Some(stub) = stub {
        push_str(buf, "STUB:");
        push_name(buf, stub);
        push_str(buf, "\n");
    }
    assert(buf@ =~= start + render_stub(opt_bytes(stub)));
}

/// Appends the `VERSION` line.
#[verifier::rlimit(40)]
fn push_version(buf: &mut Vec<u8>, major: Option<u16>, minor: Option<u16>)
    ensures
        final(buf)@ == old(buf)@ + render_version(major, minor),
        valid_utf8(old(buf)@) ==> valid_utf8(final(buf)@),
{
    let ghost start = buf@;
    if let Some(major) = major {
        push_str(buf, "VERSION ");
        push_digits(buf, major as u64, false);
        let ghost a = buf@;
        if let Some(minor) = minor {
            push_str(buf, ".");
            push_digits(buf, minor as u64, false);
        }
        assert(buf@ =~= a + match minor {
            Some(b) => bytes_of(".") + dec_digits(b as nat),
            None => Seq::empty(),
        });
        push_str(buf, "\n");
    }
    assert(buf@ =~= start + render_version(major, minor));
}

/// Writes the scalar statements of a record.
#[allow(clippy::too_many_arguments)]
#[verifier::rlimit(40)]
pub fn write_file_to_write(
    buf: &mut Vec<u8>,
    name: Option<&str>,
    is_library: Option<bool>,
    base_address: Option<u64>,
    heap_reserve: Option<u64>,
    heap_commit: Option<u64>,
    stack_reserve: Option<u64>,
    stack_commit: Option<u64>,
    stub: Option<&str>,
    major_version: Option<u16>,
    minor_version: Option<u16>,
)
    ensures
        final(buf)@ == old(buf)@ + render_scalars(
            FileModel {
                name: opt_bytes(name),
                is_library,
                heap_reserve,
                heap_commit,
                stack_reserve,
                stack_commit,
                base_address,
                stub: opt_bytes(stub),
                major_version,
                minor_version,
            },
        ),
        valid_utf8(old(buf)@) ==> valid_utf8(final(buf)@),
{
    let ghost m = FileModel {
        name: opt_bytes(name),
        is_library,
        heap_reserve,
        heap_commit,
        stack_reserve,
        stack_commit,
        base_address,
        stub: opt_bytes(stub),
        major_version,
        minor_version,
    };
    let ghost start = buf@;
    push_header(buf, Ghost(m), name, is_library, base_address);
    let ghost p1 = render_header(m);
    push_size(buf, "HEAPSIZE ", heap_reserve, heap_commit);
    let ghost p2 = p1 + render_size(bytes_of("HEAPSIZE "), heap_reserve, heap_commit);
    assert(buf@ =~= start + p2);
    push_size(buf, "STACKSIZE ", stack_reserve, stack_commit);
    let ghost p3 = p2 + render_size(bytes_of("STACKSIZE "), stack_reserve, stack_commit);
    assert(buf@ =~= start + p3);
    push_stub(buf, stub);
    let ghost p4 = p3 + render_stub(m.stub);
    assert(buf@ =~= start + p4);
    push_version(buf, major_version, minor_version);
    let ghost p5 = p4 + render_version(major_version, minor_version);
    assert(buf@ =~= start + p5);
}

/// Appends `text` when `flag` holds.
fn push_flag(buf: &mut Vec<u8>, flag: bool, text: &str)
    ensures
        final(buf)@ == old(buf)@ + flag_text(flag, bytes_of(text)),
        valid_utf8(old(buf)@) ==> valid_utf8(final(buf)@),
{
    if flag {
        push_str(buf, text);
    } else {
        assert(buf@ =~= buf@ + flag_text(flag, bytes_of(text)));
    }
}

/// Appends one line of a `SECTIONS` block.
#[verifier::rlimit(40)]
pub fn push_section(
    buf: &mut Vec<u8>,
    name: &str,
    read: bool,
    write: bool,
    execute: bool,
    shared: bool,
)
    ensures
        final(buf)@ == old(buf)@ + render_section(
            SectionModel { name: bytes_of(name), read, write, execute, shared },
        ),
        valid_utf8(old(buf)@) ==> valid_utf8(final(buf)@),
{
    let ghost s0 = buf@;
    push_str(buf, "    ");
    push_str(buf, name);
    let ghost p1 = bytes_of("    ") + bytes_of(name);
    assert(buf@ =~= s0 + p1);
    push_flag(buf, read, " READ");
    let ghost p2 = p1 + flag_text(read, bytes_of(" READ"));
    assert(buf@ =~= s0 + p2);
    push_flag(buf, write, " WRITE");
    let ghost p3 = p2 + flag_text(write, bytes_of(" WRITE"));
    assert(buf@ =~= s0 + p3);
    push_flag(buf, execute, " EXECUTE");
    let ghost p4 = p3 + flag_text(execute, bytes_of(" EXECUTE"));
    assert(buf@ =~= s0 + p4);
    push_flag(buf, shared, " SHARED");
    let ghost p5 = p4 + flag_text(shared, bytes_of(" SHARED"));
    assert(buf@ =~= s0 + p5);
    push_str(buf, "\n");
    assert(buf@ =~= s0 + (p5 + bytes_of("\n")));
}

/// Appends the ordinal of an export, when it has one.
#[verifier::rlimit(40)]
fn push_ordinal(buf: &mut Vec<u8>, ordinal: Option<u64>, noname: bool)
    ensures
        final(buf)@ == old(buf)@ + match ordinal {
            Some(o) => bytes_of(" @") + dec_digits(o as nat) + flag_text(noname, bytes_of(" NONAME")),
            None => Seq::empty(),
        },
        valid_utf8(old(buf)@) ==> valid_utf8(final(buf)@),
{
    let ghost c = buf@;
    if let Some(ordinal) = ordinal {
        push_str(buf, " @");
        push_digits(buf, ordinal, false);
        let ghost a = buf@;
        if noname {
            push_str(buf, " NONAME");
        }
        assert(buf@ =~= a + flag_text(noname, bytes_of(" NONAME")));
    }
    assert(buf@ =~= c + match ordinal {
        Some(o) => bytes_of(" @") + dec_digits(o as nat) + flag_text(noname, bytes_of(" NONAME")),
        None => Seq::empty(),
    });
}

/// Appends `=<internal name>` when there is one.
#[verifier::rlimit(40)]
fn push_internal(buf: &mut Vec<u8>, internal_name: Option<&str>)
    ensures
        final(buf)@ == old(buf)@ + match opt_bytes(internal_name) {
            Some(i) => bytes_of("=") + i,
            None => Seq::empty(),
        },
        valid_utf8(old(buf)@) ==> valid_utf8(final(buf)@),
{
    let ghost a = buf@;
    if let Some(internal_name) = internal_name {
        push_str(buf, "=");
        push_str(buf, internal_name);
    }
    assert(buf@ =~= a + match opt_bytes(internal_name) {
        Some(i) => bytes_of("=") + i,
        None => Seq::empty(),
    });
}

/// Appends one line of an `EXPORTS` block.
#[verifier::rlimit(40)]
pub fn push_export(
    buf: &mut Vec<u8>,
    name: &str,
    internal_name: Option<&str>,
    ordinal: Option<u64>,
    noname: bool,
    private: bool,
    data: bool,
)
    ensures
        final(buf)@ == old(buf)@ + render_export(
            ExportModel {
                name: bytes_of(name),
                internal_name: opt_bytes(internal_name),
                ordinal,
                noname,
                private,
                data,
            },
        ),
        valid_utf8(old(buf)@) ==> valid_utf8(final(buf)@),
{
    let ghost s0 = buf@;
    push_str(buf, "    ");
    push_str(buf, name);
    let ghost p1 = bytes_of("    ") + bytes_of(name);
    assert(buf@ =~= s0 + p1);
    push_internal(buf, internal_name);
    let ghost inner = match opt_bytes(internal_name) {
        Some(i) => bytes_of("=") + i,
        None => Seq::empty(),
    };
    let ghost p2 = p1 + inner;
    assert(buf@ =~= s0 + p2);
    push_ordinal(buf, ordinal, noname);
    let ghost p3 = p2 + match ordinal {
        Some(o) => bytes_of(" @") + dec_digits(o as nat) + flag_text(noname, bytes_of(" NONAME")),
        None => Seq::empty(),
    };
    assert(buf@ =~= s0 + p3);
    push_flag(buf, private, " PRIVATE");
    let ghost p4 = p3 + flag_text(private, bytes_of(" PRIVATE"));
    assert(buf@ =~= s0 + p4);
    push_flag(buf, data, " DATA");
    let ghost p5 = p4 + flag_text(data, bytes_of(" DATA"));
    assert(buf@ =~= s0 + p5);
    push_str(buf, "\n");
    assert(buf@ =~= s0 + (p5 + bytes_of("\n")));
}

} // verus!
