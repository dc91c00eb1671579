//! Owned form of a parsed file, with the blocks read out into vectors.
use vstd::prelude::*;
use vstd::utf8::{encode_utf8, valid_utf8};

use crate::conversions::string_from_utf8;
use crate::error::{ErrorModel, ParseError};
use crate::parse_ref::{
    block_start, export_next, lemma_export_next, lemma_section_next, parse_ref_inner, parse_spec,
    section_next, advances, ExportModel, Exports, FileModel, SectionModel, Sections,
};
use crate::render::{push_export, push_section, push_str, render_file, render_exports, render_sections, write_file_to_write, export_lines, section_lines, render_export, render_section};
use crate::text::bytes_of;
use crate::token_iterator::Cursor;

verus! {

/// All items of a section sequence from cursor `c`, or the first malformed
/// one's error.
pub open spec fn drain_sections(b: Seq<u8>, c: Cursor) -> Result<Seq<SectionModel>, ErrorModel>
    decreases b.len() - c.offset,
{
    let (c2, item) = section_next(b, c);
    match item {
        None => Ok(Seq::empty()),
        Some(Err(e)) => Err(e),
        Some(Ok(x)) => if advances(b, c, c2) {
            match drain_sections(b, c2) {
                Ok(rest) => Ok(seq![x] + rest),
                Err(e) => Err(e),
            }
        } else {
            Ok(Seq::empty())
        },
    }
}

/// All items of an export sequence from cursor `c`, or the first malformed
/// one's error.
pub open spec fn drain_exports(b: Seq<u8>, c: Cursor) -> Result<Seq<ExportModel>, ErrorModel>
    decreases b.len() - c.offset,
{
    let (c2, item) = export_next(b, c);
    match item {
        None => Ok(Seq::empty()),
        Some(Err(e)) => Err(e),
        Some(Ok(x)) => if advances(b, c, c2) {
            match drain_exports(b, c2) {
                Ok(rest) => Ok(seq![x] + rest),
                Err(e) => Err(e),
            }
        } else {
            Ok(Seq::empty())
        },
    }
}

/// The abstract owned record: scalar fields, sections and exports.
pub type OwnedModel = (FileModel, Seq<SectionModel>, Seq<ExportModel>);

/// What reading `s` into owned form gives: the scalar statements, then every
/// export, then every section; the first error of these is the result.
pub open spec fn owned_parse_spec(s: &str) -> Result<OwnedModel, ErrorModel> {
    let b = bytes_of(s);
    match parse_spec(b) {
        Err(e) => Err(e),
        Ok(m) => match drain_exports(b, block_start(s, "EXPORTS")) {
            Err(e) => Err(e),
            Ok(exports) => match drain_sections(b, block_start(s, "SECTIONS")) {
                Err(e) => Err(e),
                Ok(sections) => Ok((m, sections, exports)),
            },
        },
    }
}

/// The bytes of an optional string.
pub open spec fn opt_string_bytes(s: Option<String>) -> Option<Seq<u8>> {
    match s {
        Some(t) => Some(encode_utf8(t@)),
        None => None,
    }
}

/// Owned version of [`ModuleDefinitionFileRef`](crate::ModuleDefinitionFileRef).
#[derive(Debug, Clone, PartialEq, Eq, Hash)]
pub struct ModuleDefinitionFile {
    /// Name specified by either the `NAME` or `LIBRARY` statements.
    pub name: Option<String>,
    /// `true` if the file contains a `LIBRARY` statement and `false` if it
    /// contains a `NAME` statement.
    pub is_library: Option<bool>,
    /// The first argument to the `HEAPSIZE` statement.
    pub heap_reserve: Option<u64>,
    /// The second argument to the `HEAPSIZE` statement.
    pub heap_commit: Option<u64>,
    /// The first argument to the `STACKSIZE` statement.
    pub stack_reserve: Option<u64>,
    /// The second argument to the `STACKSIZE` statement.
    pub stack_commit: Option<u64>,
    /// The base address given with `BASE=` after `NAME` or `LIBRARY`.
    pub base_address: Option<u64>,
    /// The file named by the `STUB` statement.
    pub stub: Option<String>,
    /// The major number of the `VERSION` statement.
    pub major_version: Option<u16>,
    /// The minor number of the `VERSION` statement.
    pub minor_version: Option<u16>,
    /// The items of the `SECTIONS` blocks.
    pub sections: Vec<Section>,
    /// The items of the `EXPORTS` blocks.
    pub exports: Vec<Export>,
}

/// Exported function.
#[derive(Debug, Clone, PartialEq, Eq, Hash)]
pub struct Export {
    /// The public name of the exported function; also its internal name when
    /// `internal_name` is `None`.
    pub name: String,
    /// The internal name of the function to export.
    pub internal_name: Option<String>,
    /// The ordinal associated with the export.
    pub ordinal: Option<u64>,
    /// Export by ordinal only.
    pub noname: bool,
    /// Keep the name out of the import library.
    pub private: bool,
    /// The export is data, not code.
    pub data: bool,
}

/// Section in image.
#[derive(Debug, Clone, PartialEq, Eq, Hash)]
pub struct Section {
    /// Name of the section in the program image.
    pub name: String,
    /// Allows read operations on data.
    pub read: bool,
    /// Allows write operations on data.
    pub write: bool,
    /// The section is executable.
    pub execute: bool,
    /// Shares the section among all processes that load the image.
    pub shared: bool,
}

impl View for Section {
    type V = SectionModel;

    open spec fn view(&self) -> SectionModel {
        SectionModel {
            name: encode_utf8(self.name@),
            read: self.read,
            write: self.write,
            execute: self.execute,
            shared: self.shared,
        }
    }
}

impl View for Export {
    type V = ExportModel;

    open spec fn view(&self) -> ExportModel {
        ExportModel {
            name: encode_utf8(self.name@),
            internal_name: opt_string_bytes(self.internal_name),
            ordinal: self.ordinal,
            noname: self.noname,
            private: self.private,
            data: self.data,
        }
    }
}

impl View for ModuleDefinitionFile {
    type V = OwnedModel;

    open spec fn view(&self) -> OwnedModel {
        (
            FileModel {
                name: opt_string_bytes(self.name),
                is_library: self.is_library,
                heap_reserve: self.heap_reserve,
                heap_commit: self.heap_commit,
                stack_reserve: self.stack_reserve,
                stack_commit: self.stack_commit,
                base_address: self.base_address,
                stub: opt_string_bytes(self.stub),
                major_version: self.major_version,
                minor_version: self.minor_version,
            },
            self.sections@.map_values(|s: Section| s@),
            self.exports@.map_values(|e: Export| e@),
        )
    }
}

impl Export {
    /// Create new [`Export`].
    pub fn new(
        name: String,
        internal_name: Option<String>,
        ordinal: Option<u64>,
        noname: bool,
        private: bool,
        data: bool,
    ) -> (r: Self)
        ensures
            r.name == name,
            r.internal_name == internal_name,
            r.ordinal == ordinal,
            r.noname == noname,
            r.private == private,
            r.data == data,
    {
        Export { name, internal_name, ordinal, noname, private, data }
    }
}

impl Section {
    /// Create new [`Section`].
    pub fn new(name: String, read: bool, write: bool, execute: bool, shared: bool) -> (r: Self)
        ensures
            r.name == name,
            r.read == read,
            r.write == write,
            r.execute == execute,
            r.shared == shared,
    {
        Section { name, read, write, execute, shared }
    }
}

proof fn lemma_drain_exports_step(b: Seq<u8>, c: Cursor)
    requires
        crate::token_iterator::cursor_wf(b, c),
    ensures
        export_next(b, c).1 is None ==> drain_exports(b, c) == Ok::<Seq<ExportModel>, ErrorModel>(
            Seq::empty(),
        ),
        export_next(b, c).1 matches Some(Err(e)) ==> drain_exports(b, c) == Err::<
            Seq<ExportModel>,
            ErrorModel,
        >(e),
        export_next(b, c).1 matches Some(Ok(x)) ==> drain_exports(b, c) == match drain_exports(
            b,
            export_next(b, c).0,
        ) {
            Ok(rest) => Ok(seq![x] + rest),
            Err(e) => Err::<Seq<ExportModel>, ErrorModel>(e),
        },
{
    lemma_export_next(b, c);
}

proof fn lemma_drain_sections_step(b: Seq<u8>, c: Cursor)
    requires
        crate::token_iterator::cursor_wf(b, c),
    ensures
        section_next(b, c).1 is None ==> drain_sections(b, c) == Ok::<Seq<SectionModel>, ErrorModel>(
            Seq::empty(),
        ),
        section_next(b, c).1 matches Some(Err(e)) ==> drain_sections(b, c) == Err::<
            Seq<SectionModel>,
            ErrorModel,
        >(e),
        section_next(b, c).1 matches Some(Ok(x)) ==> drain_sections(b, c) == match drain_sections(
            b,
            section_next(b, c).0,
        ) {
            Ok(rest) => Ok(seq![x] + rest),
            Err(e) => Err::<Seq<SectionModel>, ErrorModel>(e),
        },
{
    lemma_section_next(b, c);
}

fn owned(s: Option<&str>) -> (r: Option<String>)
    ensures
        opt_string_bytes(r) == match s {
            Some(t) => Some(bytes_of(t)),
            None => None::<Seq<u8>>,
        },
{
    match s {
        Some(t) => Some(t.to_owned()),
        None => None,
    }
}

#[verifier::rlimit(50)]
fn drain_all_exports<'a>(exports: Exports<'a>) -> (r: Result<Vec<Export>, ParseError<'a>>)
    requires
        exports.it.wf(),
    ensures
        match r {
            Ok(v) => drain_exports(exports.it.bytes(), exports.it.cursor())
                == Ok::<Seq<ExportModel>, ErrorModel>(v@.map_values(|e: Export| e@)),
            Err(e) => drain_exports(exports.it.bytes(), exports.it.cursor()) == Err::<
                Seq<ExportModel>,
                ErrorModel,
            >(e@),
        },
{
    let mut rest = exports;
    let ghost b = exports.it.bytes();
    let ghost c0 = exports.it.cursor();
    let mut out: Vec<Export> = Vec::new();
    loop
        invariant
            rest.it.wf(),
            rest.it.bytes() == b,
            b == exports.it.bytes(),
            c0 == exports.it.cursor(),
            drain_exports(b, c0) == match drain_exports(b, rest.it.cursor()) {
                Ok(rest) => Ok(out@.map_values(|e: Export| e@) + rest),
                Err(e) => Err::<Seq<ExportModel>, ErrorModel>(e),
            },
        decreases b.len() - rest.it.offset,
    {
        let ghost c = rest.it.cursor();
        proof {
            lemma_export_next(b, c);
            lemma_drain_exports_step(b, c);
        }
        match rest.next() {
            None => {
                assert(out@.map_values(|e: Export| e@) + Seq::<ExportModel>::empty()
                    =~= out@.map_values(|e: Export| e@));
                return Ok(out);
            },
            Some(Err(e)) => {
                return Err(e);
            },
            Some(Ok(e)) => {
                let item = Export {
                    name: e.name.to_owned(),
                    internal_name: owned(e.internal_name),
                    ordinal: e.ordinal,
                    noname: e.noname,
                    private: e.private,
                    data: e.data,
                };
                let ghost prev = out@.map_values(|e: Export| e@);
                out.push(item);
                proof {
                    assert(out@.map_values(|e: Export| e@) =~= prev.push(item@));
                    assert(item@ == e@);
                    match drain_exports(b, rest.it.cursor()) {
                        Ok(rest) => {
                            assert(prev + (seq![e@] + rest) =~= prev.push(item@) + rest);
                        },
                        Err(_) => {},
                    }
                }
            },
        }
    }
}

#[verifier::rlimit(50)]
fn drain_all_sections<'a>(sections: Sections<'a>) -> (r: Result<Vec<Section>, ParseError<'a>>)
    requires
        sections.it.wf(),
    ensures
        match r {
            Ok(v) => drain_sections(sections.it.bytes(), sections.it.cursor())
                == Ok::<Seq<SectionModel>, ErrorModel>(v@.map_values(|s: Section| s@)),
            Err(e) => drain_sections(sections.it.bytes(), sections.it.cursor()) == Err::<
                Seq<SectionModel>,
                ErrorModel,
            >(e@),
        },
{
    let mut rest = sections;
    let ghost b = sections.it.bytes();
    let ghost c0 = sections.it.cursor();
    let mut out: Vec<Section> = Vec::new();
    loop
        invariant
            rest.it.wf(),
            rest.it.bytes() == b,
            b == sections.it.bytes(),
            c0 == sections.it.cursor(),
            drain_sections(b, c0) == match drain_sections(b, rest.it.cursor()) {
                Ok(rest) => Ok(out@.map_values(|s: Section| s@) + rest),
                Err(e) => Err::<Seq<SectionModel>, ErrorModel>(e),
            },
        decreases b.len() - rest.it.offset,
    {
        let ghost c = rest.it.cursor();
        proof {
            lemma_section_next(b, c);
            lemma_drain_sections_step(b, c);
        }
        match rest.next() {
            None => {
                assert(out@.map_values(|s: Section| s@) + Seq::<SectionModel>::empty()
                    =~= out@.map_values(|s: Section| s@));
                return Ok(out);
            },
            Some(Err(e)) => {
                return Err(e);
            },
            Some(Ok(s)) => {
                let item = Section {
                    name: s.name.to_owned(),
                    read: s.read,
                    write: s.write,
                    execute: s.execute,
                    shared: s.shared,
                };
                let ghost prev = out@.map_values(|s: Section| s@);
                out.push(item);
                proof {
                    assert(out@.map_values(|s: Section| s@) =~= prev.push(item@));
                    assert(item@ == s@);
                    match drain_sections(b, rest.it.cursor()) {
                        Ok(rest) => {
                            assert(prev + (seq![s@] + rest) =~= prev.push(item@) + rest);
                        },
                        Err(_) => {},
                    }
                }
            },
        }
    }
}

/// Reads `s` into owned form; the first error, in a statement or in a block
/// item, is the result.
pub fn parse_inner(s: &str) -> (r: Result<ModuleDefinitionFile, ParseError<'_>>)
    ensures
        match r {
            Ok(f) => owned_parse_spec(s) == Ok::<OwnedModel, ErrorModel>(f@),
            Err(e) => owned_parse_spec(s) == Err::<OwnedModel, ErrorModel>(e@),
        },
{
    let f = match parse_ref_inner(s) {
        Err(e) => return Err(e),
        Ok(f) => f,
    };
    let exports = match drain_all_exports(f.exports) {
        Err(e) => return Err(e),
        Ok(v) => v,
    };
    let sections = match drain_all_sections(f.sections) {
        Err(e) => return Err(e),
        Ok(v) => v,
    };
    Ok(
        ModuleDefinitionFile {
            name: owned(f.name),
            is_library: f.is_library,
            heap_reserve: f.heap_reserve,
            heap_commit: f.heap_commit,
            stack_reserve: f.stack_reserve,
            stack_commit: f.stack_commit,
            base_address: f.base_address,
            stub: owned(f.stub),
            major_version: f.major_version,
            minor_version: f.minor_version,
            sections,
            exports,
        },
    )
}

impl ModuleDefinitionFile {
    /// Parse a new [`ModuleDefinitionFile`].
    pub fn new(s: &str) -> (r: Result<Self, ParseError<'_>>)
        ensures
            match r {
                Ok(f) => owned_parse_spec(s) == Ok::<OwnedModel, ErrorModel>(f@),
                Err(e) => owned_parse_spec(s) == Err::<OwnedModel, ErrorModel>(e@),
            },
    {
        parse_inner(s)
    }

    /// Writes the file in canonical form: the scalar statements in a fixed
    /// order, then the sections and the exports, each on an indented line.
    pub fn write_to_buffer(&self) -> (r: Result<String, core::fmt::Error>)
        ensures
            r matches Ok(s) && encode_utf8(s@) == render_file(self@.0, self@.1, self@.2),
    {
        let mut out: Vec<u8> = Vec::new();
        let name = match &self.name {
            Some(n) => Some(n.as_str()),
            None => None,
        };
        let stub = match &self.stub {
            Some(n) => Some(n.as_str()),
            None => None,
        };
        write_file_to_write(
            &mut out,
            name,
            self.is_library,
            self.base_address,
            self.heap_reserve,
            self.heap_commit,
            self.stack_reserve,
            self.stack_commit,
            stub,
            self.major_version,
            self.minor_version,
        );
        let ghost scalars = out@;
        let ghost secs = self@.1;
        let mut i: usize = 0;
        while i < self.sections.len()
            invariant
                i <= self.sections@.len(),
                secs == self.sections@.map_values(|s: Section| s@),
                out@ == scalars + render_sections(secs.subrange(0, i as int)),
                valid_utf8(out@),
            decreases self.sections@.len() - i,
        {
            let section = &self.sections[i];
            let ghost before = out@;
            if i == 0 {
                push_str(&mut out, "SECTIONS\n");
            }
            push_section(
                &mut out,
                section.name.as_str(),
                section.read,
                section.write,
                section.execute,
                section.shared,
            );
            proof {
                let p = secs.subrange(0, i as int);
                let p2 = secs.subrange(0, i + 1);
                assert(p2.drop_last() =~= p);
                assert(p2.last() == section@);
                assert(section_lines(p2) == section_lines(p) + render_section(section@));
                if i == 0 {
                    assert(section_lines(p) =~= Seq::<u8>::empty());
                }
                assert(out@ =~= scalars + render_sections(p2));
            }
            i = i + 1;
        }
        assert(secs.subrange(0, i as int) =~= secs);
        let ghost with_sections = out@;
        let ghost exps = self@.2;
        let mut i: usize = 0;
        while i < self.exports.len()
            invariant
                i <= self.exports@.len(),
                exps == self.exports@.map_values(|e: Export| e@),
                out@ == with_sections + render_exports(exps.subrange(0, i as int)),
                valid_utf8(out@),
            decreases self.exports@.len() - i,
        {
            let export = &self.exports[i];
            if i == 0 {
                push_str(&mut out, "EXPORTS\n");
            }
            let internal_name = match &export.internal_name {
                Some(n) => Some(n.as_str()),
                None => None,
            };
            push_export(
                &mut out,
                export.name.as_str(),
                internal_name,
                export.ordinal,
                export.noname,
                export.private,
                export.data,
            );
            proof {
                let p = exps.subrange(0, i as int);
                let p2 = exps.subrange(0, i + 1);
                assert(p2.drop_last() =~= p);
                assert(p2.last() == export@);
                assert(export_lines(p2) == export_lines(p) + render_export(export@));
                if i == 0 {
                    assert(export_lines(p) =~= Seq::<u8>::empty());
                }
                assert(out@ =~= with_sections + render_exports(p2));
            }
            i = i + 1;
        }
        assert(exps.subrange(0, i as int) =~= exps);
        assert(out@ =~= render_file(self@.0, self@.1, self@.2));
        match string_from_utf8(out) {
            Some(s) => Ok(s),
            None => Err(core::fmt::Error::default()),
        }
    }
}

} // verus!
