//! Reader and writer for module-definition (`.def`) files: the linker
//! directives that name a module, size its heap and stack, give its version,
//! and list its sections and exports.
//!
//! [`parse_ref`] reads a file without allocating: the scalar fields land in a
//! record and the `SECTIONS` and `EXPORTS` blocks are read lazily, item by
//! item, from the text itself.
use vstd::prelude::*;

pub mod conversions;
pub mod error;
pub mod keywords;
pub mod number;
pub mod parse;
pub mod parse_ref;
pub mod render;
pub mod round_trip;
pub mod text;
pub mod token_iterator;

pub use error::{ParseError, ParseErrorKind};
pub use parse::{Export, ModuleDefinitionFile, Section};
pub use parse_ref::{ExportRef, Exports, ModuleDefinitionFileRef, SectionRef, Sections};
pub use token_iterator::TokenIterator;

use crate::parse::{owned_parse_spec, parse_inner, OwnedModel};
use crate::parse_ref::{parse_ref_inner, parsed_ref};
use crate::error::ErrorModel;

verus! {

/// Parse without allocating.
pub fn parse_ref(s: &str) -> (r: Result<ModuleDefinitionFileRef<'_>, ParseError<'_>>)
    ensures
        parsed_ref(s, r),
{
    parse_ref_inner(s)
}

/// Parse into owned values.
pub fn parse(s: &str) -> (r: Result<ModuleDefinitionFile, ParseError<'_>>)
    ensures
        match r {
            Ok(f) => owned_parse_spec(s) == Ok::<OwnedModel, ErrorModel>(f@),
            Err(e) => owned_parse_spec(s) == Err::<OwnedModel, ErrorModel>(e@),
        },
{
    parse_inner(s)
}

} // verus!
