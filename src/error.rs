//! Errors found while reading a file.
use vstd::prelude::*;

use crate::text::bytes_of;

verus! {

/// Kind of error.
#[derive(Debug, Clone, Copy, PartialEq, Eq, Hash)]
pub enum ParseErrorKind<'a> {
    /// Missing argument immediately after keyword requiring argument.
    MissingArgumentFor(&'static str),
    /// Missing designator (`=` or `:`) after a keyword.
    MissingDesignatorFor(&'static str),
    /// Missing argument for comma separated keyword.
    MissingArgumentAfterCommaFor(&'static str),
    /// Expected number is not parseable as a number.
    InvalidNumericalArgument(&'a str),
    /// Parsed number is outside of allowed limits.
    NumberTooLarge(&'a str),
}

/// The possible errors during parsing along with an index into the string
/// for where the problem began.
#[derive(Debug, Clone, Copy, PartialEq, Eq, Hash)]
pub struct ParseError<'a> {
    /// Kind of error.
    pub kind: ParseErrorKind<'a>,
    /// Offset into string being parsed.
    pub offset: usize,
}

/// Abstract kind of error: the keyword or text it carries, as bytes.
pub enum KindModel {
    MissingArgumentFor(Seq<u8>),
    MissingDesignatorFor(Seq<u8>),
    MissingArgumentAfterCommaFor(Seq<u8>),
    InvalidNumericalArgument(Seq<u8>),
    NumberTooLarge(Seq<u8>),
}

/// Abstract error: its kind and byte offset.
pub struct ErrorModel {
    pub kind: KindModel,
    pub offset: int,
}

impl<'a> View for ParseErrorKind<'a> {
    type V = KindModel;

    open spec fn view(&self) -> KindModel {
        match *self {
            ParseErrorKind::MissingArgumentFor(k) => KindModel::MissingArgumentFor(bytes_of(k)),
            ParseErrorKind::MissingDesignatorFor(k) => KindModel::MissingDesignatorFor(bytes_of(k)),
            ParseErrorKind::MissingArgumentAfterCommaFor(k) => KindModel::MissingArgumentAfterCommaFor(
                bytes_of(k),
            ),
            ParseErrorKind::InvalidNumericalArgument(t) => KindModel::InvalidNumericalArgument(
                bytes_of(t),
            ),
            ParseErrorKind::NumberTooLarge(t) => KindModel::NumberTooLarge(bytes_of(t)),
        }
    }
}

impl<'a> View for ParseError<'a> {
    type V = ErrorModel;

    open spec fn view(&self) -> ErrorModel {
        ErrorModel { kind: self.kind@, offset: self.offset as int }
    }
}

/// An abstract error with the given kind and offset.
pub open spec fn error_at(kind: KindModel, offset: int) -> ErrorModel {
    ErrorModel { kind, offset }
}

impl<'a> ParseError<'a> {
    /// Create new [`ParseError`].
    pub fn new(kind: ParseErrorKind<'a>, offset: usize) -> (r: Self)
        ensures
            r.kind == kind,
            r.offset == offset,
    {
        ParseError { kind, offset }
    }

    /// A missing-argument error for `keyword` at `offset`.
    pub fn missing_arg(keyword: &'static str, offset: usize) -> (r: Self)
        ensures
            r@ == error_at(KindModel::MissingArgumentFor(bytes_of(keyword)), offset as int),
    {
        Self::new(ParseErrorKind::MissingArgumentFor(keyword), offset)
    }

    /// A human-readable description of the error.
    pub fn to_string(&self) -> (r: String)
        ensures
            r@ == message(self.kind),
    {
        let (head, arg, tail) = match self.kind {
            ParseErrorKind::MissingArgumentFor(a) => ("missing argument for '", a, "'"),
            ParseErrorKind::MissingDesignatorFor(a) => (
                "missing designator (':' or '=') for '",
                a,
                "'",
            ),
            ParseErrorKind::MissingArgumentAfterCommaFor(a) => (
                "missing argument after comma for '",
                a,
                "'",
            ),
            ParseErrorKind::InvalidNumericalArgument(a) => ("invalid numerical argument '", a, "'"),
            ParseErrorKind::NumberTooLarge(a) => ("number '", a, "' too large"),
        };
        let mut r = String::from_str(head);
        r.append(arg);
        r.append(tail);
        r
    }
}

/// The description of an error of kind `k`.
pub open spec fn message<'a>(k: ParseErrorKind<'a>) -> Seq<char> {
    match k {
        ParseErrorKind::MissingArgumentFor(a) => "missing argument for '"@ + a@ + "'"@,
        ParseErrorKind::MissingDesignatorFor(a) => "missing designator (':' or '=') for '"@ + a@
            + "'"@,
        ParseErrorKind::MissingArgumentAfterCommaFor(a) => "missing argument after comma for '"@
            + a@ + "'"@,
        ParseErrorKind::InvalidNumericalArgument(a) => "invalid numerical argument '"@ + a@ + "'"@,
        ParseErrorKind::NumberTooLarge(a) => "number '"@ + a@ + "' too large"@,
    }
}

} // verus!
