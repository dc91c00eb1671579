//! The reserved words of the format.
use vstd::prelude::*;

use crate::text::{bytes_of, str_eq};

verus! {

/// Whether `t` is one of the format's reserved words.
pub open spec fn is_reserved(t: Seq<u8>) -> bool {
    ||| t == bytes_of("APPLOADER")
    ||| t == bytes_of("BASE")
    ||| t == bytes_of("CODE")
    ||| t == bytes_of("CONFORMING")
    ||| t == bytes_of("DATA")
    ||| t == bytes_of("DESCRIPTION")
    ||| t == bytes_of("DEV386")
    ||| t == bytes_of("DISCARDABLE")
    ||| t == bytes_of("DYNAMIC")
    ||| t == bytes_of("EXECUTE-ONLY")
    ||| t == bytes_of("EXECUTEONLY")
    ||| t == bytes_of("EXECUTEREAD")
    ||| t == bytes_of("EXETYPE")
    ||| t == bytes_of("EXPORTS")
    ||| t == bytes_of("FIXED")
    ||| t == bytes_of("FUNCTIONS")
    ||| t == bytes_of("HEAPSIZE")
    ||| t == bytes_of("IMPORTS")
    ||| t == bytes_of("IMPURE")
    ||| t == bytes_of("INCLUDE")
    ||| t == bytes_of("INITINSTANCE")
    ||| t == bytes_of("IOPL")
    ||| t == bytes_of("LIBRARY")
    ||| t == bytes_of("LOADONCALL")
    ||| t == bytes_of("LONGNAMES")
    ||| t == bytes_of("MOVABLE")
    ||| t == bytes_of("MOVEABLE")
    ||| t == bytes_of("MULTIPLE")
    ||| t == bytes_of("NAME")
    ||| t == bytes_of("NEWFILES")
    ||| t == bytes_of("NODATA")
    ||| t == bytes_of("NOIOPL")
    ||| t == bytes_of("NONAME")
    ||| t == bytes_of("NONCONFORMING")
    ||| t == bytes_of("NONDISCARDABLE")
    ||| t == bytes_of("NONE")
    ||| t == bytes_of("NONSHARED")
    ||| t == bytes_of("NOTWINDOWCOMPAT")
    ||| t == bytes_of("OBJECTS")
    ||| t == bytes_of("OLD")
    ||| t == bytes_of("PRELOAD")
    ||| t == bytes_of("PRIVATE")
    ||| t == bytes_of("PROTMODE")
    ||| t == bytes_of("PURE")
    ||| t == bytes_of("READONLY")
    ||| t == bytes_of("READWRITE")
    ||| t == bytes_of("REALMODE")
    ||| t == bytes_of("RESIDENT")
    ||| t == bytes_of("RESIDENTNAME")
    ||| t == bytes_of("SECTIONS")
    ||| t == bytes_of("SEGMENTS")
    ||| t == bytes_of("SHARED")
    ||| t == bytes_of("SINGLE")
    ||| t == bytes_of("STACKSIZE")
    ||| t == bytes_of("STUB")
    ||| t == bytes_of("VERSION")
    ||| t == bytes_of("WINDOWAPI")
    ||| t == bytes_of("WINDOWCOMPAT")
    ||| t == bytes_of("WINDOWS")
}

/// Every reserved word starts with a capital letter.
pub proof fn lemma_reserved_first_byte(t: Seq<u8>)
    requires
        is_reserved(t),
    ensures
        t.len() > 0,
        0x41 <= t[0] <= 0x5a,
{
    reveal_strlit("APPLOADER");
    vstd::string::is_ascii_spec_bytes("APPLOADER");
    reveal_strlit("BASE");
    vstd::string::is_ascii_spec_bytes("BASE");
    reveal_strlit("CODE");
    vstd::string::is_ascii_spec_bytes("CODE");
    reveal_strlit("CONFORMING");
    vstd::string::is_ascii_spec_bytes("CONFORMING");
    reveal_strlit("DATA");
    vstd::string::is_ascii_spec_bytes("DATA");
    reveal_strlit("DESCRIPTION");
    vstd::string::is_ascii_spec_bytes("DESCRIPTION");
    reveal_strlit("DEV386");
    vstd::string::is_ascii_spec_bytes("DEV386");
    reveal_strlit("DISCARDABLE");
    vstd::string::is_ascii_spec_bytes("DISCARDABLE");
    reveal_strlit("DYNAMIC");
    vstd::string::is_ascii_spec_bytes("DYNAMIC");
    reveal_strlit("EXECUTE-ONLY");
    vstd::string::is_ascii_spec_bytes("EXECUTE-ONLY");
    reveal_strlit("EXECUTEONLY");
    vstd::string::is_ascii_spec_bytes("EXECUTEONLY");
    reveal_strlit("EXECUTEREAD");
    vstd::string::is_ascii_spec_bytes("EXECUTEREAD");
    reveal_strlit("EXETYPE");
    vstd::string::is_ascii_spec_bytes("EXETYPE");
    reveal_strlit("EXPORTS");
    vstd::string::is_ascii_spec_bytes("EXPORTS");
    reveal_strlit("FIXED");
    vstd::string::is_ascii_spec_bytes("FIXED");
    reveal_strlit("FUNCTIONS");
    vstd::string::is_ascii_spec_bytes("FUNCTIONS");
    reveal_strlit("HEAPSIZE");
    vstd::string::is_ascii_spec_bytes("HEAPSIZE");
    reveal_strlit("IMPORTS");
    vstd::string::is_ascii_spec_bytes("IMPORTS");
    reveal_strlit("IMPURE");
    vstd::string::is_ascii_spec_bytes("IMPURE");
    reveal_strlit("INCLUDE");
    vstd::string::is_ascii_spec_bytes("INCLUDE");
    reveal_strlit("INITINSTANCE");
    vstd::string::is_ascii_spec_bytes("INITINSTANCE");
    reveal_strlit("IOPL");
    vstd::string::is_ascii_spec_bytes("IOPL");
    reveal_strlit("LIBRARY");
    vstd::string::is_ascii_spec_bytes("LIBRARY");
    reveal_strlit("LOADONCALL");
    vstd::string::is_ascii_spec_bytes("LOADONCALL");
    reveal_strlit("LONGNAMES");
    vstd::string::is_ascii_spec_bytes("LONGNAMES");
    reveal_strlit("MOVABLE");
    vstd::string::is_ascii_spec_bytes("MOVABLE");
    reveal_strlit("MOVEABLE");
    vstd::string::is_ascii_spec_bytes("MOVEABLE");
    reveal_strlit("MULTIPLE");
    vstd::string::is_ascii_spec_bytes("MULTIPLE");
    reveal_strlit("NAME");
    vstd::string::is_ascii_spec_bytes("NAME");
    reveal_strlit("NEWFILES");
    vstd::string::is_ascii_spec_bytes("NEWFILES");
    reveal_strlit("NODATA");
    vstd::string::is_ascii_spec_bytes("NODATA");
    reveal_strlit("NOIOPL");
    vstd::string::is_ascii_spec_bytes("NOIOPL");
    reveal_strlit("NONAME");
    vstd::string::is_ascii_spec_bytes("NONAME");
    reveal_strlit("NONCONFORMING");
    vstd::string::is_ascii_spec_bytes("NONCONFORMING");
    reveal_strlit("NONDISCARDABLE");
    vstd::string::is_ascii_spec_bytes("NONDISCARDABLE");
    reveal_strlit("NONE");
    vstd::string::is_ascii_spec_bytes("NONE");
    reveal_strlit("NONSHARED");
    vstd::string::is_ascii_spec_bytes("NONSHARED");
    reveal_strlit("NOTWINDOWCOMPAT");
    vstd::string::is_ascii_spec_bytes("NOTWINDOWCOMPAT");
    reveal_strlit("OBJECTS");
    vstd::string::is_ascii_spec_bytes("OBJECTS");
    reveal_strlit("OLD");
    vstd::string::is_ascii_spec_bytes("OLD");
    reveal_strlit("PRELOAD");
    vstd::string::is_ascii_spec_bytes("PRELOAD");
    reveal_strlit("PRIVATE");
    vstd::string::is_ascii_spec_bytes("PRIVATE");
    reveal_strlit("PROTMODE");
    vstd::string::is_ascii_spec_bytes("PROTMODE");
    reveal_strlit("PURE");
    vstd::string::is_ascii_spec_bytes("PURE");
    reveal_strlit("READONLY");
    vstd::string::is_ascii_spec_bytes("READONLY");
    reveal_strlit("READWRITE");
    vstd::string::is_ascii_spec_bytes("READWRITE");
    reveal_strlit("REALMODE");
    vstd::string::is_ascii_spec_bytes("REALMODE");
    reveal_strlit("RESIDENT");
    vstd::string::is_ascii_spec_bytes("RESIDENT");
    reveal_strlit("RESIDENTNAME");
    vstd::string::is_ascii_spec_bytes("RESIDENTNAME");
    reveal_strlit("SECTIONS");
    vstd::string::is_ascii_spec_bytes("SECTIONS");
    reveal_strlit("SEGMENTS");
    vstd::string::is_ascii_spec_bytes("SEGMENTS");
    reveal_strlit("SHARED");
    vstd::string::is_ascii_spec_bytes("SHARED");
    reveal_strlit("SINGLE");
    vstd::string::is_ascii_spec_bytes("SINGLE");
    reveal_strlit("STACKSIZE");
    vstd::string::is_ascii_spec_bytes("STACKSIZE");
    reveal_strlit("STUB");
    vstd::string::is_ascii_spec_bytes("STUB");
    reveal_strlit("VERSION");
    vstd::string::is_ascii_spec_bytes("VERSION");
    reveal_strlit("WINDOWAPI");
    vstd::string::is_ascii_spec_bytes("WINDOWAPI");
    reveal_strlit("WINDOWCOMPAT");
    vstd::string::is_ascii_spec_bytes("WINDOWCOMPAT");
    reveal_strlit("WINDOWS");
    vstd::string::is_ascii_spec_bytes("WINDOWS");
}

/// Whether the token `t` is a reserved word.
pub fn is_reserved_word(t: &str) -> (r: bool)
    ensures
        r == is_reserved(bytes_of(t)),
{
    str_eq(t, "APPLOADER") || str_eq(t, "BASE") || str_eq(t, "CODE") || str_eq(t, "CONFORMING")
        || str_eq(t, "DATA") || str_eq(t, "DESCRIPTION") || str_eq(t, "DEV386") || str_eq(
        t,
        "DISCARDABLE",
    ) || str_eq(t, "DYNAMIC") || str_eq(t, "EXECUTE-ONLY") || str_eq(t, "EXECUTEONLY") || str_eq(
        t,
        "EXECUTEREAD",
    ) || str_eq(t, "EXETYPE") || str_eq(t, "EXPORTS") || str_eq(t, "FIXED") || str_eq(
        t,
        "FUNCTIONS",
    ) || str_eq(t, "HEAPSIZE") || str_eq(t, "IMPORTS") || str_eq(t, "IMPURE") || str_eq(
        t,
        "INCLUDE",
    ) || str_eq(t, "INITINSTANCE") || str_eq(t, "IOPL") || str_eq(t, "LIBRARY") || str_eq(
        t,
        "LOADONCALL",
    ) || str_eq(t, "LONGNAMES") || str_eq(t, "MOVABLE") || str_eq(t, "MOVEABLE") || str_eq(
        t,
        "MULTIPLE",
    ) || str_eq(t, "NAME") || str_eq(t, "NEWFILES") || str_eq(t, "NODATA") || str_eq(t, "NOIOPL")
        || str_eq(t, "NONAME") || str_eq(t, "NONCONFORMING") || str_eq(t, "NONDISCARDABLE")
        || str_eq(t, "NONE") || str_eq(t, "NONSHARED") || str_eq(t, "NOTWINDOWCOMPAT") || str_eq(
        t,
        "OBJECTS",
    ) || str_eq(t, "OLD") || str_eq(t, "PRELOAD") || str_eq(t, "PRIVATE") || str_eq(
        t,
        "PROTMODE",
    ) || str_eq(t, "PURE") || str_eq(t, "READONLY") || str_eq(t, "READWRITE") || str_eq(
        t,
        "REALMODE",
    ) || str_eq(t, "RESIDENT") || str_eq(t, "RESIDENTNAME") || str_eq(t, "SECTIONS") || str_eq(
        t,
        "SEGMENTS",
    ) || str_eq(t, "SHARED") || str_eq(t, "SINGLE") || str_eq(t, "STACKSIZE") || str_eq(t, "STUB")
        || str_eq(t, "VERSION") || str_eq(t, "WINDOWAPI") || str_eq(t, "WINDOWCOMPAT") || str_eq(
        t,
        "WINDOWS",
    )
}

} // verus!
