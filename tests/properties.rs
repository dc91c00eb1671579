use msvc_def::{
    parse, parse_ref, Export, ExportRef, ModuleDefinitionFile, ParseError, ParseErrorKind, Section,
    SectionRef, TokenIterator,
};

#[test]
fn scenario_name_heap_and_export() {
    let f = parse_ref("NAME \"mylib with spaces\"\nHEAPSIZE 32768,1\nEXPORTS\n myfunc").unwrap();
    assert_eq!(f.name, Some("mylib with spaces"));
    assert_eq!(f.is_library, Some(false));
    assert_eq!(f.heap_reserve, Some(32768));
    assert_eq!(f.heap_commit, Some(1));
    let mut e = f.exports;
    assert_eq!(
        e.next(),
        Some(Ok(ExportRef::new("myfunc", None, None, false, false, false)))
    );
    assert_eq!(e.next(), None);
}

#[test]
fn scenario_version_too_large() {
    assert_eq!(
        parse_ref("VERSION 65536").unwrap_err(),
        ParseError::new(ParseErrorKind::NumberTooLarge("65536"), 8)
    );
}

#[test]
fn scenario_export_with_everything() {
    let mut e = parse_ref("EXPORTS simple2 = inner.#42 @1337 PRIVATE NONAME")
        .unwrap()
        .exports;
    assert_eq!(
        e.next(),
        Some(Ok(ExportRef::new(
            "simple2",
            Some("inner.#42"),
            Some(1337),
            true,
            true,
            false
        )))
    );
    assert_eq!(e.next(), None);
}

#[test]
fn scenario_two_sections() {
    let mut s = parse_ref("SECTIONS .rdata READ\n.data READ WRITE EXECUTE")
        .unwrap()
        .sections;
    assert_eq!(
        s.next(),
        Some(Ok(SectionRef::new(".rdata", true, false, false, false)))
    );
    assert_eq!(
        s.next(),
        Some(Ok(SectionRef::new(".data", true, true, true, false)))
    );
    assert_eq!(s.next(), None);
}

#[test]
fn scenario_sections_headers_interleaved() {
    let f = parse_ref("SECTIONS .a READ\nHEAPSIZE 4\nEXPORTS x\nSECTIONS .b WRITE\nSTUB:s.x").unwrap();
    assert_eq!(f.heap_reserve, Some(4));
    assert_eq!(f.stub, Some("s.x"));
    let mut s = f.sections;
    assert_eq!(s.next(), Some(Ok(SectionRef::new(".a", true, false, false, false))));
    assert_eq!(s.next(), Some(Ok(SectionRef::new(".b", false, true, false, false))));
    assert_eq!(s.next(), None);
    let mut e = f.exports;
    assert_eq!(e.next(), Some(Ok(ExportRef::new("x", None, None, false, false, false))));
    assert_eq!(e.next(), None);
}

#[test]
fn last_write_wins() {
    let f = parse_ref("HEAPSIZE 1,2\nHEAPSIZE 3").unwrap();
    assert_eq!(f.heap_reserve, Some(3));
    assert_eq!(f.heap_commit, None);

    let f = parse_ref("STACKSIZE 5 STACKSIZE 6,7").unwrap();
    assert_eq!(f.stack_reserve, Some(6));
    assert_eq!(f.stack_commit, Some(7));

    let f = parse_ref("VERSION 1.2\nVERSION 3").unwrap();
    assert_eq!(f.major_version, Some(3));
    assert_eq!(f.minor_version, None);

    let f = parse_ref("STUB:a.x\nSTUB:b.x").unwrap();
    assert_eq!(f.stub, Some("b.x"));

    let f = parse_ref("NAME first\nLIBRARY").unwrap();
    assert_eq!(f.is_library, Some(true));
    assert_eq!(f.name, Some("first"));
}

#[test]
fn round_trip_of_canonical_text() {
    let text = "; comment\nLIBRARY \"my lib\" BASE=4096 ; base\nHEAPSIZE 0x10 , 32\n\
                STACKSIZE 7\nSTUB : stub.x\nVERSION 2 . 5\nSECTIONS .text READ EXECUTE\n\
                .bss READ WRITE SHARED\nEXPORTS f1=inner @3 NONAME\nf2 PRIVATE DATA";
    let first = parse(text).unwrap();
    let written = first.write_to_buffer().unwrap();
    assert_eq!(
        written,
        "LIBRARY \"my lib\" BASE=0x1000\nHEAPSIZE 0x10,0x20\nSTACKSIZE 0x7\nSTUB:stub.x\n\
         VERSION 2.5\nSECTIONS\n    .text READ EXECUTE\n    .bss READ WRITE SHARED\n\
         EXPORTS\n    f1=inner @3 NONAME\n    f2 PRIVATE DATA\n"
    );
    let second = parse(&written).unwrap();
    assert_eq!(first, second);

    let r = parse_ref(text).unwrap();
    let mut buf = [0_u8; 512];
    assert_eq!(r.write_to_buffer(&mut buf).unwrap().unwrap(), written);
}

#[test]
fn lexer_exhaustion_and_quirks() {
    let mut it = TokenIterator::new("");
    assert_eq!(it.eat_token(), None);
    assert_eq!(it.eat_token(), None);

    let mut it = TokenIterator::new("  a ; trailing comment");
    assert_eq!(it.peek_token(), Some("a"));
    assert_eq!(it.eat_token(), Some("a"));
    assert_eq!(it.eat_token(), None);
    assert_eq!(it.eat_token(), None);
    assert_eq!(it.peek_token(), None);

    let mut it = TokenIterator::new("x\"unterminated  \n ");
    assert_eq!(it.eat_token(), Some("x\"unterminated"));
    assert_eq!(it.eat_token(), None);

    let mut it = TokenIterator::new("\"open quote ; here\n  ");
    assert_eq!(it.eat_token(), Some("\"open quote ; here"));
    assert_eq!(it.eat_token(), None);

    let mut it = TokenIterator::new("; one\n; two\r\nVERSION 1.2 a.b");
    assert_eq!(it.eat_token(), Some("VERSION"));
    assert_eq!(it.eat_token(), Some("1"));
    assert_eq!(it.eat_token(), Some("."));
    assert_eq!(it.eat_token(), Some("2"));
    assert_eq!(it.eat_token(), Some("a.b"));
    assert_eq!(it.eat_token(), None);

    let mut it = TokenIterator::new("a,b:c=d");
    assert!(it.next_token_is("a"));
    assert!(!it.next_token_is_keyword());
    let tokens: Vec<_> = std::iter::from_fn(|| it.eat_token()).collect();
    assert_eq!(tokens, vec!["a", ",", "b", ":", "c", "=", "d"]);

    let mut it = TokenIterator::new("\u{3000}EXPORTS\u{a0}x");
    assert!(it.next_token_is_keyword());
    assert_eq!(it.eat_token(), Some("EXPORTS"));
    assert_eq!(it.eat_token(), Some("x"));
}

#[test]
fn comments_and_unterminated_quotes_in_files() {
    assert_eq!(parse_ref("NAME foo ; no newline").unwrap().name, Some("foo"));
    assert_eq!(parse_ref("NAME \"abc def").unwrap().name, Some("abc def"));
    assert_eq!(parse_ref("").unwrap().name, None);
    assert_eq!(parse_ref("; only a comment").unwrap().is_library, None);
    assert_eq!(parse_ref("UNKNOWN things 1 2 3").unwrap().heap_reserve, None);
}

#[test]
fn each_error_kind() {
    assert_eq!(
        parse_ref("VERSION").unwrap_err(),
        ParseError::new(ParseErrorKind::MissingArgumentFor("VERSION"), 7)
    );
    assert_eq!(
        parse_ref("STUB x.y").unwrap_err(),
        ParseError::new(ParseErrorKind::MissingDesignatorFor("STUB"), 5)
    );
    assert_eq!(
        parse_ref("NAME a BASE 16").unwrap_err(),
        ParseError::new(ParseErrorKind::MissingDesignatorFor("BASE"), 12)
    );
    assert_eq!(
        parse_ref("NAME a BASE =").unwrap_err(),
        ParseError::new(ParseErrorKind::MissingArgumentFor("BASE"), 13)
    );
    assert_eq!(
        parse_ref("HEAPSIZE 1,").unwrap_err(),
        ParseError::new(ParseErrorKind::MissingArgumentAfterCommaFor("HEAPSIZE"), 11)
    );
    assert_eq!(
        parse_ref("STACKSIZE +5").unwrap_err(),
        ParseError::new(ParseErrorKind::InvalidNumericalArgument("+5"), 10)
    );
    assert_eq!(
        parse_ref("HEAPSIZE 0x").unwrap_err(),
        ParseError::new(ParseErrorKind::InvalidNumericalArgument("0x"), 9)
    );
    assert_eq!(
        parse_ref("HEAPSIZE 18446744073709551616").unwrap_err(),
        ParseError::new(ParseErrorKind::NumberTooLarge("18446744073709551616"), 9)
    );
    assert_eq!(
        parse_ref("VERSION 1.70000").unwrap_err(),
        ParseError::new(ParseErrorKind::NumberTooLarge("70000"), 10)
    );
}

#[test]
fn largest_numbers() {
    let f = parse_ref("HEAPSIZE 0xFFFFFFFFFFFFFFFF,18446744073709551615 VERSION 65535.0").unwrap();
    assert_eq!(f.heap_reserve, Some(u64::MAX));
    assert_eq!(f.heap_commit, Some(u64::MAX));
    assert_eq!(f.major_version, Some(65535));
    assert_eq!(f.minor_version, Some(0));
    assert_eq!(parse_ref("HEAPSIZE 0xfF").unwrap().heap_reserve, Some(255));
}

#[test]
fn malformed_items_fail_alone() {
    let mut e = parse_ref("EXPORTS a @x PRIVATE\nb @@7").unwrap().exports;
    assert_eq!(
        e.next(),
        Some(Err(ParseError::new(ParseErrorKind::InvalidNumericalArgument("x"), 10)))
    );
    assert_eq!(
        e.next(),
        Some(Ok(ExportRef::new("b", None, Some(7), false, false, false)))
    );
    assert_eq!(e.next(), None);

    let mut e = parse_ref("EXPORTS a =").unwrap().exports;
    assert_eq!(
        e.next(),
        Some(Err(ParseError::missing_arg("EXPORTS", 11)))
    );

    let mut s = parse_ref("SECTIONS .a CLASS code .b READ\n.c CLASS").unwrap().sections;
    assert_eq!(s.next(), Some(Ok(SectionRef::new(".a", false, false, false, false))));
    assert_eq!(s.next(), Some(Ok(SectionRef::new(".b", true, false, false, false))));
    assert_eq!(s.next(), Some(Err(ParseError::missing_arg("SECTIONS", 39))));
    assert_eq!(s.next(), None);

    assert_eq!(
        parse("EXPORTS a @x").unwrap_err(),
        ParseError::new(ParseErrorKind::InvalidNumericalArgument("x"), 10)
    );
}

#[test]
fn owned_records() {
    let f = ModuleDefinitionFile::new("SECTIONS .t SHARED EXPORTS e=i DATA").unwrap();
    assert_eq!(f.sections, vec![Section::new(".t".to_string(), false, false, false, true)]);
    assert_eq!(
        f.exports,
        vec![Export::new("e".to_string(), Some("i".to_string()), None, false, false, true)]
    );
    assert_eq!(
        f.write_to_buffer().unwrap(),
        "SECTIONS\n    .t SHARED\nEXPORTS\n    e=i DATA\n"
    );
}

#[test]
fn writing_to_small_buffer_fails() {
    let f = parse_ref("NAME test").unwrap();
    let mut buf = [0_u8; 9];
    assert!(f.write_to_buffer(&mut buf).is_err());
    let mut buf = [0_u8; 10];
    assert_eq!(f.write_to_buffer(&mut buf).unwrap().unwrap(), "NAME test\n");
}

#[test]
fn quoting_on_write() {
    let f = parse_ref("NAME \"a;b\" STUB:\"c d\"").unwrap();
    let mut buf = [0_u8; 64];
    assert_eq!(
        f.write_to_buffer(&mut buf).unwrap().unwrap(),
        "NAME \"a;b\"\nSTUB:\"c d\"\n"
    );
}

#[test]
fn error_messages() {
    assert_eq!(
        ParseError::new(ParseErrorKind::NumberTooLarge("70000"), 3).to_string(),
        "number '70000' too large"
    );
    assert_eq!(
        ParseError::missing_arg("STUB", 0).to_string(),
        "missing argument for 'STUB'"
    );
    assert_eq!(
        ParseError::new(ParseErrorKind::MissingDesignatorFor("BASE"), 0).to_string(),
        "missing designator (':' or '=') for 'BASE'"
    );
}

#[test]
fn class_is_skipped_and_modifiers_go_on() {
    let mut s = parse_ref("SECTIONS .a CLASS x READ").unwrap().sections;
    assert_eq!(s.next(), Some(Ok(SectionRef::new(".a", true, false, false, false))));
    assert_eq!(s.next(), None);

    let mut s = parse_ref("SECTIONS .a SHARED CLASS 'code' WRITE\n.b").unwrap().sections;
    assert_eq!(s.next(), Some(Ok(SectionRef::new(".a", false, true, false, true))));
    assert_eq!(s.next(), Some(Ok(SectionRef::new(".b", false, false, false, false))));
    assert_eq!(s.next(), None);
}

#[test]
fn header_without_name_is_written() {
    let f = parse_ref("LIBRARY BASE=0x10").unwrap();
    assert_eq!(f.is_library, Some(true));
    assert_eq!(f.base_address, Some(16));
    let mut buf = [0_u8; 64];
    let text = f.write_to_buffer(&mut buf).unwrap().unwrap();
    assert_eq!(text, "LIBRARY BASE=0x10\n");
    let g = parse_ref(text).unwrap();
    assert_eq!(g.is_library, Some(true));
    assert_eq!(g.base_address, Some(16));
    assert_eq!(g.name, None);

    let owned = parse("NAME").unwrap();
    assert_eq!(owned.write_to_buffer().unwrap(), "NAME\n");
    assert_eq!(parse("NAME\n").unwrap(), owned);
}

#[test]
fn writing_keeps_the_rest_of_the_buffer() {
    let f = parse_ref("NAME test").unwrap();
    let mut buf = [0xAA_u8; 16];
    assert_eq!(f.write_to_buffer(&mut buf).unwrap().unwrap(), "NAME test\n");
    assert!(buf[10..].iter().all(|&b| b == 0xAA));

    let mut small = [0xAA_u8; 4];
    assert!(f.write_to_buffer(&mut small).is_err());
    assert_eq!(small, [0xAA_u8; 4]);
}

#[test]
fn version_without_minor_clears_it() {
    let f = parse_ref("VERSION 4.2\nVERSION 5").unwrap();
    assert_eq!(f.major_version, Some(5));
    assert_eq!(f.minor_version, None);
    let f = parse_ref("VERSION 4\nVERSION 5.1").unwrap();
    assert_eq!(f.minor_version, Some(1));
}
