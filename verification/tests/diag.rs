use ddl::diag::{Diag, DiagSink, Severity, SourceMap, Span};

fn map() -> SourceMap {
    SourceMap::new(
        "shift.ddl".to_string(),
        "fun f (a: i32)\n  let y = foo + 1\n  return y\n".to_string(),
    )
}

#[test]
fn line_col_is_one_based() {
    let m = map();
    assert_eq!(m.line_col(0), (1, 1));
    // "fun f (a: i32)\n" is 15 characters, so offset 15 is the start of line 2.
    assert_eq!(m.line_col(15), (2, 1));
    assert_eq!(m.line_col(17), (2, 3));
}

#[test]
fn render_points_at_the_right_column() {
    let m = map();
    // `foo` begins at column 11 of line 2.
    let lo = 15 + 10;
    let d = Diag::error(Span::new(lo, lo + 3), "`foo` is not defined".to_string());
    let text = m.render(&d);

    assert!(text.contains("error: `foo` is not defined"), "{}", text);
    assert!(text.contains("--> shift.ddl:2:11"), "{}", text);
    assert!(text.contains("2 |   let y = foo + 1"), "{}", text);
    // Ten spaces of indent then a three-wide caret run under `foo`.
    assert!(text.contains(&format!("|{}^^^", " ".repeat(11))), "{}", text);
}

#[test]
fn underline_never_runs_past_the_line() {
    let m = map();
    let d = Diag::error(Span::new(15, 9999), "unterminated".to_string());
    let text = m.render(&d);
    let carets = text.matches('^').count();
    assert!(carets > 0 && carets <= m.line_text_at(1).len(), "{}", text);
}

#[test]
fn a_span_in_the_second_file_names_the_second_file() {
    // The whole point of concatenating: `cat a.ddl b.ddl` also compiles,
    // but reports every error in b as though it were at the bottom of a.
    let m = SourceMap::from_files(vec![
        ("types.ddl".into(), "enum e: i1\n  A\n".into()),
        ("shift.ddl".into(), "fun f (a: i32)\n  let y = foo + 1\n".into()),
    ]);
    let lo = m.text().find("foo").expect("in the buffer") as u32;

    assert_eq!(m.path_at(lo), "shift.ddl");
    assert_eq!(m.line_col(lo), (2, 11));
    assert_eq!(m.path_at(0), "types.ddl");

    let text = m.render(&Diag::error(Span::new(lo, lo + 3), "undefined".to_string()));
    assert!(text.contains("--> shift.ddl:2:11"), "{}", text);
    assert!(text.contains("2 |   let y = foo + 1"), "{}", text);
}

#[test]
fn a_file_without_a_trailing_newline_does_not_run_into_the_next() {
    let m = SourceMap::from_files(vec![
        ("a.ddl".into(), "fun f (o: out i1)".into()),
        ("b.ddl".into(), "fun g (o: out i1)\n".into()),
    ]);
    assert!(m.text().contains("i1)\nfun g"), "{:?}", m.text());
    let lo = m.text().find("fun g").expect("in the buffer") as u32;
    assert_eq!(m.line_col(lo), (1, 1));
    assert_eq!(m.path_at(lo), "b.ddl");
}

#[test]
fn a_diagnostic_without_a_span_still_renders() {
    let m = map();
    let d = Diag::error_no_span("could not read the file".to_string()).with_note("check the path".to_string());
    let text = m.render(&d);
    assert!(text.starts_with("error: could not read the file"));
    assert!(text.contains("note: check the path"));
}

#[test]
fn a_whole_rendered_diagnostic_reads_exactly_so() {
    let m = map();
    let d = Diag::error(Span::new(25, 28), "`foo` is not defined".to_string())
        .with_note("declare it first".to_string());
    assert_eq!(
        m.render(&d),
        "error: `foo` is not defined\n  --> shift.ddl:2:11\n  |\n2 |   let y = foo + 1\n  |           ^^^\n  = note: declare it first"
    );
}

#[test]
fn a_note_without_a_span_is_indented_under_the_message() {
    let m = map();
    let d = Diag::warning(Span::at(0), "w".to_string());
    assert!(m.render(&d).starts_with("warning: w\n"));
    let d = Diag::error_no_span("e".to_string()).with_note("n".to_string());
    assert_eq!(m.render(&d), "error: e\n  note: n");
}

#[test]
fn an_empty_span_still_gets_one_caret() {
    let m = map();
    let text = m.render(&Diag::error(Span::at(17), "here".to_string()));
    assert_eq!(text.matches('^').count(), 1, "{}", text);
    assert!(text.ends_with("  |   ^"), "{}", text);
}

#[test]
fn a_backwards_span_collapses_to_its_start() {
    assert_eq!(Span::new(9, 4), Span { lo: 9, hi: 9 });
    assert_eq!(Span::new(4, 9), Span { lo: 4, hi: 9 });
}

#[test]
fn span_in_file_finds_a_line_of_a_named_file() {
    let m = SourceMap::from_files(vec![
        ("types.ddl".into(), "enum e: i1\n  A\n".into()),
        ("shift.ddl".into(), "fun f (a: i32)\n  let y = foo + 1\n".into()),
    ]);
    // "enum e: i1\n  A\n" is 15 characters; line 2 of shift.ddl starts at 30.
    assert_eq!(m.span_in_file("shift.ddl", 2, 11, 3), Some(Span { lo: 40, hi: 43 }));
    assert_eq!(m.span_in_file("types.ddl", 1, 0, 4), Some(Span { lo: 0, hi: 4 }));
    assert_eq!(m.span_in_file("missing.ddl", 1, 1, 1), None);
    assert_eq!(m.span_in_file("shift.ddl", 0, 1, 1), None);
    // The buffer's end is the start of a last, empty line.
    assert_eq!(m.span_in_file("shift.ddl", 3, 1, 1), Some(Span { lo: 48, hi: 49 }));
    assert_eq!(m.span_in_file("shift.ddl", 4, 1, 1), None);
}

#[test]
fn an_author_text_of_the_same_length_is_what_snippets_quote() {
    let m = SourceMap::from_rewritten(vec![(
        "a.ddl".into(),
        "--port x\nfun f\n".into(),
        Some("import x\nfun f\n".into()),
    )]);
    assert_eq!(m.line_text_at(0), "import x");
    assert_eq!(m.text(), "--port x\nfun f\n");
    // A rewrite of another length is ignored.
    let m = SourceMap::from_rewritten(vec![("a.ddl".into(), "abc\n".into(), Some("a\n".into()))]);
    assert_eq!(m.line_text_at(0), "abc");
}

#[test]
fn no_files_make_one_empty_file() {
    let m = SourceMap::from_files(vec![]);
    assert_eq!(m.path(), "<empty>");
    assert_eq!(m.len(), 0);
    assert_eq!(m.line_col(0), (1, 1));
}

#[test]
fn several_diagnostics_render_with_a_blank_line_between() {
    let m = map();
    let mut sink = DiagSink::new(&m);
    assert!(!sink.has_errors());
    sink.push(Diag::warning(Span::at(0), "first".to_string()));
    assert!(!sink.has_errors());
    sink.err_span(Span::new(15, 16), "second".to_string());
    assert!(sink.has_errors());
    assert_eq!(sink.diags().len(), 2);
    assert_eq!(sink.diags()[1].severity, Severity::Error);
    let all = sink.render();
    assert_eq!(all, format!("{}\n\n{}", m.render(&sink.diags()[0]), m.render(&sink.diags()[1])));
    assert_eq!(sink.into_diags().len(), 2);
}

#[test]
fn addresses_outside_the_buffer_clamp_to_it() {
    let m = map();
    let base = 4096usize;
    assert_eq!(m.offset_of(base, base), 0);
    assert_eq!(m.offset_of(base, base + 25), 25);
    // Below the buffer is its start, past its end is its end.
    assert_eq!(m.offset_of(base, base - 7), 0);
    assert_eq!(m.offset_of(base, base + 10_000), m.len());
    assert_eq!(m.span_at_ptr(base, base + 17), Span::at(17));
    assert_eq!(m.span_of(base, base + 25, 3), Span::new(25, 28));
}

#[test]
fn a_token_placed_by_its_address_renders_at_its_line_and_column() {
    let m = map();
    let base = 1 << 20;
    let mut sink = DiagSink::new(&m);
    sink.err_at(base, base + 25, 3, "`foo` is not defined".to_string());
    sink.warn_at(base, base + 99_999, 1, "past the end".to_string());
    let d = sink.into_diags();
    assert_eq!(d.len(), 2);
    assert_eq!(d[0].severity, Severity::Error);
    assert_eq!(d[0].span, Some(Span::new(25, 28)));
    assert!(m.render(&d[0]).contains("--> shift.ddl:2:11"));
    assert_eq!(d[1].severity, Severity::Warning);
    assert_eq!(d[1].span, Some(Span::new(m.len(), m.len() + 1)));
}

#[test]
fn only_an_error_is_fatal() {
    let warn = Diag::warning(Span::at(0), "w".to_string());
    let err = Diag::error_no_span("e".to_string());
    assert!(!ddl::diag::any_fatal(&[]));
    assert!(!ddl::diag::any_fatal(&[warn.clone()]));
    assert!(ddl::diag::any_fatal(&[warn, err]));
}

#[test]
fn offsets_round_trip_through_pointers() {
    let m = map();
    let base = 1usize << 20;
    let end = base + m.len() as usize;
    assert_eq!(m.offset_of(base, base + 25), 25);
    // Out-of-range addresses clamp instead of panicking.
    assert_eq!(m.offset_of(base, base - 4096), 0);
    assert_eq!(m.offset_of(base, end + 4096), m.len());
}

#[test]
fn a_rewritten_map_reads_as_the_plain_one() {
    let files = vec![
        ("a.ddl".to_string(), "// import b\nfun f ()\n".to_string(), Some("import b\nfun f ()\n".to_string())),
        ("b.ddl".to_string(), "fun g ()".to_string(), None),
    ];
    let m = SourceMap::from_rewritten(files.clone());
    let p = SourceMap::from_files(files.iter().map(|(a, b, _)| (a.clone(), b.clone())).collect());
    assert_eq!(m.text(), p.text());
    assert_eq!(m.len(), p.len());
    for o in 0..m.len() {
        assert_eq!(m.line_col(o), p.line_col(o));
        assert_eq!(m.path_at(o), p.path_at(o));
    }
    assert_eq!(m.path_at(25), "b.ddl");
    assert_eq!(m.line_col(25), (1, 5));
}

#[test]
fn a_rewritten_file_is_quoted_as_written_only_when_as_long() {
    let files = vec![
        ("a.ddl".to_string(), "--port b\nfun f ()\n".to_string(), Some("import b\nfun f ()\n".to_string())),
        ("b.ddl".to_string(), "fun g ()\n".to_string(), Some("fun g (x)\n".to_string())),
    ];
    let m = SourceMap::from_rewritten(files);
    // `a.ddl` kept its original text: same length as the parser's.
    let d = Diag::error(Span::new(0, 2), "here".to_string());
    assert!(m.render(&d).contains("import b"), "{}", m.render(&d));
    // `b.ddl`'s original is longer, so the parser's text is quoted.
    let lo = 18;
    let d = Diag::error(Span::new(lo, lo + 3), "there".to_string());
    assert!(m.render(&d).contains("fun g ()"), "{}", m.render(&d));
}
