use ddl::fmt::{format_source, tidy, Outcome};

/// A stand-in for the parser, for the formatter's own decisions: the lines
/// that carry code, trailing white space and comments dropped, or `None`
/// where the text holds something no DDL program can. Like the compiler, it
/// rejects a tab anywhere.
fn tree(text: &str) -> Option<String> {
    if text.contains("???") || text.contains('\t') {
        return None;
    }
    let lines: Vec<&str> = text
        .lines()
        .map(|l| l.trim_end())
        .filter(|l| !l.is_empty() && !l.trim_start().starts_with("--"))
        .collect();
    Some(lines.join("\n"))
}

/// A parser that sees a different program in any text it is handed twice.
fn unstable(text: &str) -> Option<String> {
    Some(format!("{}", text.len()))
}

#[test]
fn indentation_is_left_exactly_as_it_was() {
    let src = "fun k2g_shift (\n    value: u32,\n    amount: u5,\n    result: out u32)\n  result = value\n";
    assert_eq!(format_source(src, tree), Outcome::Unchanged);
}

#[test]
fn nesting_is_not_rewritten_either() {
    let src = "fun f (c: u1, a: u8, o: out u8)\n    if c then\n        o = a\n    else\n        o = a\n";
    assert_eq!(format_source(src, tree), Outcome::Unchanged);
}

#[test]
fn comments_survive() {
    let src = "-- a note   \nfun f (a: u8, o: out u8)\n    -- another  \n    o = a\n";
    match format_source(src, tree) {
        Outcome::Changed(got) => {
            assert!(got.contains("-- a note"), "{}", got);
            assert!(got.contains("-- another"), "{}", got);
        }
        other => panic!("{:?}", other),
    }
}

#[test]
fn trailing_whitespace_goes() {
    let got = format_source("fun f (a: u8, o: out u8)   \n  o = a\t\n", tree);
    assert!(matches!(got, Outcome::Refused(_)));

    let got = format_source("fun f (a: u8, o: out u8)   \n  o = a  \n", tree);
    assert_eq!(got, Outcome::Changed("fun f (a: u8, o: out u8)\n  o = a\n".to_string()));
}

#[test]
fn a_tab_makes_it_decline_rather_than_guess() {
    let got = format_source("fun f (a: u8, o: out u8)\n\to = a\n", tree);
    assert!(matches!(got, Outcome::Refused(_)), "{:?}", got);
}

#[test]
fn a_run_of_blank_lines_collapses() {
    let got = format_source("fun f (a: u8, o: out u8)\n  o = a\n\n\n\n", tree);
    assert_eq!(got, Outcome::Changed("fun f (a: u8, o: out u8)\n  o = a\n".to_string()));
}

#[test]
fn a_missing_trailing_newline_is_added() {
    let got = format_source("fun f (a: u8, o: out u8)\n  o = a", tree);
    assert_eq!(got, Outcome::Changed("fun f (a: u8, o: out u8)\n  o = a\n".to_string()));
}

#[test]
fn an_already_formatted_file_is_left_alone() {
    let src = "fun f (a: u8, o: out u8)\n  o = a\n";
    assert_eq!(format_source(src, tree), Outcome::Unchanged);
}

#[test]
fn a_file_that_does_not_parse_is_not_touched() {
    let got = format_source("fun f (a: u8, o: out u8)   \n  ??? broken\n", tree);
    assert!(matches!(got, Outcome::Refused(_)), "{:?}", got);
}

#[test]
fn a_change_in_the_tree_is_refused_with_its_reason() {
    let got = format_source("fun f (a: u8, o: out u8)   \n  o = a\n", unstable);
    assert_eq!(
        got,
        Outcome::Refused("formatting it would have changed what it parses to".to_string())
    );
}

#[test]
fn the_reasons_for_declining_are_told_apart() {
    assert_eq!(
        format_source("a\n\tb\n", tree),
        Outcome::Refused("it contains a tab, and the width to replace it with is a guess".to_string())
    );
    assert_eq!(
        format_source("??? \n", tree),
        Outcome::Refused("it does not parse".to_string())
    );
}

#[test]
fn a_file_with_nothing_to_tidy_is_not_parsed() {
    // `unstable` would refuse any change; with nothing to change it is
    // never asked.
    assert_eq!(format_source("o = a\n", unstable), Outcome::Unchanged);
}

#[test]
fn tidy_keeps_one_blank_line_between_blocks() {
    assert_eq!(tidy("a\n\n\n\nb\n"), Some("a\n\nb\n".to_string()));
    assert_eq!(tidy("a  \r\nb\r\n"), Some("a\nb\n".to_string()));
}

#[test]
fn tidy_of_nothing_is_nothing() {
    assert_eq!(tidy(""), Some(String::new()));
    // A file of blank lines keeps one: a run collapses, it does not vanish.
    assert_eq!(tidy("\n\n\n"), Some("\n".to_string()));
}

#[test]
fn tidy_declines_a_tab_anywhere_on_a_line() {
    assert_eq!(tidy("a\tb\n"), None);
    // Trailing white space goes before the test for a tab.
    assert_eq!(tidy("a\t\n"), Some("a\n".to_string()));
}
