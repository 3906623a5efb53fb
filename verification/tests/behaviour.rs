//! The library's promises checked on concrete values: tidying, writing statements out, the
//! change log, parsing a statement on its own, the wording of errors, and the languages read
//! through `tree-sitter`.

use yadr::scan::scan_comment_blocks;
use yadr::{find_all, scan_captures, CivilDate, ErrorKind, Language, Span, TsCapture, YAdr, YadrError};

const STATEMENT: &str = "YADR: 2024-06-18 Store timestamps as UTC

     In the context of comparing timestamps across machines, we faced ambiguity about
     which offset each one was written in.

     We decided for storing everything in UTC, and neglected recording a local offset
     alongside each timestamp.

     We did this to achieve unambiguous ordering, accepting an extra lookup when
     rendering a timestamp in local time.

     We think this is the right trade-off because ordering matters everywhere and
     local-time rendering only in the user interface.";

fn sample() -> YAdr {
    YAdr {
        date: CivilDate::new(2024, 1, 15),
        title: "2024-01-15 Store timestamps as UTC".to_string(),
        in_context: "<ctx>".to_string(),
        facing_concern: "<con>".to_string(),
        chosen_option: "<opt>".to_string(),
        neglected_options: "<others>".to_string(),
        to_achieve: "<q>".to_string(),
        accepted_downsides: "<d>".to_string(),
        because: "<r>".to_string(),
        tail: None,
        changes: Vec::new(),
    }
}

#[test]
fn parse_keeps_line_breaks_until_tidied() {
    let y = YAdr::parse(STATEMENT).expect("well-formed");
    assert_eq!(y.title, "2024-06-18 Store timestamps as UTC");
    assert_eq!(y.neglected_options, "recording a local offset\n     alongside each timestamp");
    let mut t = y.clone();
    t.tidy();
    assert_eq!(t.neglected_options, "recording a local offset alongside each timestamp");
    assert_eq!(t.facing_concern, "ambiguity about which offset each one was written in");
    assert_eq!(t.title, y.title);
}

#[test]
fn tidying_twice_is_tidying_once() {
    let mut once = YAdr::parse(STATEMENT).expect("well-formed");
    once.tidy();
    let mut twice = once.clone();
    twice.tidy();
    assert_eq!(once, twice);
    for field in [
        &once.in_context,
        &once.facing_concern,
        &once.chosen_option,
        &once.neglected_options,
        &once.to_achieve,
        &once.accepted_downsides,
        &once.because,
    ] {
        assert!(!field.trim().contains('\n'), "{field:?} spans lines");
    }
}

#[test]
fn tidy_leaves_single_line_fields_alone() {
    let mut y = sample();
    y.in_context = "  spaced   out  ".to_string();
    y.tail = Some("a\n\nb".to_string());
    let before = y.clone();
    y.tidy();
    assert_eq!(y, before);
}

#[test]
fn tidy_joins_the_words_of_a_broken_field() {
    let mut y = sample();
    y.because = " one\t two\n   three \n".to_string();
    y.tidy();
    assert_eq!(y.because, "one two three");
}

#[test]
fn to_string_writes_the_statement_out() {
    let mut y = sample();
    assert_eq!(
        y.to_string(),
        "YADR: 2024-01-15 Store timestamps as UTC\n\nIn the context of <ctx>, we faced <con>.\n\nWe decided for <opt>, and neglected <others>.\n\nWe did this to achieve <q>, accepting <d>.\n\nWe think this is the right trade-off because <r>."
    );
    y.tail = Some("More to say.".to_string());
    y.changes = vec![
        (CivilDate::new(2024, 2, 1), "reworded".to_string()),
        (CivilDate::new(2024, 3, 9), "moved".to_string()),
    ];
    assert!(y.to_string().ends_with(
        "because <r>.\n\nMore to say.\n\n2024-02-01: reworded\n2024-03-09: moved"
    ));
}

#[test]
fn written_out_statements_read_back() {
    let mut y = sample();
    y.tail = Some("More to say.".to_string());
    y.changes = vec![
        (CivilDate::new(2024, 2, 1), "reworded".to_string()),
        (CivilDate::new(2024, 3, 9), "moved".to_string()),
    ];
    assert_eq!(YAdr::parse(&y.to_string()), Ok(y.clone()));
    y.tail = None;
    assert_eq!(YAdr::parse(&y.to_string()), Ok(y.clone()));
    y.changes = Vec::new();
    assert_eq!(YAdr::parse(&y.to_string()), Ok(y));
}

#[test]
fn a_tail_of_paragraphs_reads_back() {
    let mut y = sample();
    y.tail = Some("First part.\n\nSecond part.".to_string());
    assert_eq!(YAdr::parse(&y.to_string()), Ok(y));
}

#[test]
fn a_tail_with_indented_and_blank_lines_reads_back() {
    let mut y = sample();
    y.tail = Some("Notes:\n  - first\n   \nMore.".to_string());
    assert_eq!(YAdr::parse(&y.to_string()), Ok(y.clone()));
    y.tail = Some("Notes:\n  - first\n  - second".to_string());
    y.changes = vec![(CivilDate::new(2024, 2, 1), "reworded".to_string())];
    assert_eq!(YAdr::parse(&y.to_string()), Ok(y));
}

#[test]
fn a_tail_with_an_empty_line_before_a_change_log_reads_back() {
    let mut y = sample();
    y.tail = Some("First part.\n\nSecond part.".to_string());
    y.changes = vec![(CivilDate::new(2024, 2, 1), "reworded".to_string())];
    let back = YAdr::parse(&y.to_string()).expect("well-formed");
    assert_eq!(back.tail.as_deref(), Some("First part.\n\nSecond part."));
    assert_eq!(back, y);
}

#[test]
fn listing_reports_the_last_change() {
    let mut y = sample();
    assert_eq!(y.last_changed(), None);
    assert_eq!(y.listing_line(), " -> 2024-01-15 Store timestamps as UTC");
    y.changes = vec![
        (CivilDate::new(2024, 1, 20), "a".to_string()),
        (CivilDate::new(2024, 2, 1), "b".to_string()),
    ];
    assert_eq!(y.last_changed(), Some(CivilDate::new(2024, 2, 1)));
    assert_eq!(
        y.listing_line(),
        " -> 2024-01-15 Store timestamps as UTC (last changed: 2024-02-01)"
    );
}

#[test]
fn dates_print_with_padding_and_sign() {
    let mut y = sample();
    y.changes = vec![(CivilDate::new(-1, 2, 3), "long ago".to_string())];
    assert_eq!(
        y.listing_line(),
        " -> 2024-01-15 Store timestamps as UTC (last changed: -000001-02-03)"
    );
    y.changes = vec![(CivilDate::new(987, 12, 31), "".to_string())];
    assert!(y.listing_line().ends_with("(last changed: 0987-12-31)"));
}

#[test]
fn titles_are_found_by_prefix() {
    let y = sample();
    assert!(y.title_starts_with("2024-01"));
    assert!(y.title_starts_with(""));
    assert!(!y.title_starts_with("2024-02"));
    assert!(!y.title_starts_with("2024-01-15 Store timestamps as UTC and more"));
}

fn with_changes(changes: &str) -> String {
    format!(
        "// YADR: 2023-11-30 bar-baz
// In the context of <u>, we faced <c>.
//
// We decided for <o>, and neglected <n>.
//
// We did this to achieve <q>, accepting <d>.
//
// We think this is the right trade-off because <r>.
//
{changes}"
    )
}

#[test]
fn change_entries_must_run_from_oldest_to_newest() {
    for log in [
        "// 2023-12-03: third\n// 2023-12-01: first\n// 2023-12-05: fifth\n",
        "// 2023-12-02: second\n// 2023-12-01: first\n// 2023-12-03: third\n",
    ] {
        let scan = find_all(&with_changes(log), Language::Rust);
        assert!(scan.found.is_empty());
        let e = scan.error.expect("out of order");
        assert!(matches!(e.kind, ErrorKind::ChangesOutOfOrder { .. }), "{:?}", e.kind);
    }
    let scan = find_all(
        &with_changes("// 2023-12-01: first\n// 2023-12-01: again\n// 2023-12-05: fifth\n"),
        Language::Rust,
    );
    assert_eq!(scan.error, None);
    let y = &scan.found[0].1;
    assert_eq!(y.changes.len(), 3);
    assert_eq!(y.last_changed(), Some(CivilDate::new(2023, 12, 5)));
}

#[test]
fn parsing_alone_agrees_with_scanning() {
    let chars: Vec<char> = STATEMENT.chars().collect();
    let scan = scan_comment_blocks(&vec![(1, chars)], None);
    assert_eq!(scan.error, None);
    assert_eq!(scan.found.len(), 1);
    assert_eq!(scan.found[0].0, 1);
    assert_eq!(Ok(scan.found[0].1.clone()), YAdr::parse(STATEMENT));
}

#[test]
fn parse_errors_are_worded_as_before() {
    let two = format!("{STATEMENT}\n\n{}", STATEMENT.replace("2024-06-18", "2024-06-19"));
    let e = YAdr::parse(&two).expect_err("two statements");
    assert_eq!(e.kind, ErrorKind::MoreThanOne { line: 15 });
    assert_eq!(
        e.to_string(),
        "input holds more than one Y-Statement (found a second on line 15)"
    );
    let e = YAdr::parse("just some prose").expect_err("no statement");
    assert_eq!(e, YadrError { kind: ErrorKind::NoStatement, statement_line: None, comment_line: None });
    assert_eq!(e.to_string(), "input does not hold a Y-Statement");
}

#[test]
fn errors_read_outermost_context_first() {
    let source = "// YADR: 2023-11-30 bar-baz
// In the context of <u>, we faced <c>.
//
// We decided for <o> and neglected <n>.
//
// We did this to achieve <q>, accepting <d>.
//
// We think this is the right trade-off because <r>.
";
    let scan = find_all(source, Language::Rust);
    let e = scan.error.expect("malformed");
    assert_eq!(e.to_string(), "in comment on line 1");
    assert_eq!(
        e.contexts(),
        vec![
            "in comment on line 1".to_string(),
            "in Y-Statement starting on line 1".to_string(),
            "in paragraph 2 of that statement".to_string(),
        ]
    );
    assert_eq!(e.kind.message(), "Y-Statement did not match expected format");
    match &e.kind {
        ErrorKind::MalformedParagraph { paragraph, span, ends_with_full_stop, .. } => {
            assert_eq!(*paragraph, 2);
            assert_eq!(*span, Span { start: 38, end: 75 });
            assert!(*ends_with_full_stop);
        }
        other => panic!("unexpected {other:?}"),
    }
}

#[test]
fn a_missing_full_stop_gets_its_own_hint() {
    let source = "YADR: 2023-11-30 bar-baz
In the context of <u>, we faced <c>

We decided for <o>, and neglected <n>.

We did this to achieve <q>, accepting <d>.

We think this is the right trade-off because <r>.";
    let e = YAdr::parse(source).expect_err("malformed");
    assert_eq!(e.kind.help().as_deref(), Some("Note the lack of a trailing `.`"));
    assert_eq!(e.to_string(), "in paragraph 1 of that statement");
}

#[test]
fn statements_needs_a_blank_line_before_yadr_to_count_as_one() {
    // a YADR word in running prose is not an attempt at a statement
    let scan = find_all("// and so I wrote a\n// YADR for this.\n", Language::Rust);
    assert_eq!(scan.error, None);
    assert!(scan.found.is_empty());
    // after an empty line it is, and the colon is missing
    let scan = find_all("// so therefore:\n//\n// YADR foo bar\n", Language::Rust);
    let e = scan.error.expect("missing colon");
    assert!(matches!(e.kind, ErrorKind::MissingColon { line: 3, .. }));
}

#[test]
fn yadr_must_be_a_word_of_its_own() {
    let scan = find_all("//\n// YADRS: 2023-11-30 x\n", Language::Rust);
    assert_eq!(scan.error, None);
    assert!(scan.found.is_empty());
    let scan = find_all("//\n// YADRé: 2023-11-30 x\n", Language::Rust);
    assert_eq!(scan.error, None);
    let scan = find_all("//\n// YADR-: 2023-11-30 x\n", Language::Rust);
    assert!(matches!(scan.error.map(|e| e.kind), Some(ErrorKind::MissingColon { line: 2, .. })));
}

#[test]
fn typescript_comments_are_read() {
    // a block comment whose first line is empty is placed on the line of its `/*`, since the
    // stripping of its `*` decoration takes that line break with it
    let source = "// YADR: 2024-06-11 Send the auth token in a header
// In the context of <u>, we faced <c>.
//
// We decided for <o>, and neglected <n>.
//
// We did this to achieve <q>, accepting <d>.
//
// We think this is the right trade-off because <r>.
export const x = 1;

/*
 * YADR: 2024-07-23 Key the cache by the full request URL
 *
 * In the context of <u>, we faced <c>.
 *
 * We decided for <o>, and neglected <n>.
 *
 * We did this to achieve <q>, accepting <d>.
 *
 * We think this is the right trade-off because <r>.
 */
";
    let scan = find_all(source, Language::TypeScript);
    assert_eq!(scan.error, None);
    let found: Vec<(usize, String)> = scan.found.iter().map(|(l, y)| (*l, y.title.clone())).collect();
    assert_eq!(
        found,
        vec![
            (1, "2024-06-11 Send the auth token in a header".to_string()),
            (11, "2024-07-23 Key the cache by the full request URL".to_string()),
        ]
    );
}

#[test]
fn captures_are_read_as_comment_blocks() {
    let cap = |index: u32, text: &str, row: usize| TsCapture {
        index,
        text: text.to_string(),
        start_row: row,
        end_row: row,
    };
    let matches = vec![vec![
        cap(0, "# YADR: 2023-11-30 bar-baz", 0),
        cap(0, "# In the context of <u>, we faced <c>.", 1),
        cap(0, "#", 2),
        cap(0, "# We decided for <o>, and neglected <n>.", 3),
        cap(0, "#", 4),
        cap(0, "# We did this to achieve <q>, accepting <d>.", 5),
        cap(0, "#", 6),
        cap(0, "# We think this is the right trade-off because <r>.", 7),
    ]];
    let scan = scan_captures(&matches);
    assert_eq!(scan.error, None);
    assert_eq!(scan.found.len(), 1);
    assert_eq!(scan.found[0].0, 1);
    assert_eq!(scan.found[0].1.because, "<r>");

    // a gap between two comments ends the first block
    let mut split = matches[0].clone();
    for c in split.iter_mut().skip(2) {
        c.start_row += 1;
        c.end_row += 1;
    }
    let scan = scan_captures(&vec![split]);
    let e = scan.error.expect("a block that is only a title");
    assert_eq!(e.comment_line, Some(1));
    assert_eq!(e.statement_line, Some(1));
}

#[test]
fn captures_with_an_unknown_prefix_are_refused() {
    let matches = vec![vec![TsCapture {
        index: 0,
        text: "-- YADR: 2023-11-30 x".to_string(),
        start_row: 0,
        end_row: 0,
    }]];
    let scan = scan_captures(&matches);
    let e = scan.error.expect("unexpected prefix");
    assert_eq!(e.kind, ErrorKind::UnexpectedPrefix { text: "-- YADR: 2023-11-30 x".to_string() });
    assert_eq!(e.to_string(), "Found unexpected prefix in text -- YADR: 2023-11-30 x");
}

#[test]
fn python_strings_other_than_docstrings_are_skipped() {
    let scan = find_all("x = 1\n\"just a string\"\nb'bytes'\n", Language::Python);
    assert_eq!(scan.error, None);
    assert!(scan.found.is_empty());
}

#[test]
fn invalid_dates_are_reported_with_the_date() {
    let e = YAdr::parse("YADR: 2023-13-01 x\nIn the context of <u>, we faced <c>.")
        .expect_err("month 13");
    match &e.kind {
        ErrorKind::InvalidDate { line, date, title, .. } => {
            assert_eq!(*line, 1);
            assert_eq!(date, "2023-13-01");
            assert_eq!(title, "2023-13-01 x");
        }
        other => panic!("unexpected {other:?}"),
    }
    assert_eq!(e.kind.label(), Some((Span { start: 6, end: 16 }, "expected a valid date".to_string())));
}

#[test]
fn a_malformed_first_paragraph_is_underlined_where_it_starts() {
    for lead in ["", "\n", "\n \t "] {
        let text = format!(
            "YADR: 2024-01-15 x\n{lead}In the kontext of a, we faced b.\n\nWe decided for c, and neglected d.\n\nWe did this to achieve e, accepting f.\n\nWe think this is the right trade-off because g."
        );
        let e = YAdr::parse(&text).expect_err("malformed");
        match e.kind {
            ErrorKind::MalformedParagraph { paragraph: 1, span, source, .. } => {
                let p = &source[span.start..span.end];
                assert_eq!(p, "In the kontext of a, we faced b.", "{lead:?} {span:?} {source:?}");
            }
            other => panic!("{other:?}"),
        }
    }
}

#[test]
fn fields_that_span_lines_read_back() {
    let mut y = sample();
    y.in_context = "a\n".to_string();
    y.facing_concern = "two\nlines".to_string();
    y.because = "one.\nTwo".to_string();
    assert_eq!(YAdr::parse(&y.to_string()), Ok(y.clone()));
    let parsed = YAdr::parse("YADR: 2024-01-15 t\n\nIn the context of a\n, we faced b.\n\nWe decided for c, and neglected d.\n\nWe did this to achieve e, accepting f.\n\nWe think this is the right trade-off because g.").expect("well-formed");
    let mut tidied = parsed.clone();
    tidied.tidy();
    assert_eq!(tidied.in_context, "a\n");
    assert_eq!(YAdr::parse(&tidied.to_string()), Ok(tidied));
}
