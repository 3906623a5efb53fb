//! What each kind of input parses to, and what each kind of malformed input reports.

use yadr::{find_all, CivilDate, ErrorKind, Language, Scan, Span, YAdr, YadrError};

/// Finds every statement in `source` and tidies each, as a reader of the statements would.
fn harness(language: Language, source: &str) -> Scan {
    let mut scan = find_all(source, language);
    for (_, y) in scan.found.iter_mut() {
        y.tidy();
    }
    scan
}

fn date(year: i16, month: i8, day: i8) -> CivilDate {
    CivilDate::new(year, month, day)
}

fn expect_statements(scan: &Scan, n: usize) -> &Vec<(usize, YAdr)> {
    assert_eq!(scan.error, None, "unexpected error");
    assert_eq!(scan.found.len(), n, "found {:?}", scan.found);
    &scan.found
}

fn expect_error(scan: &Scan) -> &YadrError {
    assert!(scan.found.is_empty(), "found {:?}", scan.found);
    scan.error.as_ref().expect("an error")
}

/// The paragraphs every statement below is written with.
fn assert_standard(y: &YAdr) {
    assert_eq!(y.in_context, "<use case/user story u>");
    assert_eq!(y.facing_concern, "<concern c>");
    assert_eq!(y.chosen_option, "<option o>");
    assert_eq!(y.neglected_options, "<other options>");
    assert_eq!(y.to_achieve, "<system qualities/desired consequences>");
    assert_eq!(y.accepted_downsides, "<downside d/undesired consequences>");
    assert_eq!(y.because, "<additional rationale>");
}

#[test]
fn stars() {
    let scan = harness(
        Language::Rust,
        r#"
/*
 * YADR: 2023-11-29 foo-bar also
 * In the context of <use case/user story u>, we faced <concern c>.
 *
 * We decided for <option o>, and neglected <other options>.
 *
 * We did this to achieve <system qualities/desired consequences>, accepting
 * <downside d/undesired consequences>.
 *
 * We think this is the right trade-off because <additional rationale>.
 *
 * Also, foobar to the baz.
 */
"#,
    );
    let found = expect_statements(&scan, 1);
    let (line, y) = &found[0];
    assert_eq!(*line, 3);
    assert_eq!(y.date, date(2023, 11, 29));
    assert_eq!(y.title, "2023-11-29 foo-bar also");
    assert_standard(y);
    assert_eq!(y.tail.as_deref(), Some("Also, foobar to the baz."));
    assert_eq!(y.changes, vec![]);
}

#[test]
fn stripes() {
    let scan = harness(
        Language::Rust,
        r#"
// YADR: 2023-11-30 bar-baz
// In the context of <use case/user story u>, we faced <concern c>.
//
// We decided for <option o>, and neglected <other options>.
//
// We did this to achieve <system qualities/desired consequences>, accepting
// <downside d/undesired consequences>.
//
// We think this is the right trade-off because <additional rationale>.
"#,
    );
    let found = expect_statements(&scan, 1);
    let (line, y) = &found[0];
    assert_eq!(*line, 2);
    assert_eq!(y.date, date(2023, 11, 30));
    assert_eq!(y.title, "2023-11-30 bar-baz");
    assert_standard(y);
    assert_eq!(y.tail, None);
    assert_eq!(y.changes, vec![]);
}

#[test]
fn hashes_nix() {
    let scan = harness(
        Language::Nix,
        r#"
# YADR: 2023-11-30 bar-baz
# In the context of <use case/user story u>, we faced <concern c>.
#
# We decided for <option o>, and neglected <other options>.
#
# We did this to achieve <system qualities/desired consequences>, accepting
# <downside d/undesired consequences>.
#
# We think this is the right trade-off because <additional rationale>.
"#,
    );
    let found = expect_statements(&scan, 1);
    let (line, y) = &found[0];
    assert_eq!(*line, 2);
    assert_eq!(y.date, date(2023, 11, 30));
    assert_eq!(y.title, "2023-11-30 bar-baz");
    assert_standard(y);
    assert_eq!(y.tail, None);
    assert_eq!(y.changes, vec![]);
}

#[test]
fn block_nix() {
    let scan = harness(
        Language::Nix,
        r#"
/* YADR: 2023-11-30 bar-baz
 * In the context of <use case/user story u>, we faced <concern c>.
 *
 * We decided for <option o>, and neglected <other options>.
 *
 * We did this to achieve <system qualities/desired consequences>, accepting
 * <downside d/undesired consequences>.
 *
 * We think this is the right trade-off because <additional rationale>.
 */
"#,
    );
    let found = expect_statements(&scan, 1);
    let (line, y) = &found[0];
    assert_eq!(*line, 2);
    assert_eq!(y.date, date(2023, 11, 30));
    assert_eq!(y.title, "2023-11-30 bar-baz");
    assert_standard(y);
    assert_eq!(y.tail, None);
    assert_eq!(y.changes, vec![]);
}

#[test]
fn double_block_nix() {
    let scan = harness(
        Language::Nix,
        r#"
/** YADR: 2023-11-30 bar-baz
 * In the context of <use case/user story u>, we faced <concern c>.
 *
 * We decided for <option o>, and neglected <other options>.
 *
 * We did this to achieve <system qualities/desired consequences>, accepting
 * <downside d/undesired consequences>.
 *
 * We think this is the right trade-off because <additional rationale>.
 **/
"#,
    );
    let found = expect_statements(&scan, 1);
    let (line, y) = &found[0];
    assert_eq!(*line, 2);
    assert_eq!(y.date, date(2023, 11, 30));
    assert_eq!(y.title, "2023-11-30 bar-baz");
    assert_standard(y);
    assert_eq!(y.tail, None);
    assert_eq!(y.changes, vec![]);
}

#[test]
fn stripes_to_space() {
    let scan = harness(
        Language::Rust,
        r#"
//! YADR: 2023-11-30 bar-baz
//! In the context of <use case/user story u>, we faced <concern c>.
//!
//! We decided for <option o>, and neglected <other options>.
//!
//! We did this to achieve <system qualities/desired consequences>, accepting
//! <downside d/undesired consequences>.
//!
//! We think this is the right trade-off because <additional rationale>.
//!
//! some more additional docs
//! for this
//! module
//!
//!
//! YADR: 2023-12-01 foo-bar-baz
//! In the context of <use case/user story u>, we faced <concern c>.
//!
//! We decided for <option o>, and neglected <other options>.
//!
//! We did this to achieve <system qualities/desired consequences>, accepting
//! <downside d/undesired consequences>.
//!
//! We think this is the right trade-off because <additional rationale>.
"#,
    );
    let found = expect_statements(&scan, 2);
    let (line, y) = &found[0];
    assert_eq!(*line, 2);
    assert_eq!(y.date, date(2023, 11, 30));
    assert_eq!(y.title, "2023-11-30 bar-baz");
    assert_standard(y);
    assert_eq!(y.tail.as_deref(), Some("some more additional docs\nfor this\nmodule"));
    assert_eq!(y.changes, vec![]);
    let (line, y) = &found[1];
    assert_eq!(*line, 17);
    assert_eq!(y.date, date(2023, 12, 1));
    assert_eq!(y.title, "2023-12-01 foo-bar-baz");
    assert_standard(y);
    assert_eq!(y.tail, None);
    assert_eq!(y.changes, vec![]);
}

#[test]
fn hashes() {
    let scan = harness(
        Language::Python,
        r#"
# YADR: 2023-11-30 bar-baz
# In the context of <use case/user story u>, we faced <concern c>.
#
# We decided for <option o>, and neglected <other options>.
#
# We did this to achieve <system qualities/desired consequences>, accepting
# <downside d/undesired consequences>.
#
# We think this is the right trade-off because <additional rationale>.
"#,
    );
    let found = expect_statements(&scan, 1);
    let (line, y) = &found[0];
    assert_eq!(*line, 2);
    assert_eq!(y.date, date(2023, 11, 30));
    assert_eq!(y.title, "2023-11-30 bar-baz");
    assert_standard(y);
    assert_eq!(y.tail, None);
    assert_eq!(y.changes, vec![]);
}

#[test]
fn docstr_double() {
    let scan = harness(
        Language::Python,
        r#"
"""
YADR: 2023-11-30 bar-baz
In the context of <use case/user story u>, we faced <concern c>.

We decided for <option o>, and neglected <other options>.

We did this to achieve <system qualities/desired consequences>, accepting
<downside d/undesired consequences>.

We think this is the right trade-off because <additional rationale>.
"""
"#,
    );
    let found = expect_statements(&scan, 1);
    let (line, y) = &found[0];
    assert_eq!(*line, 3);
    assert_eq!(y.date, date(2023, 11, 30));
    assert_eq!(y.title, "2023-11-30 bar-baz");
    assert_standard(y);
    assert_eq!(y.tail, None);
    assert_eq!(y.changes, vec![]);
}

#[test]
fn docstr_single() {
    let scan = harness(
        Language::Python,
        r#"
'''
YADR: 2023-11-30 bar-baz
In the context of <use case/user story u>, we faced <concern c>.

We decided for <option o>, and neglected <other options>.

We did this to achieve <system qualities/desired consequences>, accepting
<downside d/undesired consequences>.

We think this is the right trade-off because <additional rationale>.
'''
"#,
    );
    let found = expect_statements(&scan, 1);
    let (line, y) = &found[0];
    assert_eq!(*line, 3);
    assert_eq!(y.date, date(2023, 11, 30));
    assert_eq!(y.title, "2023-11-30 bar-baz");
    assert_standard(y);
    assert_eq!(y.tail, None);
    assert_eq!(y.changes, vec![]);
}

#[test]
fn docstr_raw() {
    let scan = harness(
        Language::Python,
        r#"
r'''
YADR: 2023-11-30 bar-baz
In the context of <use case/user story u>, we faced <concern c>.

We decided for <option o>, and neglected <other options>.

We did this to achieve <system qualities/desired consequences>, accepting
<downside d/undesired consequences>.

We think this is the right trade-off because <additional rationale>.
'''
"#,
    );
    let found = expect_statements(&scan, 1);
    let (line, y) = &found[0];
    assert_eq!(*line, 3);
    assert_eq!(y.date, date(2023, 11, 30));
    assert_eq!(y.title, "2023-11-30 bar-baz");
    assert_standard(y);
    assert_eq!(y.tail, None);
    assert_eq!(y.changes, vec![]);
}

#[test]
fn docstr_unicode() {
    let scan = harness(
        Language::Python,
        r#"
u'''
YADR: 2023-11-30 bar-baz
In the context of <use case/user story u>, we faced <concern c>.

We decided for <option o>, and neglected <other options>.

We did this to achieve <system qualities/desired consequences>, accepting
<downside d/undesired consequences>.

We think this is the right trade-off because <additional rationale>.
'''
"#,
    );
    let found = expect_statements(&scan, 1);
    let (line, y) = &found[0];
    assert_eq!(*line, 3);
    assert_eq!(y.date, date(2023, 11, 30));
    assert_eq!(y.title, "2023-11-30 bar-baz");
    assert_standard(y);
    assert_eq!(y.tail, None);
    assert_eq!(y.changes, vec![]);
}

#[test]
fn pytest_assertion_introspection() {
    let scan = harness(
        Language::Python,
        r#"
@pytest
def test__foo():
    assert false, "Running transform again must give different results."

@pytest
def test__foo():
    assert false, f"Running transform again must give different results."

@pytest
def test__foo():
    assert false, 'Running transform again must give different results.'

@pytest
def test__foo():
    assert false, rb'Running transform again must give different results.'

@pytest
def test__foo():
    assert false, RF"Running transform again must give different results."
"#,
    );
    expect_statements(&scan, 0);
}

#[test]
fn docstr_raw_unicode() {
    let scan = harness(
        Language::Python,
        r#"
ru'''
YADR: 2023-11-30 bar-baz
In the context of <use case/user story u>, we faced <concern c>.

We decided for <option o>, and neglected <other options>.

We did this to achieve <system qualities/desired consequences>, accepting
<downside d/undesired consequences>.

We think this is the right trade-off because <additional rationale>.
'''
"#,
    );
    let found = expect_statements(&scan, 1);
    let (line, y) = &found[0];
    assert_eq!(*line, 3);
    assert_eq!(y.date, date(2023, 11, 30));
    assert_eq!(y.title, "2023-11-30 bar-baz");
    assert_standard(y);
    assert_eq!(y.tail, None);
    assert_eq!(y.changes, vec![]);
}

#[test]
fn early_termination_dashes() {
    let scan = harness(
        Language::Rust,
        r#"
// YADR: 2023-11-30 bar-baz
// In the context of <use case/user story u>, we faced <concern c>.
//
// We decided for <option o>, and neglected <other options>.
//
// We did this to achieve <system qualities/desired consequences>, accepting
// <downside d/undesired consequences>.
//
// We think this is the right trade-off because <additional rationale>.
//
// Here's a tail.
//
// ---
//
// I don't want this included.
"#,
    );
    let found = expect_statements(&scan, 1);
    let (line, y) = &found[0];
    assert_eq!(*line, 2);
    assert_eq!(y.date, date(2023, 11, 30));
    assert_eq!(y.title, "2023-11-30 bar-baz");
    assert_standard(y);
    assert_eq!(y.tail.as_deref(), Some("Here's a tail."));
    assert_eq!(y.changes, vec![]);
}

#[test]
fn early_termination_triple_newline() {
    let scan = harness(
        Language::Rust,
        r#"
// YADR: 2023-11-30 bar-baz
// In the context of <use case/user story u>, we faced <concern c>.
//
// We decided for <option o>, and neglected <other options>.
//
// We did this to achieve <system qualities/desired consequences>, accepting
// <downside d/undesired consequences>.
//
// We think this is the right trade-off because <additional rationale>.
//
// Here's a tail.
//
//
// I don't want this included.
"#,
    );
    let found = expect_statements(&scan, 1);
    let (line, y) = &found[0];
    assert_eq!(*line, 2);
    assert_eq!(y.date, date(2023, 11, 30));
    assert_eq!(y.title, "2023-11-30 bar-baz");
    assert_standard(y);
    assert_eq!(y.tail.as_deref(), Some("Here's a tail."));
    assert_eq!(y.changes, vec![]);
}

#[test]
fn with_changes() {
    let scan = harness(
        Language::Rust,
        r#"
// YADR: 2023-11-30 bar-baz
// In the context of <use case/user story u>, we faced <concern c>.
//
// We decided for <option o>, and neglected <other options>.
//
// We did this to achieve <system qualities/desired consequences>, accepting
// <downside d/undesired consequences>.
//
// We think this is the right trade-off because <additional rationale>.
//
// Here's a tail.
//
// 2023-12-01: changed thing 1
// 2023-12-02: changed thing 2
// 2023-12-03: changed thing 3
"#,
    );
    let found = expect_statements(&scan, 1);
    let (line, y) = &found[0];
    assert_eq!(*line, 2);
    assert_eq!(y.date, date(2023, 11, 30));
    assert_eq!(y.title, "2023-11-30 bar-baz");
    assert_standard(y);
    assert_eq!(y.tail.as_deref(), Some("Here's a tail."));
    assert_eq!(y.changes, vec![(date(2023, 12, 1), "changed thing 1".to_string()), (date(2023, 12, 2), "changed thing 2".to_string()), (date(2023, 12, 3), "changed thing 3".to_string())]);
}

#[test]
fn early_termination_with_changes() {
    let scan = harness(
        Language::Rust,
        r#"
// YADR: 2023-11-30 bar-baz
// In the context of <use case/user story u>, we faced <concern c>.
//
// We decided for <option o>, and neglected <other options>.
//
// We did this to achieve <system qualities/desired consequences>, accepting
// <downside d/undesired consequences>.
//
// We think this is the right trade-off because <additional rationale>.
//
// Here's a tail.
//
// 2023-12-01: changed thing 1
// 2023-12-02: changed thing 2
// 2023-12-03: changed thing 3
//
//
// I don't want this included.
"#,
    );
    let found = expect_statements(&scan, 1);
    let (line, y) = &found[0];
    assert_eq!(*line, 2);
    assert_eq!(y.date, date(2023, 11, 30));
    assert_eq!(y.title, "2023-11-30 bar-baz");
    assert_standard(y);
    assert_eq!(y.tail.as_deref(), Some("Here's a tail."));
    assert_eq!(y.changes, vec![(date(2023, 12, 1), "changed thing 1".to_string()), (date(2023, 12, 2), "changed thing 2".to_string()), (date(2023, 12, 3), "changed thing 3".to_string())]);
}

/// Parses a Y-Statement taken verbatim from a real code base (the [`dson`] crate) rather than one
/// written to fit the parser, so that we notice if the format only works for prose we wrote
/// ourselves.
///
/// [`dson`]: https://github.com/helsing-ai/dson/blob/607ee3a8a7e9a56cb80746b66faa9e6283b5b276/src/crdts/orarray.rs#L434-L454
#[test]
fn instas_realistic() {
    let scan = harness(
        Language::Rust,
        r#"
/*
 * YADR: 2024-06-18 Array elements without a position defined
 *
 * In the context of dealing with array elements which don't have a position defined,
 * we faced a decision of how to expose these elements through the public OrArray API.
 *
 * We decided for assigning these elements an arbitrary but deterministic position, as
 * a function of their uid, and neglected to attempt to map them to the start or end of
 * the array, or provide a separate API for access to position-less elements, when their
 * uid is not yet known.
 *
 * We did this to achieve minimal impact to the user-facing API, to avoid increasing the
 * cognitive burden of using this crate, and to ensure that every node has a consistent
 * view of the array when they share the same state, accepting that users may be
 * surprised to find that a non-move operation (like a delete) can result in an element
 * being assigned a different position.
 *
 * We think this is the right trade-off because this is a rare edge case, and placing
 * the burden of handling it on users (by providing a separate access interface)
 * would've been unreasonable. Additionally, non-deterministic views of the array would
 * have violated a core assumption that nodes in sync with each other have the same view
 * of the state.
 */
"#,
    );
    let found = expect_statements(&scan, 1);
    let (line, y) = &found[0];
    assert_eq!(*line, 3);
    assert_eq!(y.date, date(2024, 6, 18));
    assert_eq!(y.title, "2024-06-18 Array elements without a position defined");
    assert_eq!(y.in_context, "dealing with array elements which don't have a position defined");
    assert_eq!(y.facing_concern, "a decision of how to expose these elements through the public OrArray API");
    assert_eq!(y.chosen_option, "assigning these elements an arbitrary but deterministic position, as a function of their uid");
    assert_eq!(y.neglected_options, "to attempt to map them to the start or end of the array, or provide a separate API for access to position-less elements, when their uid is not yet known");
    assert_eq!(y.to_achieve, "minimal impact to the user-facing API, to avoid increasing the cognitive burden of using this crate, and to ensure that every node has a consistent view of the array when they share the same state");
    assert_eq!(y.accepted_downsides, "that users may be surprised to find that a non-move operation (like a delete) can result in an element being assigned a different position");
    assert_eq!(y.because, "this is a rare edge case, and placing the burden of handling it on users (by providing a separate access interface) would've been unreasonable. Additionally, non-deterministic views of the array would have violated a core assumption that nodes in sync with each other have the same view of the state");
    assert_eq!(y.tail, None);
    assert!(y.changes.is_empty());
}

/// Guards the byte-offset arithmetic behind the "which paragraph is malformed" diagnostic.
///
/// Two properties matter here. The comment is *indented*, so each paragraph's offset has to
/// account for the leading whitespace on its first line; and the paragraphs ahead of the
/// malformed one span several lines each, so the offset also has to account for the line breaks
/// within them. Get either wrong and the span drifts off the paragraph it is meant to underline.
///
/// The third paragraph opens with "We did this to produce" where the format calls for "We did
/// this to achieve", and is otherwise well-formed, so the diagnostic should point at that
/// paragraph and only that paragraph.
#[test]
fn indented_malformed_paragraph() {
    let scan = harness(
        Language::Rust,
        r#"
        /*
         * YADR: 2024-02-10 bar-baz
         *
         * In the context of <use case/user story u> written out at enough length that it
         * wraps onto a second and then a third line of the comment, we faced <concern c>
         * that is described at similar length.
         *
         * We decided for <option o>, spelled out over several lines so that the paragraph
         * ahead of the malformed one is more than a single line tall, and neglected <other
         * options>, which are listed here at a comparable length so that this paragraph
         * ends up four lines tall in total.
         *
         * We did this to produce <system qualities/desired consequences>, spread over
         * enough lines that the reported span has to cover more than one of them, and
         * padded out further so that the shape of this paragraph matches the one before
         * it, accepting <downside d/undesired consequences>, which are written out at
         * length for the same reason.
         *
         * We think this is the right trade-off because <additional rationale>, stated over
         * a few lines so that the diagnostic has something to show underneath the span it
         * highlights.
         *
         * A trailing paragraph, so the malformed one is not the last thing in the comment.
         */
"#,
    );
    let e = expect_error(&scan);
    assert_eq!(e.statement_line, Some(3));
    assert_eq!(e.comment_line, Some(2));
    assert!(matches!(&e.kind, ErrorKind::MalformedParagraph { paragraph: 3, span: Span { start: 471, end: 804 }, ends_with_full_stop: true, source } if source == "\nIn the context of <use case/user story u> written out at enough length that it\nwraps onto a second and then a third line of the comment, we faced <concern c>\nthat is described at similar length.\n\nWe decided for <option o>, spelled out over several lines so that the paragraph\nahead of the malformed one is more than a single line tall, and neglected <other\noptions>, which are listed here at a comparable length so that this paragraph\nends up four lines tall in total.\n\nWe did this to produce <system qualities/desired consequences>, spread over\nenough lines that the reported span has to cover more than one of them, and\npadded out further so that the shape of this paragraph matches the one before\nit, accepting <downside d/undesired consequences>, which are written out at\nlength for the same reason.\n\nWe think this is the right trade-off because <additional rationale>, stated over\na few lines so that the diagnostic has something to show underneath the span it\nhighlights.\n\nA trailing paragraph, so the malformed one is not the last thing in the comment."));
    assert_eq!(e.contexts(), vec!["in comment on line 2".to_string(), "in Y-Statement starting on line 3".to_string(), "in paragraph 3 of that statement".to_string()]);
    assert_eq!(e.kind.message(), "Y-Statement did not match expected format");
    assert_eq!(e.kind.help(), Some("Note that punctuation is significant; you have to match every , and .".to_string()));
    assert_eq!(e.kind.label(), Some((Span { start: 471, end: 804 }, "expected \"We did this to achieve <..>, accepting <..>.\"".to_string())));
}

#[test]
fn two_in_one_rs() {
    let scan = harness(
        Language::Rust,
        r#"
/*
 * YADR: 2023-11-29 foo-bar also
 * In the context of <use case/user story u>, we faced <concern c>.
 *
 * We decided for <option o>, and neglected <other options>.
 *
 * We did this to achieve <system qualities/desired consequences>, accepting
 * <downside d/undesired consequences>.
 *
 * We think this is the right trade-off because <additional rationale>.

 YADR: 2023-11-30 bar-baz
 In the context of <use case/user story u>, we faced <concern c>.

 We decided for <option o>, and neglected <other options>.

 We did this to achieve <system qualities/desired consequences>, accepting
 <downside d/undesired consequences>.

 We think this is the right trade-off because <additional rationale>.
 */
"#,
    );
    let found = expect_statements(&scan, 2);
    let (line, y) = &found[0];
    assert_eq!(*line, 3);
    assert_eq!(y.date, date(2023, 11, 29));
    assert_eq!(y.title, "2023-11-29 foo-bar also");
    assert_standard(y);
    assert_eq!(y.tail, None);
    assert_eq!(y.changes, vec![]);
    let (line, y) = &found[1];
    assert_eq!(*line, 13);
    assert_eq!(y.date, date(2023, 11, 30));
    assert_eq!(y.title, "2023-11-30 bar-baz");
    assert_standard(y);
    assert_eq!(y.tail, None);
    assert_eq!(y.changes, vec![]);
}

#[test]
fn two_in_one_py() {
    let scan = harness(
        Language::Python,
        r#"
# YADR: 2023-11-29 foo-bar also
# In the context of <use case/user story u>, we faced <concern c>.
#
# We decided for <option o>, and neglected <other options>.
#
# We did this to achieve <system qualities/desired consequences>, accepting
# <downside d/undesired consequences>.
#
# We think this is the right trade-off because <additional rationale>.
#
# YADR: 2023-11-30 bar-baz
# In the context of <use case/user story u>, we faced <concern c>.
#
# We decided for <option o>, and neglected <other options>.
#
# We did this to achieve <system qualities/desired consequences>, accepting
# <downside d/undesired consequences>.
#
# We think this is the right trade-off because <additional rationale>.
"#,
    );
    let found = expect_statements(&scan, 2);
    let (line, y) = &found[0];
    assert_eq!(*line, 2);
    assert_eq!(y.date, date(2023, 11, 29));
    assert_eq!(y.title, "2023-11-29 foo-bar also");
    assert_standard(y);
    assert_eq!(y.tail, None);
    assert_eq!(y.changes, vec![]);
    let (line, y) = &found[1];
    assert_eq!(*line, 12);
    assert_eq!(y.date, date(2023, 11, 30));
    assert_eq!(y.title, "2023-11-30 bar-baz");
    assert_standard(y);
    assert_eq!(y.tail, None);
    assert_eq!(y.changes, vec![]);
}

#[test]
fn missing_paragraph() {
    let scan = harness(
        Language::Rust,
        r#"
/*
 * YADR: 2023-11-29 foo-bar also
 * In the context of <use case/user story u>, we faced <concern c>.
 *
 * We decided for <option o>, and neglected <other options>.
 *
 * We did this to achieve <system qualities/desired consequences>, accepting
 * <downside d/undesired consequences>.
 */
"#,
    );
    let e = expect_error(&scan);
    assert_eq!(e.statement_line, Some(3));
    assert_eq!(e.comment_line, Some(2));
    assert!(matches!(&e.kind, ErrorKind::MissingParagraphs { complete: 3, source } if source == "In the context of <use case/user story u>, we faced <concern c>.\n\nWe decided for <option o>, and neglected <other options>.\n\nWe did this to achieve <system qualities/desired consequences>, accepting\n<downside d/undesired consequences>."));
    assert_eq!(e.contexts(), vec!["in comment on line 2".to_string(), "in Y-Statement starting on line 3".to_string()]);
    assert_eq!(e.kind.message(), "Y-Statement is missing a paragraph.");
    assert_eq!(e.kind.help(), None);
    assert_eq!(e.kind.label(), Some((Span { start: 236, end: 239 }, "expected \"We think this is the right trade-off because <..>.\"".to_string())));
}

#[test]
fn malformed_para() {
    let scan = harness(
        Language::Rust,
        r#"
/*
 * YADR: 2023-11-29 foo-bar also
 * In the context of <use case/user story u>, we faced <concern c>.
 *
 * We failed to follow the format for <option o>, and neglected <other options>.
 *
 * We did this to achieve <system qualities/desired consequences>, accepting
 * <downside d/undesired consequences>.
 *
 * We think this is the right trade-off because <additional rationale>.
 */
"#,
    );
    let e = expect_error(&scan);
    assert_eq!(e.statement_line, Some(3));
    assert_eq!(e.comment_line, Some(2));
    assert!(matches!(&e.kind, ErrorKind::MalformedParagraph { paragraph: 2, span: Span { start: 66, end: 143 }, ends_with_full_stop: true, source } if source == "In the context of <use case/user story u>, we faced <concern c>.\n\nWe failed to follow the format for <option o>, and neglected <other options>.\n\nWe did this to achieve <system qualities/desired consequences>, accepting\n<downside d/undesired consequences>.\n\nWe think this is the right trade-off because <additional rationale>."));
    assert_eq!(e.contexts(), vec!["in comment on line 2".to_string(), "in Y-Statement starting on line 3".to_string(), "in paragraph 2 of that statement".to_string()]);
    assert_eq!(e.kind.message(), "Y-Statement did not match expected format");
    assert_eq!(e.kind.help(), Some("Note that punctuation is significant; you have to match every , and .".to_string()));
    assert_eq!(e.kind.label(), Some((Span { start: 66, end: 143 }, "expected \"We decided for <..>, and neglected <..>.\"".to_string())));
}

#[test]
fn title_no_colon() {
    let scan = harness(
        Language::Rust,
        r#"
/*
 * YADR 2023-11-29 foo-bar also
 * In the context of <use case/user story u>, we faced <concern c>.
 *
 * We decided for <option o>, and neglected <other options>.
 *
 * We did this to achieve <system qualities/desired consequences>, accepting
 * <downside d/undesired consequences>.
 *
 * We think this is the right trade-off because <additional rationale>.
 */
"#,
    );
    let e = expect_error(&scan);
    assert_eq!(e.statement_line, None);
    assert_eq!(e.comment_line, Some(2));
    assert!(matches!(&e.kind, ErrorKind::MissingColon { line: 3, title_line } if title_line == " 2023-11-29 foo-bar also"));
    assert_eq!(e.kind.source_code().as_deref(), Some("YADR 2023-11-29 foo-bar also"));
    assert_eq!(e.contexts(), vec!["in comment on line 2".to_string()]);
    assert_eq!(e.kind.message(), "YADR statement on line 3 not followed by :");
    assert_eq!(e.kind.help(), Some("try `YADR: 2023-11-29 foo-bar also`".to_string()));
    assert_eq!(e.kind.label(), Some((Span { start: 0, end: 5 }, "expected YADR:".to_string())));
}

#[test]
fn no_title_seq() {
    let scan = harness(
        Language::Rust,
        r#"
/*
 * YADR: foo-bar also
 * In the context of <use case/user story u>, we faced <concern c>.
 *
 * We decided for <option o>, and neglected <other options>.
 *
 * We did this to achieve <system qualities/desired consequences>, accepting
 * <downside d/undesired consequences>.
 *
 * We think this is the right trade-off because <additional rationale>.
 */
"#,
    );
    let e = expect_error(&scan);
    assert_eq!(e.statement_line, None);
    assert_eq!(e.comment_line, Some(2));
    assert!(matches!(&e.kind, ErrorKind::InvalidDate { line: 3, date, title, reason } if date == "foo-bar" && title == "foo-bar also" && !reason.is_empty()));
    assert!(e.kind.message().starts_with("YADR statement on line 3 has an invalid date: "));
    assert_eq!(e.kind.source_code().as_deref(), Some("YADR: foo-bar also"));
    assert_eq!(e.contexts(), vec!["in comment on line 2".to_string()]);
    assert_eq!(e.kind.help(), Some("Try `YADR: YYYY-MM-DD foo-bar also".to_string()));
    assert_eq!(e.kind.label(), Some((Span { start: 6, end: 13 }, "expected a valid date".to_string())));
}

#[test]
fn no_title() {
    let scan = harness(
        Language::Rust,
        r#"
/*
 * YADR
 * In the context of <use case/user story u>, we faced <concern c>.
 *
 * We decided for <option o>, and neglected <other options>.
 *
 * We did this to achieve <system qualities/desired consequences>, accepting
 * <downside d/undesired consequences>.
 *
 * We think this is the right trade-off because <additional rationale>.
 */
"#,
    );
    let e = expect_error(&scan);
    assert_eq!(e.statement_line, None);
    assert_eq!(e.comment_line, Some(2));
    assert!(matches!(&e.kind, ErrorKind::MissingColon { line: 3, title_line } if title_line.is_empty()));
    assert_eq!(e.kind.source_code().as_deref(), Some("YADR"));
    assert_eq!(e.contexts(), vec!["in comment on line 2".to_string()]);
    assert_eq!(e.kind.message(), "YADR statement on line 3 not followed by :");
    assert_eq!(e.kind.help(), Some("try `YADR: 2023-11-28 some-concise-title`".to_string()));
    assert_eq!(e.kind.label(), Some((Span { start: 0, end: 4 }, "expected YADR:".to_string())));
}

#[test]
fn empty_title() {
    let scan = harness(
        Language::Rust,
        r#"
/*
 * YADR:   
 * In the context of <use case/user story u>, we faced <concern c>.
 *
 * We decided for <option o>, and neglected <other options>.
 *
 * We did this to achieve <system qualities/desired consequences>, accepting
 * <downside d/undesired consequences>.
 *
 * We think this is the right trade-off because <additional rationale>.
 */
"#,
    );
    let e = expect_error(&scan);
    assert_eq!(e.statement_line, None);
    assert_eq!(e.comment_line, Some(2));
    assert!(matches!(&e.kind, ErrorKind::EmptyTitle { line: 3, title_line } if title_line == ":   "));
    assert_eq!(e.kind.source_code().as_deref(), Some("YADR:   "));
    assert_eq!(e.contexts(), vec!["in comment on line 2".to_string()]);
    assert_eq!(e.kind.message(), "YADR statement on line 3 does not have a title");
    assert_eq!(e.kind.help(), Some("try `YADR: 2023-11-28 some-concise-title`".to_string()));
    assert_eq!(e.kind.label(), Some((Span { start: 0, end: 8 }, "expected a title after the :".to_string())));
}

#[test]
fn change_missing_colon() {
    let scan = harness(
        Language::Rust,
        r#"
// YADR: 2023-11-30 bar-baz
// In the context of <use case/user story u>, we faced <concern c>.
//
// We decided for <option o>, and neglected <other options>.
//
// We did this to achieve <system qualities/desired consequences>, accepting
// <downside d/undesired consequences>.
//
// We think this is the right trade-off because <additional rationale>.
//
// Here's a tail.
//
// 2023-12-01: changed thing 1
// 2023-12-02 changed thing 2
// 2023-12-03: changed thing 3
"#,
    );
    let e = expect_error(&scan);
    assert_eq!(e.statement_line, Some(2));
    assert_eq!(e.comment_line, Some(2));
    assert!(matches!(&e.kind, ErrorKind::MissingEmptyLine { span: Span { start: 378, end: 405 }, source } if source == "In the context of <use case/user story u>, we faced <concern c>.\n\nWe decided for <option o>, and neglected <other options>.\n\nWe did this to achieve <system qualities/desired consequences>, accepting\n<downside d/undesired consequences>.\n\nWe think this is the right trade-off because <additional rationale>.\n\nHere's a tail.\n\n2023-12-01: changed thing 1\n2023-12-02 changed thing 2\n2023-12-03: changed thing 3"));
    assert_eq!(e.contexts(), vec!["in comment on line 2".to_string(), "in Y-Statement starting on line 2".to_string()]);
    assert_eq!(e.kind.message(), "missing empty line before list of change list");
    assert_eq!(e.kind.help(), None);
    assert_eq!(e.kind.label(), Some((Span { start: 378, end: 405 }, "before this list of changes".to_string())));
}

#[test]
fn changes_before_tail() {
    let scan = harness(
        Language::Rust,
        r#"
// YADR: 2023-11-30 bar-baz
// In the context of <use case/user story u>, we faced <concern c>.
//
// We decided for <option o>, and neglected <other options>.
//
// We did this to achieve <system qualities/desired consequences>, accepting
// <downside d/undesired consequences>.
//
// We think this is the right trade-off because <additional rationale>.
//
// 2023-12-01: changed thing 1
// 2023-12-02: changed thing 2
// 2023-12-03: changed thing 3
//
// Here's a tail.
"#,
    );
    let e = expect_error(&scan);
    assert_eq!(e.statement_line, Some(2));
    assert_eq!(e.comment_line, Some(2));
    assert!(matches!(&e.kind, ErrorKind::ChangeInMiddle { span: Span { start: 363, end: 390 }, source } if source == "In the context of <use case/user story u>, we faced <concern c>.\n\nWe decided for <option o>, and neglected <other options>.\n\nWe did this to achieve <system qualities/desired consequences>, accepting\n<downside d/undesired consequences>.\n\nWe think this is the right trade-off because <additional rationale>.\n\n2023-12-01: changed thing 1\n2023-12-02: changed thing 2\n2023-12-03: changed thing 3\n\nHere's a tail."));
    assert_eq!(e.contexts(), vec!["in comment on line 2".to_string(), "in Y-Statement starting on line 2".to_string()]);
    assert_eq!(e.kind.message(), "found ADR change in the middle of a YADR block");
    assert_eq!(e.kind.help(), Some("move the change entries to the end of the YADR block".to_string()));
    assert_eq!(e.kind.label(), Some((Span { start: 363, end: 390 }, "this looks like an ADR change entry".to_string())));
}

#[test]
fn change_invalid_date() {
    let scan = harness(
        Language::Rust,
        r#"
// YADR: 2023-11-30 bar-baz
// In the context of <use case/user story u>, we faced <concern c>.
//
// We decided for <option o>, and neglected <other options>.
//
// We did this to achieve <system qualities/desired consequences>, accepting
// <downside d/undesired consequences>.
//
// We think this is the right trade-off because <additional rationale>.
//
// Here's a tail.
//
// 2023-12-01: changed thing 1
// 000: changed thing 2
// 2023-12-03: changed thing 3
"#,
    );
    let e = expect_error(&scan);
    assert_eq!(e.statement_line, Some(2));
    assert_eq!(e.comment_line, Some(2));
    assert!(matches!(&e.kind, ErrorKind::BadChangeDate { span: Span { start: 351, end: 354 }, reason, source } if !reason.is_empty() && source == "In the context of <use case/user story u>, we faced <concern c>.\n\nWe decided for <option o>, and neglected <other options>.\n\nWe did this to achieve <system qualities/desired consequences>, accepting\n<downside d/undesired consequences>.\n\nWe think this is the right trade-off because <additional rationale>.\n\nHere's a tail.\n\n2023-12-01: changed thing 1\n000: changed thing 2\n2023-12-03: changed thing 3"));
    assert!(e.kind.message().starts_with("Y-Statement change entry did not match expected format: "));
    assert_eq!(e.contexts(), vec!["in comment on line 2".to_string(), "in Y-Statement starting on line 2".to_string()]);
    assert_eq!(e.kind.help(), None);
    assert_eq!(e.kind.label(), Some((Span { start: 351, end: 354 }, "expected YYYY-MM-DD".to_string())));
}

#[test]
fn no_empty_line_before_changes() {
    let scan = harness(
        Language::Rust,
        r#"
// YADR: 2023-11-30 bar-baz
// In the context of <use case/user story u>, we faced <concern c>.
//
// We decided for <option o>, and neglected <other options>.
//
// We did this to achieve <system qualities/desired consequences>, accepting
// <downside d/undesired consequences>.
//
// We think this is the right trade-off because <additional rationale>.
//
// Here's a tail.
// 2023-12-01: changed thing 1
// 2023-12-02: changed thing 2
// 2023-12-03: changed thing 3
"#,
    );
    let e = expect_error(&scan);
    assert_eq!(e.statement_line, Some(2));
    assert_eq!(e.comment_line, Some(2));
    assert!(matches!(&e.kind, ErrorKind::MissingEmptyLine { span: Span { start: 322, end: 405 }, source } if source == "In the context of <use case/user story u>, we faced <concern c>.\n\nWe decided for <option o>, and neglected <other options>.\n\nWe did this to achieve <system qualities/desired consequences>, accepting\n<downside d/undesired consequences>.\n\nWe think this is the right trade-off because <additional rationale>.\n\nHere's a tail.\n2023-12-01: changed thing 1\n2023-12-02: changed thing 2\n2023-12-03: changed thing 3"));
    assert_eq!(e.contexts(), vec!["in comment on line 2".to_string(), "in Y-Statement starting on line 2".to_string()]);
    assert_eq!(e.kind.message(), "missing empty line before list of change list");
    assert_eq!(e.kind.help(), None);
    assert_eq!(e.kind.label(), Some((Span { start: 322, end: 405 }, "before this list of changes".to_string())));
}

#[test]
fn bad_change_ordering() {
    let scan = harness(
        Language::Rust,
        r#"
// YADR: 2023-11-30 bar-baz
// In the context of <use case/user story u>, we faced <concern c>.
//
// We decided for <option o>, and neglected <other options>.
//
// We did this to achieve <system qualities/desired consequences>, accepting
// <downside d/undesired consequences>.
//
// We think this is the right trade-off because <additional rationale>.
//
// Here's a tail.
//
// 2023-12-02: changed thing 2
// 2023-12-03: changed thing 3
// 2023-12-01: changed thing 1
"#,
    );
    let e = expect_error(&scan);
    assert_eq!(e.statement_line, Some(2));
    assert_eq!(e.comment_line, Some(2));
    assert!(matches!(&e.kind, ErrorKind::ChangesOutOfOrder { span: Span { start: 351, end: 378 }, source } if source == "In the context of <use case/user story u>, we faced <concern c>.\n\nWe decided for <option o>, and neglected <other options>.\n\nWe did this to achieve <system qualities/desired consequences>, accepting\n<downside d/undesired consequences>.\n\nWe think this is the right trade-off because <additional rationale>.\n\nHere's a tail.\n\n2023-12-02: changed thing 2\n2023-12-03: changed thing 3\n2023-12-01: changed thing 1"));
    assert_eq!(e.contexts(), vec!["in comment on line 2".to_string(), "in Y-Statement starting on line 2".to_string()]);
    assert_eq!(e.kind.message(), "ADR change entries are not in chronological order");
    assert_eq!(e.kind.help(), Some("sort the change entries such that they are listed from oldest to newest".to_string()));
    assert_eq!(e.kind.label(), Some((Span { start: 351, end: 378 }, "this entry should come after the one below it".to_string())));
}
