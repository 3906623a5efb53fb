//! Reading single statements, and the statements of whole Rust files.

use std::str::FromStr;
use yadr::{find_all, find_sections_rs, CivilDate, Language, YAdr};

fn text(v: &[char]) -> String {
    v.iter().collect()
}

/// Every statement of a Rust file, which must hold no mistake.
fn found(source: &str) -> Vec<(usize, YAdr)> {
    let scan = find_all(source, Language::Rust);
    assert_eq!(scan.error, None);
    scan.found
}

fn assert_standard(y: &YAdr) {
    assert_eq!(y.in_context, "<use case/user story u>");
    assert_eq!(y.facing_concern, "<concern c>");
    assert_eq!(y.chosen_option, "<option o>");
    assert_eq!(y.neglected_options, "<other options>");
    assert_eq!(y.to_achieve, "<system qualities/desired consequences>");
    assert_eq!(y.accepted_downsides, "<downside d/undesired consequences>");
    assert_eq!(y.because, "<additional rationale>");
}

#[test]
fn simple() {
    let (sources, error) = find_sections_rs(r#"
                // YADR: 2023-11-28
                // hello world
            "#);
    assert_eq!(error, None);
    assert_eq!(sources.len(), 1);
    let s = &sources[0];
    assert_eq!(s.line, 2);
    assert_eq!(s.date, CivilDate::new(2023, 11, 28));
    assert_eq!(text(&s.title), "2023-11-28");
    assert_eq!(text(&s.body), "hello world");
}

#[test]
fn no_trailing_newline() {
    let (sources, error) = find_sections_rs("// YADR: 2023-11-28\n// hello world");
    assert_eq!(error, None);
    assert_eq!(sources.len(), 1);
    let s = &sources[0];
    assert_eq!(s.line, 1);
    assert_eq!(s.date, CivilDate::new(2023, 11, 28));
    assert_eq!(text(&s.title), "2023-11-28");
    assert_eq!(text(&s.body), "hello world");
}

#[test]
fn trailing_space() {
    let (sources, error) = find_sections_rs("// YADR: 2023-11-28\n// hello \n//world \n");
    assert_eq!(error, None);
    assert_eq!(sources.len(), 1);
    let s = &sources[0];
    assert_eq!(s.line, 1);
    assert_eq!(s.date, CivilDate::new(2023, 11, 28));
    assert_eq!(text(&s.title), "2023-11-28");
    assert_eq!(text(&s.body), "hello \nworld ");
}

#[test]
fn consecutive_comments() {
    let (sources, error) = find_sections_rs(r#"
                // YADR: 2023-11-28
                // hello
                // world
            "#);
    assert_eq!(error, None);
    assert_eq!(sources.len(), 1);
    let s = &sources[0];
    assert_eq!(s.line, 2);
    assert_eq!(s.date, CivilDate::new(2023, 11, 28));
    assert_eq!(text(&s.title), "2023-11-28");
    assert_eq!(text(&s.body), "hello\nworld");
}

#[test]
fn multiline() {
    let (sources, error) = find_sections_rs(r#"
                /* YADR: 2023-11-28
                hello world
                */
            "#);
    assert_eq!(error, None);
    assert_eq!(sources.len(), 1);
    let s = &sources[0];
    assert_eq!(s.line, 2);
    assert_eq!(s.date, CivilDate::new(2023, 11, 28));
    assert_eq!(text(&s.title), "2023-11-28");
    assert_eq!(text(&s.body), "hello world");
}

#[test]
fn multiline_stars() {
    let (sources, error) = find_sections_rs(r#"
                /*
                 * YADR: 2023-11-28
                 * hello world
                 */
            "#);
    assert_eq!(error, None);
    assert_eq!(sources.len(), 1);
    let s = &sources[0];
    assert_eq!(s.line, 3);
    assert_eq!(s.date, CivilDate::new(2023, 11, 28));
    assert_eq!(text(&s.title), "2023-11-28");
    assert_eq!(text(&s.body), "hello world");
}

#[test]
fn multiline_leading() {
    let (sources, error) = find_sections_rs(r#"
                /*
                YADR: 2023-11-28
                hello world
                */
            "#);
    assert_eq!(error, None);
    assert_eq!(sources.len(), 1);
    let s = &sources[0];
    assert_eq!(s.line, 3);
    assert_eq!(s.date, CivilDate::new(2023, 11, 28));
    assert_eq!(text(&s.title), "2023-11-28");
    assert_eq!(text(&s.body), "hello world");
}

#[test]
fn multiline_multi_line() {
    let (sources, error) = find_sections_rs(r#"
                /*
                YADR: 2023-11-28
                hello
                world
                */
            "#);
    assert_eq!(error, None);
    assert_eq!(sources.len(), 1);
    let s = &sources[0];
    assert_eq!(s.line, 3);
    assert_eq!(s.date, CivilDate::new(2023, 11, 28));
    assert_eq!(text(&s.title), "2023-11-28");
    assert_eq!(text(&s.body), "hello\nworld");
}

#[test]
fn multiline_trailing_space() {
    let (sources, error) = find_sections_rs("/* YADR: 2023-11-28\nhello \nworld */");
    assert_eq!(error, None);
    assert_eq!(sources.len(), 1);
    let s = &sources[0];
    assert_eq!(s.line, 1);
    assert_eq!(s.date, CivilDate::new(2023, 11, 28));
    assert_eq!(text(&s.title), "2023-11-28");
    assert_eq!(text(&s.body), "hello \nworld ");
}

#[test]
fn parse_one() {
    let yadrs = found(r#"
                /*
                 * YADR: 2023-11-28 foo-bar also
                 * In the context of <use case/user story u>, we faced <concern c>.
                 *
                 * We decided for <option o>, and neglected <other options>.
                 *
                 * We did this to achieve <system qualities/desired consequences>, accepting
                 * <downside d/undesired consequences>.
                 *
                 * We think this is the right trade-off because <additional rationale>.
                 */
            "#);
    assert_eq!(yadrs.len(), 1);
    assert_eq!(yadrs[0].0, 3);
    assert_eq!(yadrs[0].1.date, CivilDate::new(2023, 11, 28));
    assert_eq!(yadrs[0].1.title, "2023-11-28 foo-bar also");
    assert_standard(&yadrs[0].1);
    assert_eq!(yadrs[0].1.tail, None);
}

#[test]
fn parse_one_with_tail() {
    let yadrs = found(r#"
                /*
                 * YADR: 2023-11-28 foo-bar also
                 * In the context of <use case/user story u>, we faced <concern c>.
                 *
                 * We decided for <option o>, and neglected <other options>.
                 *
                 * We did this to achieve <system qualities/desired consequences>, accepting
                 * <downside d/undesired consequences>.
                 *
                 * We think this is the right trade-off because <additional rationale>.
                 *
                 * Also, foobar to the baz.
                 */
            "#);
    assert_eq!(yadrs.len(), 1);
    assert_eq!(yadrs[0].0, 3);
    assert_eq!(yadrs[0].1.date, CivilDate::new(2023, 11, 28));
    assert_eq!(yadrs[0].1.title, "2023-11-28 foo-bar also");
    assert_standard(&yadrs[0].1);
    assert_eq!(yadrs[0].1.tail.as_ref().unwrap(), "Also, foobar to the baz.");
}

#[test]
fn parse_one_with_changes() {
    let yadrs = found(r#"
                /*
                 * YADR: 2023-11-28 foo-bar also
                 * In the context of <use case/user story u>, we faced <concern c>.
                 *
                 * We decided for <option o>, and neglected <other options>.
                 *
                 * We did this to achieve <system qualities/desired consequences>, accepting
                 * <downside d/undesired consequences>.
                 *
                 * We think this is the right trade-off because <additional rationale>.
                 *
                 * 2023-11-29: jon did a thing
                 * 2023-11-30: james did another thing
                 */
            "#);
    assert_eq!(yadrs.len(), 1);
    assert_eq!(yadrs[0].1.tail, None);
    assert_eq!(yadrs[0].1.changes.len(), 2);
    assert_eq!(yadrs[0].1.changes[0].0, CivilDate::new(2023, 11, 29));
    assert_eq!(yadrs[0].1.changes[0].1, "jon did a thing");
    assert_eq!(yadrs[0].1.changes[1].0, CivilDate::new(2023, 11, 30));
    assert_eq!(yadrs[0].1.changes[1].1, "james did another thing");
}

#[test]
fn parse_one_with_changes_and_tail() {
    let yadrs = found(r#"
                /*
                 * YADR: 2023-11-28 foo-bar also
                 * In the context of <use case/user story u>, we faced <concern c>.
                 *
                 * We decided for <option o>, and neglected <other options>.
                 *
                 * We did this to achieve <system qualities/desired consequences>, accepting
                 * <downside d/undesired consequences>.
                 *
                 * We think this is the right trade-off because <additional rationale>.
                 *
                 * And also there's a tail, followed by changes:
                 *
                 * 2023-11-29: jon did a thing
                 * 2023-11-30: james did another thing
                 */
            "#);
    assert_eq!(yadrs.len(), 1);
    assert_eq!(
        yadrs[0].1.tail.as_ref().unwrap(),
        "And also there's a tail, followed by changes:"
    );
    assert_eq!(yadrs[0].1.changes.len(), 2);
    assert_eq!(yadrs[0].1.changes[0].0, CivilDate::new(2023, 11, 29));
    assert_eq!(yadrs[0].1.changes[0].1, "jon did a thing");
    assert_eq!(yadrs[0].1.changes[1].0, CivilDate::new(2023, 11, 30));
    assert_eq!(yadrs[0].1.changes[1].1, "james did another thing");
}

#[test]
fn parse_two() {
    let yadrs = found(r#"
                /*
                 * YADR: 2023-11-28 foo-bar also
                 * In the context of <use case/user story u>, we faced <concern c>.
                 *
                 * We decided for <option o>, and neglected <other options>.
                 *
                 * We did this to achieve <system qualities/desired consequences>, accepting
                 * <downside d/undesired consequences>.
                 *
                 * We think this is the right trade-off because <additional rationale>.
                 */

                // YADR: 2023-11-29 bar-baz
                // In the context of <use case/user story u>, we faced <concern c>.
                //
                // We decided for <option o>, and neglected <other options>.
                //
                // We did this to achieve <system qualities/desired consequences>, accepting
                // <downside d/undesired consequences>.
                //
                // We think this is the right trade-off because <additional rationale>.
            "#);
    assert_eq!(yadrs.len(), 2);
    assert_eq!(yadrs[0].0, 3);
    assert_eq!(yadrs[1].0, 14);
    assert_eq!(yadrs[0].1.date, CivilDate::new(2023, 11, 28));
    assert_eq!(yadrs[0].1.title, "2023-11-28 foo-bar also");
    assert_eq!(yadrs[1].1.date, CivilDate::new(2023, 11, 29));
    assert_eq!(yadrs[1].1.title, "2023-11-29 bar-baz");
    for (_, yadr) in &yadrs {
        assert_standard(yadr);
        assert_eq!(yadr.tail, None);
    }
}

#[test]
fn parse_two_in_one() {
    let yadrs = found(r#"
                /*
                 * YADR: 2023-11-28 foo-bar also
                 * In the context of <use case/user story u>, we faced <concern c>.
                 *
                 * We decided for <option o>, and neglected <other options>.
                 *
                 * We did this to achieve <system qualities/desired consequences>, accepting
                 * <downside d/undesired consequences>.
                 *
                 * We think this is the right trade-off because <additional rationale>.

                 YADR: 2023-11-29 bar-baz
                 In the context of <use case/user story u>, we faced <concern c>.

                 We decided for <option o>, and neglected <other options>.

                 We did this to achieve <system qualities/desired consequences>, accepting
                 <downside d/undesired consequences>.

                 We think this is the right trade-off because <additional rationale>.
                 */
            "#);
    assert_eq!(yadrs.len(), 2);
    assert_eq!(yadrs[0].0, 3);
    assert_eq!(yadrs[1].0, 13);
    assert_eq!(yadrs[0].1.date, CivilDate::new(2023, 11, 28));
    assert_eq!(yadrs[0].1.title, "2023-11-28 foo-bar also");
    assert_eq!(yadrs[1].1.date, CivilDate::new(2023, 11, 29));
    assert_eq!(yadrs[1].1.title, "2023-11-29 bar-baz");
    for (_, yadr) in &yadrs {
        assert_standard(yadr);
        assert_eq!(yadr.tail, None);
    }
}

#[test]
fn lib_realistic() {
    let mut yadrs = found(r#"
                /*
                 * YADR: 2024-06-18 Array elements without a position defined
                 * In the context of dealing with array elements which don't have a position
                 * defined, we faced a decision of how to expose these elements through the public
                 * OrArray API.
                 *
                 * We decided for assigning these elements an arbitrary but deterministic position,
                 * as a function of their uid, and neglected to attempt to map them to the start or
                 * end of the array, or provide a separate API for access to position-less
                 * elements, when their uid is not yet known.
                 *
                 * We did this to achieve minimal impact to the user-facing API, to avoid increasing
                 * the cognitive burden of using this crate, and to ensure that every node has a
                 * consistent view of the array when they share the same state, accepting that users
                 * may be surprised to find that a non-move operation (like a delete) can result in
                 * an element being assigned a different position.
                 *
                 * We think this is the right trade-off because this is a rare edge case, and
                 * placing the burden of handling it on users (by providing a separate access
                 * interface) would've been unreasonable. Additionally, non-deterministic views of
                 * the array would have violated a core assumption that nodes in sync with each
                 * other have the same view of the state.
                 */
            "#);
    for (_, y) in yadrs.iter_mut() {
        y.tidy();
    }
    assert_eq!(yadrs.len(), 1);
    assert_eq!(yadrs[0].0, 3);
    assert_eq!(yadrs[0].1.date, CivilDate::new(2024, 6, 18));
    assert_eq!(yadrs[0].1.title, "2024-06-18 Array elements without a position defined");
    assert_eq!(yadrs[0].1.in_context, "dealing with array elements which don't have a position defined");
    assert_eq!(yadrs[0].1.facing_concern, "a decision of how to expose these elements through the public OrArray API");
    assert_eq!(yadrs[0].1.chosen_option, "assigning these elements an arbitrary but deterministic position, as a function of their uid");
    assert_eq!(yadrs[0].1.neglected_options, "to attempt to map them to the start or end of the array, or provide a separate API for access to position-less elements, when their uid is not yet known");
    assert_eq!(yadrs[0].1.to_achieve, "minimal impact to the user-facing API, to avoid increasing the cognitive burden of using this crate, and to ensure that every node has a consistent view of the array when they share the same state");
    assert_eq!(yadrs[0].1.accepted_downsides, "that users may be surprised to find that a non-move operation (like a delete) can result in an element being assigned a different position");
    assert_eq!(yadrs[0].1.because, "this is a rare edge case, and placing the burden of handling it on users (by providing a separate access interface) would've been unreasonable. Additionally, non-deterministic views of the array would have violated a core assumption that nodes in sync with each other have the same view of the state");
    assert_eq!(yadrs[0].1.tail, None);
}

#[test]
fn full_yadr() {
    let source = "YADR: 2023-11-28 some-title

        In the context of <use case/user story u>, we faced <concern c>.

        We decided for <option o>, and neglected <other options>.

        We did this to achieve <system qualities/desired consequences>, accepting
        <downside d/undesired consequences>.

        We think this is the right trade-off because <additional rationale>.
        ";
    let mut yadr = YAdr::parse(source).unwrap();
    yadr.tidy();
    assert_eq!(yadr.date, CivilDate::new(2023, 11, 28));
    assert_eq!(yadr.title, "2023-11-28 some-title");
    assert_eq!(yadr.in_context, "<use case/user story u>");
    assert_eq!(yadr.facing_concern, "<concern c>");
    assert_eq!(yadr.chosen_option, "<option o>");
    assert_eq!(yadr.neglected_options, "<other options>");
    assert_eq!(yadr.to_achieve, "<system qualities/desired consequences>");
    assert_eq!(yadr.accepted_downsides, "<downside d/undesired consequences>");
    assert_eq!(yadr.because, "<additional rationale>");
    assert_eq!(yadr.tail, None);

    // what `to_string` writes out has to read back as the same statement
    assert_eq!(
        YAdr::parse(&yadr.to_string()).expect("to_string writes the statement's own shape"),
        yadr
    );
}

#[test]
fn parse_borrows_from_its_input() {
    let statement = String::from(
        "YADR: 2024-06-18 a-title

            In the context of <u>, we faced <c>.

            We decided for <o>, and neglected <others>.

            We did this to achieve <q>, accepting <d>.

            We think this is the right trade-off because <r>.",
    );
    let yadr = YAdr::parse(&statement).expect("statement is well-formed");
    assert_eq!(yadr.in_context, "<u>");
    assert_eq!(yadr.title, "2024-06-18 a-title");
    assert_eq!(yadr.date, CivilDate::new(2024, 6, 18));

    let owned = YAdr::from_str(&statement).expect("statement is well-formed");
    assert_eq!(owned, yadr.into_owned());
}

#[test]
fn parse_rejects_a_second_statement() {
    let one = "YADR: 2024-06-18 a-title

            In the context of <u>, we faced <c>.

            We decided for <o>, and neglected <others>.

            We did this to achieve <q>, accepting <d>.

            We think this is the right trade-off because <r>.";
    let two = format!("{one}\n\n{}", one.replace("2024-06-18", "2024-06-19"));
    let e = YAdr::parse(&two).expect_err("two statements is not one statement");
    assert!(
        e.to_string().contains("more than one"),
        "unhelpful error: {}",
        e.to_string()
    );
}

#[test]
fn parse_rejects_input_without_a_statement() {
    let e = YAdr::parse("just some prose").expect_err("prose is not a Y-Statement");
    assert!(
        e.to_string().contains("does not hold a Y-Statement"),
        "unhelpful error: {}",
        e.to_string()
    );
}
