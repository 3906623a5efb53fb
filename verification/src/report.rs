//! The words of a diagnostic: the message, the contexts it is found in, a hint, and the
//! labelled span of the text it points into.
use vstd::prelude::*;
use crate::text::{chars_of, push_str, string_of, utf8_len, utf8_len_of, sat_add, trim, trim_chars};
use crate::date::{padded, push_padded};
use crate::error::{ErrorKind, SpecErrorKind, Span, YadrError, SpecError};

verus! {

broadcast use vstd::string::group_string_axioms;

/// `n` in decimal, without leading zeros.
pub open spec fn decimal(n: nat) -> Seq<char> {
    padded(n, 1)
}

/// How each paragraph of a statement is described to its writer, from 1 to 4.
pub open spec fn paragraph_shape(k: int) -> Seq<char> {
    if k <= 1 {
        "\"In the context of <..>, we faced <..>.\""@
    } else if k == 2 {
        "\"We decided for <..>, and neglected <..>.\""@
    } else if k == 3 {
        "\"We did this to achieve <..>, accepting <..>.\""@
    } else {
        "\"We think this is the right trade-off because <..>.\""@
    }
}

/// How many paragraphs are missing, in words.
pub open spec fn missing_words(n: int) -> Seq<char> {
    if n == 1 {
        "a paragraph"@
    } else if n == 2 {
        "two paragraphs"@
    } else {
        "multiple ("@ + decimal(if n < 0 {
            0
        } else {
            n as nat
        }) + ") paragraphs"@
    }
}

/// The message of an error: what went wrong, in one sentence.
pub open spec fn kind_message(k: SpecErrorKind) -> Seq<char> {
    match k {
        SpecErrorKind::MissingColon { line, .. } => "YADR statement on line "@ + decimal(
            line as nat,
        ) + " not followed by :"@,
        SpecErrorKind::EmptyTitle { line, .. } => "YADR statement on line "@ + decimal(line as nat)
            + " does not have a title"@,
        SpecErrorKind::InvalidDate { line, reason, .. } => "YADR statement on line "@ + decimal(
            line as nat,
        ) + " has an invalid date: "@ + reason,
        SpecErrorKind::ChangeInMiddle { .. } => "found ADR change in the middle of a YADR block"@,
        SpecErrorKind::ChangesOutOfOrder { .. } =>
            "ADR change entries are not in chronological order"@,
        SpecErrorKind::BadChangeDate { reason, .. } =>
            "Y-Statement change entry did not match expected format: "@ + reason,
        SpecErrorKind::MissingEmptyLine { .. } => "missing empty line before list of change list"@,
        SpecErrorKind::MalformedParagraph { .. } => "Y-Statement did not match expected format"@,
        SpecErrorKind::MissingParagraphs { complete, .. } => "Y-Statement is missing "@
            + missing_words(4 - complete) + "."@,
        SpecErrorKind::Unmatched { .. } => "Y statement did not match expected format."@,
        SpecErrorKind::MoreThanOne { line } =>
            "input holds more than one Y-Statement (found a second on line "@ + decimal(
            line as nat,
        ) + ")"@,
        SpecErrorKind::NoStatement => "input does not hold a Y-Statement"@,
        SpecErrorKind::GrammarUnavailable { reason } => reason,
        SpecErrorKind::ParseCancelled => "parsing timed out or was cancelled"@,
        SpecErrorKind::QueryInvalid { reason } => reason,
        SpecErrorKind::UnexpectedPrefix { text } => "Found unexpected prefix in text "@ + text,
    }
}

/// What an error of this kind was doing when it went wrong, where that is said apart from its
/// message.
pub open spec fn kind_context(k: SpecErrorKind) -> Option<Seq<char>> {
    match k {
        SpecErrorKind::MalformedParagraph { paragraph, .. } => Some(
            "in paragraph "@ + decimal(paragraph as nat) + " of that statement"@,
        ),
        SpecErrorKind::GrammarUnavailable { .. } => Some("loading language grammar"@),
        SpecErrorKind::QueryInvalid { .. } => Some("tree-sitter comment query syntax check"@),
        _ => None,
    }
}

/// The usual title line, offered when a title is missing.
pub open spec fn title_example() -> Seq<char> {
    "try `YADR: 2023-11-28 some-concise-title`"@
}

/// A hint at how to mend an error, where there is one.
pub open spec fn kind_help(k: SpecErrorKind) -> Option<Seq<char>> {
    match k {
        SpecErrorKind::MissingColon { title_line, .. } => Some(
            if trim(title_line).len() == 0 {
                title_example()
            } else {
                "try `YADR:"@ + title_line + "`"@
            },
        ),
        SpecErrorKind::EmptyTitle { .. } => Some(title_example()),
        SpecErrorKind::InvalidDate { title, .. } => Some("Try `YADR: YYYY-MM-DD "@ + title),
        SpecErrorKind::ChangeInMiddle { .. } => Some(
            "move the change entries to the end of the YADR block"@,
        ),
        SpecErrorKind::ChangesOutOfOrder { .. } => Some(
            "sort the change entries such that they are listed from oldest to newest"@,
        ),
        SpecErrorKind::MalformedParagraph { ends_with_full_stop, .. } => Some(
            if ends_with_full_stop {
                "Note that punctuation is significant; you have to match every , and ."@
            } else {
                "Note the lack of a trailing `.`"@
            },
        ),
        _ => None,
    }
}

/// The text an error points into, where it points into one.
pub open spec fn kind_source(k: SpecErrorKind) -> Option<Seq<char>> {
    match k {
        SpecErrorKind::MissingColon { title_line, .. } => Some("YADR"@ + title_line),
        SpecErrorKind::EmptyTitle { title_line, .. } => Some("YADR"@ + title_line),
        SpecErrorKind::InvalidDate { title, .. } => Some("YADR: "@ + title),
        SpecErrorKind::ChangeInMiddle { source, .. } => Some(source),
        SpecErrorKind::ChangesOutOfOrder { source, .. } => Some(source),
        SpecErrorKind::BadChangeDate { source, .. } => Some(source),
        SpecErrorKind::MissingEmptyLine { source, .. } => Some(source),
        SpecErrorKind::MalformedParagraph { source, .. } => Some(source),
        SpecErrorKind::MissingParagraphs { source, .. } => Some(source + "\n   "@),
        SpecErrorKind::Unmatched { source } => Some(source),
        _ => None,
    }
}

/// The byte span an error points at in its text, and what is said there, where it points at one.
pub open spec fn kind_label(k: SpecErrorKind) -> Option<(Span, Seq<char>)> {
    match k {
        SpecErrorKind::MissingColon { title_line, .. } => Some(
            (
                Span {
                    start: 0,
                    end: (4 + if title_line.len() == 0 {
                        0int
                    } else {
                        1
                    }) as usize,
                },
                "expected YADR:"@,
            ),
        ),
        SpecErrorKind::EmptyTitle { title_line, .. } => Some(
            (
                Span { start: 0, end: sat_add(4, utf8_len(title_line) as int) as usize },
                "expected a title after the :"@,
            ),
        ),
        SpecErrorKind::InvalidDate { date, .. } => Some(
            (
                Span { start: 6, end: sat_add(6, utf8_len(date) as int) as usize },
                "expected a valid date"@,
            ),
        ),
        SpecErrorKind::ChangeInMiddle { span, .. } => Some(
            (span, "this looks like an ADR change entry"@),
        ),
        SpecErrorKind::ChangesOutOfOrder { span, .. } => Some(
            (span, "this entry should come after the one below it"@),
        ),
        SpecErrorKind::BadChangeDate { span, .. } => Some((span, "expected YYYY-MM-DD"@)),
        SpecErrorKind::MissingEmptyLine { span, .. } => Some((span, "before this list of changes"@)),
        SpecErrorKind::MalformedParagraph { paragraph, span, .. } => Some(
            (span, "expected "@ + paragraph_shape(paragraph as int)),
        ),
        SpecErrorKind::MissingParagraphs { complete, source } => Some(
            (
                Span {
                    start: sat_add(utf8_len(source) as int, 1) as usize,
                    end: sat_add(utf8_len(source) as int, 4) as usize,
                },
                "expected "@ + paragraph_shape(complete + 1),
            ),
        ),
        _ => None,
    }
}

/// The contexts an error is found in, outermost first: the comment, the statement, and what
/// the error itself was doing.
pub open spec fn error_contexts(e: SpecError) -> Seq<Seq<char>> {
    (match e.comment_line {
        Some(l) => seq!["in comment on line "@ + decimal(l as nat)],
        None => seq![],
    }) + (match e.statement_line {
        Some(l) => seq!["in Y-Statement starting on line "@ + decimal(l as nat)],
        None => seq![],
    }) + (match kind_context(e.kind) {
        Some(c) => seq![c],
        None => seq![],
    })
}

/// An error in one line: its outermost context, or its message where it has none.
pub open spec fn error_line(e: SpecError) -> Seq<char> {
    let cs = error_contexts(e);
    if cs.len() > 0 {
        cs[0]
    } else {
        kind_message(e.kind)
    }
}

/// The specification's view of an optional string.
pub open spec fn opt_text(s: Option<String>) -> Option<Seq<char>> {
    match s {
        Some(s) => Some(s@),
        None => None,
    }
}

/// Appends `n` in decimal.
fn push_decimal(out: &mut Vec<char>, n: usize)
    ensures
        final(out)@ == old(out)@ + decimal(n as nat),
{
    push_padded(out, n as u64, 1);
}

/// The number of bytes `s` takes in UTF-8, or `usize::MAX` if that is more.
fn byte_count(s: &String) -> (res: usize)
    ensures
        res == sat_add(0, utf8_len(s@) as int),
{
    let v = chars_of(s.as_str());
    assert(v@.subrange(0, v@.len() as int) =~= v@);
    utf8_len_of(v.as_slice(), 0, v.len(), 0)
}

fn plus(a: usize, b: usize) -> (res: usize)
    ensures
        res == sat_add(a as int, b as int),
{
    if a <= usize::MAX - b {
        a + b
    } else {
        usize::MAX
    }
}

/// `prefix` followed by `n` in decimal and `suffix`.
fn numbered(prefix: &str, n: usize, suffix: &str) -> (res: String)
    ensures
        res@ == prefix@ + decimal(n as nat) + suffix@,
{
    let mut out: Vec<char> = Vec::new();
    push_str(&mut out, prefix);
    push_decimal(&mut out, n);
    push_str(&mut out, suffix);
    string_of(out.as_slice())
}

/// `prefix` followed by `n` in decimal.
fn with_number(prefix: &str, n: usize) -> (res: String)
    ensures
        res@ == prefix@ + decimal(n as nat),
{
    let mut out: Vec<char> = Vec::new();
    push_str(&mut out, prefix);
    push_decimal(&mut out, n);
    string_of(out.as_slice())
}

/// `a` followed by `b`.
fn joined(a: &str, b: &str) -> (res: String)
    ensures
        res@ == a@ + b@,
{
    let mut out: Vec<char> = Vec::new();
    push_str(&mut out, a);
    push_str(&mut out, b);
    string_of(out.as_slice())
}

/// The description of paragraph `k` (from 1).
fn shape_of(k: usize) -> (res: &'static str)
    ensures
        res@ == paragraph_shape(k as int),
{
    if k <= 1 {
        "\"In the context of <..>, we faced <..>.\""
    } else if k == 2 {
        "\"We decided for <..>, and neglected <..>.\""
    } else if k == 3 {
        "\"We did this to achieve <..>, accepting <..>.\""
    } else {
        "\"We think this is the right trade-off because <..>.\""
    }
}

impl ErrorKind {
    /// What went wrong, in one sentence; see [`kind_message`].
    pub fn message(&self) -> (res: String)
        ensures
            res@ == kind_message(self@),
    {
        match self {
            ErrorKind::MissingColon { line, .. } => numbered(
                "YADR statement on line ",
                *line,
                " not followed by :",
            ),
            ErrorKind::EmptyTitle { line, .. } => numbered(
                "YADR statement on line ",
                *line,
                " does not have a title",
            ),
            ErrorKind::InvalidDate { line, reason, .. } => {
                let mut out: Vec<char> = Vec::new();
                push_str(&mut out, "YADR statement on line ");
                push_decimal(&mut out, *line);
                push_str(&mut out, " has an invalid date: ");
                push_str(&mut out, reason.as_str());
                string_of(out.as_slice())
            },
            ErrorKind::ChangeInMiddle { .. } => "found ADR change in the middle of a YADR block".to_string(),
            ErrorKind::ChangesOutOfOrder { .. } => "ADR change entries are not in chronological order".to_string(),
            ErrorKind::BadChangeDate { reason, .. } => joined(
                "Y-Statement change entry did not match expected format: ",
                reason.as_str(),
            ),
            ErrorKind::MissingEmptyLine { .. } => "missing empty line before list of change list".to_string(),
            ErrorKind::MalformedParagraph { .. } => "Y-Statement did not match expected format".to_string(),
            ErrorKind::MissingParagraphs { complete, .. } => {
                let mut out: Vec<char> = Vec::new();
                push_str(&mut out, "Y-Statement is missing ");
                if *complete == 3 {
                    push_str(&mut out, "a paragraph");
                } else if *complete == 2 {
                    push_str(&mut out, "two paragraphs");
                } else {
                    let n: usize = if *complete <= 4 {
                        4 - *complete
                    } else {
                        0
                    };
                    push_str(&mut out, "multiple (");
                    push_decimal(&mut out, n);
                    push_str(&mut out, ") paragraphs");
                }
                push_str(&mut out, ".");
                string_of(out.as_slice())
            },
            ErrorKind::Unmatched { .. } => "Y statement did not match expected format.".to_string(),
            ErrorKind::MoreThanOne { line } => numbered(
                "input holds more than one Y-Statement (found a second on line ",
                *line,
                ")",
            ),
            ErrorKind::NoStatement => "input does not hold a Y-Statement".to_string(),
            ErrorKind::GrammarUnavailable { reason } => reason.clone(),
            ErrorKind::ParseCancelled => "parsing timed out or was cancelled".to_string(),
            ErrorKind::QueryInvalid { reason } => reason.clone(),
            ErrorKind::UnexpectedPrefix { text } => joined(
                "Found unexpected prefix in text ",
                text.as_str(),
            ),
        }
    }

    /// What the error was doing when it went wrong, where that is said apart from its message;
    /// see [`kind_context`].
    pub fn context(&self) -> (res: Option<String>)
        ensures
            opt_text(res) == kind_context(self@),
    {
        match self {
            ErrorKind::MalformedParagraph { paragraph, .. } => Some(
                numbered("in paragraph ", *paragraph, " of that statement"),
            ),
            ErrorKind::GrammarUnavailable { .. } => Some("loading language grammar".to_string()),
            ErrorKind::QueryInvalid { .. } => Some("tree-sitter comment query syntax check".to_string()),
            _ => None,
        }
    }

    /// A hint at how to mend the error; see [`kind_help`].
    pub fn help(&self) -> (res: Option<String>)
        ensures
            opt_text(res) == kind_help(self@),
    {
        match self {
            ErrorKind::MissingColon { title_line, .. } => {
                let v = chars_of(title_line.as_str());
                let t = trim_chars(v.as_slice());
                if t.len() == 0 {
                    Some("try `YADR: 2023-11-28 some-concise-title`".to_string())
                } else {
                    let mut out: Vec<char> = Vec::new();
                    push_str(&mut out, "try `YADR:");
                    push_str(&mut out, title_line.as_str());
                    push_str(&mut out, "`");
                    Some(string_of(out.as_slice()))
                }
            },
            ErrorKind::EmptyTitle { .. } => Some("try `YADR: 2023-11-28 some-concise-title`".to_string()),
            ErrorKind::InvalidDate { title, .. } => Some(joined("Try `YADR: YYYY-MM-DD ", title.as_str())),
            ErrorKind::ChangeInMiddle { .. } => Some(
                "move the change entries to the end of the YADR block".to_string(),
            ),
            ErrorKind::ChangesOutOfOrder { .. } => Some(
                "sort the change entries such that they are listed from oldest to newest".to_string(),
            ),
            ErrorKind::MalformedParagraph { ends_with_full_stop, .. } => {
                if *ends_with_full_stop {
                    Some("Note that punctuation is significant; you have to match every , and .".to_string())
                } else {
                    Some("Note the lack of a trailing `.`".to_string())
                }
            },
            _ => None,
        }
    }

    /// The text the error points into; see [`kind_source`].
    pub fn source_code(&self) -> (res: Option<String>)
        ensures
            opt_text(res) == kind_source(self@),
    {
        match self {
            ErrorKind::MissingColon { title_line, .. } => Some(joined("YADR", title_line.as_str())),
            ErrorKind::EmptyTitle { title_line, .. } => Some(joined("YADR", title_line.as_str())),
            ErrorKind::InvalidDate { title, .. } => Some(joined("YADR: ", title.as_str())),
            ErrorKind::ChangeInMiddle { source, .. } => Some(source.clone()),
            ErrorKind::ChangesOutOfOrder { source, .. } => Some(source.clone()),
            ErrorKind::BadChangeDate { source, .. } => Some(source.clone()),
            ErrorKind::MissingEmptyLine { source, .. } => Some(source.clone()),
            ErrorKind::MalformedParagraph { source, .. } => Some(source.clone()),
            ErrorKind::MissingParagraphs { source, .. } => Some(joined(source.as_str(), "\n   ")),
            ErrorKind::Unmatched { source } => Some(source.clone()),
            _ => None,
        }
    }

    /// The byte span the error points at in its text, and what is said there; see
    /// [`kind_label`].
    pub fn label(&self) -> (res: Option<(Span, String)>)
        ensures
            match (res, kind_label(self@)) {
                (Some((s, t)), Some((s2, t2))) => s == s2 && t@ == t2,
                (None, None) => true,
                _ => false,
            },
    {
        match self {
            ErrorKind::MissingColon { title_line, .. } => {
                let v = chars_of(title_line.as_str());
                let end: usize = if v.len() == 0 {
                    4
                } else {
                    5
                };
                Some((Span { start: 0, end }, "expected YADR:".to_string()))
            },
            ErrorKind::EmptyTitle { title_line, .. } => {
                let n = byte_count(title_line);
                Some((Span { start: 0, end: plus(4, n) }, "expected a title after the :".to_string()))
            },
            ErrorKind::InvalidDate { date, .. } => {
                let n = byte_count(date);
                Some((Span { start: 6, end: plus(6, n) }, "expected a valid date".to_string()))
            },
            ErrorKind::ChangeInMiddle { span, .. } => Some(
                (*span, "this looks like an ADR change entry".to_string()),
            ),
            ErrorKind::ChangesOutOfOrder { span, .. } => Some(
                (*span, "this entry should come after the one below it".to_string()),
            ),
            ErrorKind::BadChangeDate { span, .. } => Some((*span, "expected YYYY-MM-DD".to_string())),
            ErrorKind::MissingEmptyLine { span, .. } => Some(
                (*span, "before this list of changes".to_string()),
            ),
            ErrorKind::MalformedParagraph { paragraph, span, .. } => Some(
                (*span, joined("expected ", shape_of(*paragraph))),
            ),
            ErrorKind::MissingParagraphs { complete, source } => {
                let n = byte_count(source);
                let next: usize = if *complete < 4 {
                    *complete + 1
                } else {
                    5
                };
                Some(
                    (
                        Span { start: plus(n, 1), end: plus(n, 4) },
                        joined("expected ", shape_of(next)),
                    ),
                )
            },
            _ => None,
        }
    }
}

impl YadrError {
    /// The contexts the error is found in, outermost first; see [`error_contexts`].
    pub fn contexts(&self) -> (res: Vec<String>)
        ensures
            res@.map_values(|s: String| s@) == error_contexts(self@),
    {
        let mut out: Vec<String> = Vec::new();
        let ghost e = self@;
        match self.comment_line {
            Some(l) => {
                out.push(with_number("in comment on line ", l));
            },
            None => {},
        }
        let ghost first = out@.map_values(|s: String| s@);
        match self.statement_line {
            Some(l) => {
                out.push(with_number("in Y-Statement starting on line ", l));
            },
            None => {},
        }
        let ghost second = out@.map_values(|s: String| s@);
        match self.kind.context() {
            Some(c) => {
                out.push(c);
            },
            None => {},
        }
        proof {
            let a = match e.comment_line {
                Some(l) => seq!["in comment on line "@ + decimal(l as nat)],
                None => seq![],
            };
            let b = match e.statement_line {
                Some(l) => seq!["in Y-Statement starting on line "@ + decimal(l as nat)],
                None => seq![],
            };
            let c = match kind_context(e.kind) {
                Some(c) => seq![c],
                None => seq![],
            };
            assert(first =~= a);
            assert(second =~= a + b);
            assert(out@.map_values(|s: String| s@) =~= a + b + c);
        }
        out
    }

    /// The error in one line; see [`error_line`].
    pub fn to_string(&self) -> (res: String)
        ensures
            res@ == error_line(self@),
    {
        let mut cs = self.contexts();
        if cs.len() > 0 {
            let ghost v = cs@.map_values(|s: String| s@);
            assert(v[0] == cs@[0]@);
            cs.swap_remove(0)
        } else {
            self.kind.message()
        }
    }
}

} // verus!
