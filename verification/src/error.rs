//! What can go wrong while finding and parsing Y-Statements.
use vstd::prelude::*;

verus! {

/// A byte range in the source text of a diagnostic.
#[derive(Debug, Clone, Copy, PartialEq, Eq, Structural)]
pub struct Span {
    /// The first byte.
    pub start: usize,
    /// One past the last byte.
    pub end: usize,
}

/// The ways in which finding or parsing a Y-Statement fails.
#[derive(Debug, Clone, PartialEq, Eq)]
pub enum ErrorKind {
    /// A line starts with `YADR` that is not followed by `:`.
    MissingColon { line: usize, title_line: String },
    /// `YADR:` is followed by nothing but whitespace.
    EmptyTitle { line: usize, title_line: String },
    /// The first word of the title is not a date.
    InvalidDate { line: usize, date: String, title: String, reason: String },
    /// A change entry stands above a line that is not one.
    ChangeInMiddle { span: Span, source: String },
    /// A change entry is dated after the last change entry.
    ChangesOutOfOrder { span: Span, source: String },
    /// A line that looks like a change entry does not start with a date.
    BadChangeDate { span: Span, reason: String, source: String },
    /// The change entries are not preceded by an empty line.
    MissingEmptyLine { span: Span, source: String },
    /// Paragraph `paragraph` (from 1) does not have the expected wording.
    MalformedParagraph { paragraph: usize, span: Span, ends_with_full_stop: bool, source: String },
    /// Only the first `complete` paragraphs were found.
    MissingParagraphs { complete: usize, source: String },
    /// The statement does not have the expected shape, and no paragraph can be blamed.
    Unmatched { source: String },
    /// The input of a single-statement parse holds a second statement on this line.
    MoreThanOne { line: usize },
    /// The input of a single-statement parse holds no statement.
    NoStatement,
    /// The grammar of the language could not be loaded.
    GrammarUnavailable { reason: String },
    /// Parsing the source file was cancelled.
    ParseCancelled,
    /// The comment query could not be compiled.
    QueryInvalid { reason: String },
    /// A comment starts with neither of the expected comment markers.
    UnexpectedPrefix { text: String },
}

/// What went wrong, as seen by the specification: texts are character sequences.
pub enum SpecErrorKind {
    MissingColon { line: usize, title_line: Seq<char> },
    EmptyTitle { line: usize, title_line: Seq<char> },
    InvalidDate { line: usize, date: Seq<char>, title: Seq<char>, reason: Seq<char> },
    ChangeInMiddle { span: Span, source: Seq<char> },
    ChangesOutOfOrder { span: Span, source: Seq<char> },
    BadChangeDate { span: Span, reason: Seq<char>, source: Seq<char> },
    MissingEmptyLine { span: Span, source: Seq<char> },
    MalformedParagraph { paragraph: usize, span: Span, ends_with_full_stop: bool, source: Seq<char> },
    MissingParagraphs { complete: usize, source: Seq<char> },
    Unmatched { source: Seq<char> },
    MoreThanOne { line: usize },
    NoStatement,
    GrammarUnavailable { reason: Seq<char> },
    ParseCancelled,
    QueryInvalid { reason: Seq<char> },
    UnexpectedPrefix { text: Seq<char> },
}

impl View for ErrorKind {
    type V = SpecErrorKind;

    open spec fn view(&self) -> SpecErrorKind {
        match self {
            ErrorKind::MissingColon { line, title_line } => SpecErrorKind::MissingColon {
                line: *line,
                title_line: title_line@,
            },
            ErrorKind::EmptyTitle { line, title_line } => SpecErrorKind::EmptyTitle {
                line: *line,
                title_line: title_line@,
            },
            ErrorKind::InvalidDate { line, date, title, reason } => SpecErrorKind::InvalidDate {
                line: *line,
                date: date@,
                title: title@,
                reason: reason@,
            },
            ErrorKind::ChangeInMiddle { span, source } => SpecErrorKind::ChangeInMiddle {
                span: *span,
                source: source@,
            },
            ErrorKind::ChangesOutOfOrder { span, source } => SpecErrorKind::ChangesOutOfOrder {
                span: *span,
                source: source@,
            },
            ErrorKind::BadChangeDate { span, reason, source } => SpecErrorKind::BadChangeDate {
                span: *span,
                reason: reason@,
                source: source@,
            },
            ErrorKind::MissingEmptyLine { span, source } => SpecErrorKind::MissingEmptyLine {
                span: *span,
                source: source@,
            },
            ErrorKind::MalformedParagraph { paragraph, span, ends_with_full_stop, source } =>
                SpecErrorKind::MalformedParagraph {
                paragraph: *paragraph,
                span: *span,
                ends_with_full_stop: *ends_with_full_stop,
                source: source@,
            },
            ErrorKind::MissingParagraphs { complete, source } => SpecErrorKind::MissingParagraphs {
                complete: *complete,
                source: source@,
            },
            ErrorKind::Unmatched { source } => SpecErrorKind::Unmatched { source: source@ },
            ErrorKind::MoreThanOne { line } => SpecErrorKind::MoreThanOne { line: *line },
            ErrorKind::NoStatement => SpecErrorKind::NoStatement,
            ErrorKind::GrammarUnavailable { reason } => SpecErrorKind::GrammarUnavailable {
                reason: reason@,
            },
            ErrorKind::ParseCancelled => SpecErrorKind::ParseCancelled,
            ErrorKind::QueryInvalid { reason } => SpecErrorKind::QueryInvalid { reason: reason@ },
            ErrorKind::UnexpectedPrefix { text } => SpecErrorKind::UnexpectedPrefix {
                text: text@,
            },
        }
    }
}

/// An error as seen by the specification.
pub struct SpecError {
    /// What went wrong.
    pub kind: SpecErrorKind,
    /// The line of the statement that failed to parse, if any.
    pub statement_line: Option<usize>,
    /// The first line of the comment that holds the failure, if any.
    pub comment_line: Option<usize>,
}

/// An error of the given kind, not yet placed in a statement or comment.
pub open spec fn bare(kind: SpecErrorKind) -> SpecError {
    SpecError { kind, statement_line: None, comment_line: None }
}

/// An error, with the lines of the statement and of the comment it was found in, where known.
#[derive(Debug, Clone, PartialEq, Eq)]
pub struct YadrError {
    /// What went wrong.
    pub kind: ErrorKind,
    /// The line of the `YADR:` line of the statement that failed to parse, if any.
    pub statement_line: Option<usize>,
    /// The first line of the comment that holds the failure, if any.
    pub comment_line: Option<usize>,
}

impl View for YadrError {
    type V = SpecError;

    open spec fn view(&self) -> SpecError {
        SpecError {
            kind: self.kind@,
            statement_line: self.statement_line,
            comment_line: self.comment_line,
        }
    }
}

impl YadrError {
    /// An error of the given kind, not yet placed in a statement or comment.
    pub fn new(kind: ErrorKind) -> (res: YadrError)
        ensures
            res.kind == kind,
            res@ == bare(kind@),
    {
        YadrError { kind, statement_line: None, comment_line: None }
    }
}

} // verus!
