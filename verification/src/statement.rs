//! Finding the statements in a comment, and parsing one statement.
use vstd::prelude::*;
use crate::text::{
    CharClass, run_end, run_start, has_at, skip_class, lemma_run_end_unique,
    skip_class_back, matches_at, count_char, count_newlines, sat_add, trim, trim_start,
    copy_range, trim_chars, trim_start_chars, string_of, word_char, is_word_char,
};
use crate::date::{CivilDate, jiff_date, parse_date};
use crate::error::{ErrorKind, YadrError, SpecError, SpecErrorKind, bare};
use crate::grammar::fits;

verus! {

/// A statement found in a comment, before its body is parsed.
pub struct StatementSource {
    /// The line of the `YADR:` line.
    pub line: usize,
    /// The date that starts the title.
    pub date: CivilDate,
    /// The title, from the date on.
    pub title: Vec<char>,
    /// The text after the title line, up to where the statement is cut off.
    pub body: Vec<char>,
}

/// A statement found in a comment, as seen by the specification.
pub struct SpecSource {
    /// The line of the `YADR:` line.
    pub line: usize,
    /// The date that starts the title.
    pub date: CivilDate,
    /// The title, from the date on.
    pub title: Seq<char>,
    /// The text after the title line, up to where the statement is cut off.
    pub body: Seq<char>,
}

impl View for StatementSource {
    type V = SpecSource;

    open spec fn view(&self) -> SpecSource {
        SpecSource { line: self.line, date: self.date, title: self.title@, body: self.body@ }
    }
}

/// The characters `YADR`.
pub open spec fn yadr_word() -> Seq<char> {
    seq!['Y', 'A', 'D', 'R']
}

/// Whether a line starts at `p`.
pub open spec fn line_start(t: Seq<char>, p: int) -> bool {
    p == 0 || (0 < p <= t.len() && t[p - 1] == '\n')
}

/// Whether a statement starts at `p`: at the start of a line, after spaces and tabs, the word
/// `YADR`, not followed by another word character.
pub open spec fn yadr_at(t: Seq<char>, p: int) -> bool {
    let e = run_end(t, p, CharClass::Blank);
    &&& 0 <= p <= t.len()
    &&& line_start(t, p)
    &&& has_at(t, e, yadr_word())
    &&& (e + 4 == t.len() || !word_char(t[e + 4]))
}

/// Where the `YADR` word of a statement starting at `p` ends.
pub open spec fn yadr_end(t: Seq<char>, p: int) -> int {
    run_end(t, p, CharClass::Blank) + 4
}

/// The first position at or after `q` where a statement starts, or `len + 1`.
pub open spec fn next_yadr(t: Seq<char>, q: int) -> int
    decreases t.len() + 1 - q,
{
    if q > t.len() {
        t.len() + 1int
    } else if yadr_at(t, q) {
        q
    } else {
        next_yadr(t, q + 1)
    }
}

/// Whether a cut-off marker starts at `p`: at the start of a line, after spaces and tabs,
/// either three or more dashes, or a line feed that ends a second line holding nothing but
/// spaces and tabs.
pub open spec fn cut_at(t: Seq<char>, p: int) -> bool {
    let q = run_end(t, p, CharClass::Blank);
    &&& 0 <= p <= t.len()
    &&& line_start(t, p)
    &&& (has_at(t, q, seq!['-', '-', '-']) || (q < t.len() && t[q] == '\n' && {
        let r = run_end(t, q + 1, CharClass::Blank);
        r == t.len() || t[r] == '\n'
    }))
}

/// The first position at or after `q` where a cut-off marker starts, or the length.
pub open spec fn next_cut(t: Seq<char>, q: int) -> int
    decreases t.len() + 1 - q,
{
    if q >= t.len() {
        t.len() as int
    } else if cut_at(t, q) {
        q
    } else {
        next_cut(t, q + 1)
    }
}

/// The body of a statement: its text up to the first cut-off marker.
pub open spec fn cut_body(post: Seq<char>) -> Seq<char> {
    post.subrange(0, next_cut(post, 0))
}

/// Whether `s` holds nothing but Unicode whitespace.
pub open spec fn all_ws(s: Seq<char>) -> bool {
    run_end(s, 0, CharClass::Whitespace) == s.len()
}

/// Whether the text before the first statement ends with an empty line, or is empty: only then
/// is a `YADR` line without a colon reported as a mistake rather than taken for prose.
pub open spec fn pre_blank(pre: Seq<char>) -> bool {
    if pre.len() == 0 {
        true
    } else if pre.last() != '\n' {
        false
    } else {
        let l = pre.drop_last();
        all_ws(l.subrange(run_start(l, l.len() as int, CharClass::NotNewline), l.len() as int))
    }
}

/// What a part of a comment after a `YADR` word turns out to be.
pub enum PartOutcome {
    /// Not a statement.
    Skip,
    /// A statement.
    Found(SpecSource),
    /// A mistake.
    Fail(SpecError),
}

/// What the part `part` after a `YADR` word on line `line` turns out to be.
pub open spec fn part_outcome(part: Seq<char>, line: usize, pre_blank: bool) -> PartOutcome {
    let nl = run_end(part, 0, CharClass::NotNewline);
    let title_line = part.subrange(0, nl);
    let post = if nl < part.len() {
        part.subrange(nl + 1, part.len() as int)
    } else {
        seq![]
    };
    let title = trim(title_line);
    if !(title.len() > 0 && title[0] == ':') {
        if pre_blank {
            PartOutcome::Fail(bare(SpecErrorKind::MissingColon { line, title_line }))
        } else {
            PartOutcome::Skip
        }
    } else {
        let t2 = trim_start(title.drop_first());
        if t2.len() == 0 {
            PartOutcome::Fail(bare(SpecErrorKind::EmptyTitle { line, title_line }))
        } else {
            let ds = t2.subrange(0, run_end(t2, 0, CharClass::NotWhitespace));
            match jiff_date(ds) {
                Err((m, _)) => PartOutcome::Fail(
                    bare(SpecErrorKind::InvalidDate { line, date: ds, title: t2, reason: m }),
                ),
                Ok(d) => PartOutcome::Found(
                    SpecSource { line, date: d, title: t2, body: cut_body(post) },
                ),
            }
        }
    }
}

/// The statements of `t` from the one starting at `q` on, each with the line it starts on
/// (`line` for the one at `q`), and the first mistake found, after which nothing more is read.
pub open spec fn statements_from(t: Seq<char>, q: int, line: usize, pre_blank: bool) -> (
    Seq<SpecSource>,
    Option<SpecError>,
)
    decreases t.len() + 1 - q,
{
    let e = yadr_end(t, q);
    let p2 = next_yadr(t, e);
    let end = if p2 <= t.len() {
        p2
    } else {
        t.len() as int
    };
    let part = t.subrange(e, end);
    let next_line = sat_add(line as int, count_char(part, '\n') as int) as usize;
    let rest = if q < p2 <= t.len() {
        statements_from(t, p2, next_line, pre_blank)
    } else {
        (seq![], None)
    };
    match part_outcome(part, line, pre_blank) {
        PartOutcome::Fail(err) => (seq![], Some(err)),
        PartOutcome::Skip => rest,
        PartOutcome::Found(s) => (seq![s] + rest.0, rest.1),
    }
}

/// The statements in the comment `t`, whose first line is `first_line`, and the first mistake,
/// after which nothing more is read.
pub open spec fn spec_statements_in_comment(t: Seq<char>, first_line: usize) -> (
    Seq<SpecSource>,
    Option<SpecError>,
) {
    let p0 = next_yadr(t, 0);
    if p0 > t.len() {
        (seq![], None)
    } else {
        let pre = t.subrange(0, p0);
        statements_from(
            t,
            p0,
            sat_add(first_line as int, count_char(pre, '\n') as int) as usize,
            pre_blank(pre),
        )
    }
}

/// `next_yadr` finds the first statement start at or after `q`.
pub proof fn lemma_next_yadr(t: Seq<char>, q: int)
    requires
        0 <= q <= t.len() + 1,
    ensures
        q <= next_yadr(t, q) <= t.len() + 1,
        next_yadr(t, q) <= t.len() ==> yadr_at(t, next_yadr(t, q)),
    decreases t.len() + 1 - q,
{
    if q <= t.len() && !yadr_at(t, q) {
        lemma_next_yadr(t, q + 1);
    }
}

/// `next_cut` finds the first cut-off marker at or after `q`.
pub proof fn lemma_next_cut(t: Seq<char>, q: int)
    requires
        0 <= q,
    ensures
        next_cut(t, q) <= t.len(),
        q <= t.len() ==> q <= next_cut(t, q),
    decreases t.len() + 1 - q,
{
    if q < t.len() && !cut_at(t, q) {
        lemma_next_cut(t, q + 1);
    }
}

/// A cut-off marker at `p` is found by a search that starts at or before it, if no earlier one
/// is found first.
proof fn lemma_next_cut_at_most(t: Seq<char>, q: int, p: int)
    requires
        0 <= q <= p < t.len(),
        cut_at(t, p),
    ensures
        next_cut(t, q) <= p,
    decreases p - q,
{
    if q < p && !cut_at(t, q) {
        lemma_next_cut_at_most(t, q + 1, p);
    }
}

/// A line of dashes ends the body: where a line of `post` (at its start, or after a line feed)
/// holds, after spaces and tabs, three or more dashes, the body of the statement is a part of
/// `post` that stops at or before the start of that line, so nothing from that line on reaches
/// any field, tail or change entry.
pub proof fn lemma_dash_line_cuts(post: Seq<char>, p: int, q: int)
    requires
        0 <= p < post.len(),
        p == 0 || post[p - 1] == '\n',
        p <= q,
        forall|k: int| p <= k < q ==> #[trigger] post[k] == ' ' || post[k] == '\t',
        q + 3 <= post.len(),
        post[q] == '-',
        post[q + 1] == '-',
        post[q + 2] == '-',
    ensures
        cut_body(post).len() <= p,
        cut_body(post) == post.subrange(0, cut_body(post).len() as int),
{
    assert forall|k: int| p <= k < q implies CharClass::Blank.has(#[trigger] post[k]) by {}
    lemma_run_end_unique(post, p, q, CharClass::Blank);
    assert(post.subrange(q, q + 3) =~= seq!['-', '-', '-']);
    assert(cut_at(post, p));
    lemma_next_cut_at_most(post, 0, p);
    lemma_next_cut(post, 0);
}

fn yadr_at_exec(t: &[char], p: usize) -> (res: bool)
    requires
        p <= t@.len(),
    ensures
        res == yadr_at(t@, p as int),
{
    if !(p == 0 || t[p - 1] == '\n') {
        return false;
    }
    let e = skip_class(t, p, CharClass::Blank);
    let word: Vec<char> = vec!['Y', 'A', 'D', 'R'];
    assert(word@ =~= yadr_word());
    if !matches_at(t, e, word.as_slice()) {
        return false;
    }
    let n = t.len();
    assert(e + 4 <= n);
    e + 4 == n || !is_word_char(t[e + 4])
}

fn next_yadr_exec(t: &[char], q: usize) -> (res: usize)
    requires
        q <= t@.len() + 1,
        fits(t@.len() as int),
    ensures
        res == next_yadr(t@, q as int),
{
    let mut p = q;
    while p <= t.len()
        invariant
            q <= p <= t@.len() + 1,
            fits(t@.len() as int),
            next_yadr(t@, q as int) == next_yadr(t@, p as int),
        decreases t@.len() + 1 - p,
    {
        if yadr_at_exec(t, p) {
            return p;
        }
        p = p + 1;
    }
    p
}

fn cut_at_exec(t: &[char], p: usize) -> (res: bool)
    requires
        p <= t@.len(),
    ensures
        res == cut_at(t@, p as int),
{
    if !(p == 0 || t[p - 1] == '\n') {
        return false;
    }
    let q = skip_class(t, p, CharClass::Blank);
    let dashes: Vec<char> = vec!['-', '-', '-'];
    assert(dashes@ =~= seq!['-', '-', '-']);
    if matches_at(t, q, dashes.as_slice()) {
        return true;
    }
    if q < t.len() && t[q] == '\n' {
        let r = skip_class(t, q + 1, CharClass::Blank);
        r == t.len() || t[r] == '\n'
    } else {
        false
    }
}

/// The body of a statement: `post` up to its first cut-off marker.
pub fn cut_body_exec(post: &[char]) -> (res: Vec<char>)
    ensures
        res@ == cut_body(post@),
        res@.len() <= post@.len(),
{
    let mut p: usize = 0;
    while p < post.len()
        invariant
            p <= post@.len(),
            next_cut(post@, 0) == next_cut(post@, p as int),
        decreases post@.len() - p,
    {
        if cut_at_exec(post, p) {
            return copy_range(post, 0, p);
        }
        p = p + 1;
    }
    proof {
        lemma_next_cut(post@, p as int);
    }
    copy_range(post, 0, p)
}

fn all_ws_exec(s: &[char]) -> (res: bool)
    ensures
        res == all_ws(s@),
{
    skip_class(s, 0, CharClass::Whitespace) == s.len()
}

fn pre_blank_exec(t: &[char], p0: usize) -> (res: bool)
    requires
        p0 <= t@.len(),
    ensures
        res == pre_blank(t@.subrange(0, p0 as int)),
{
    let ghost pre = t@.subrange(0, p0 as int);
    if p0 == 0 {
        return true;
    }
    if t[p0 - 1] != '\n' {
        return false;
    }
    let l = copy_range(t, 0, p0 - 1);
    assert(l@ =~= pre.drop_last());
    let s = skip_class_back(l.as_slice(), l.len(), CharClass::NotNewline);
    let seg = copy_range(l.as_slice(), s, l.len());
    all_ws_exec(seg.as_slice())
}

/// What a part of a comment after a `YADR` word turns out to be.
pub enum Outcome {
    /// Not a statement.
    Skip,
    /// A statement.
    Found(StatementSource),
    /// A mistake.
    Fail(YadrError),
}

/// The specification's view of an outcome.
pub open spec fn outcome_view(o: Outcome) -> PartOutcome {
    match o {
        Outcome::Skip => PartOutcome::Skip,
        Outcome::Found(s) => PartOutcome::Found(s@),
        Outcome::Fail(e) => PartOutcome::Fail(e@),
    }
}

fn part_outcome_exec(part: &[char], line: usize, pre_blank: bool) -> (res: Outcome)
    ensures
        outcome_view(res) == part_outcome(part@, line, pre_blank),
        res matches Outcome::Found(s) ==> s.body@.len() <= part@.len(),
{
    let nl = skip_class(part, 0, CharClass::NotNewline);
    let title_line = copy_range(part, 0, nl);
    let post = if nl < part.len() {
        copy_range(part, nl + 1, part.len())
    } else {
        Vec::new()
    };
    assert(nl >= part@.len() ==> post@ =~= Seq::<char>::empty());
    let title = trim_chars(title_line.as_slice());
    if !(title.len() > 0 && title[0] == ':') {
        if pre_blank {
            return Outcome::Fail(
                YadrError::new(
                    ErrorKind::MissingColon { line, title_line: string_of(title_line.as_slice()) },
                ),
            );
        } else {
            return Outcome::Skip;
        }
    }
    let after_colon = copy_range(title.as_slice(), 1, title.len());
    assert(after_colon@ =~= title@.drop_first());
    let t2 = trim_start_chars(after_colon.as_slice());
    if t2.len() == 0 {
        return Outcome::Fail(
            YadrError::new(
                ErrorKind::EmptyTitle { line, title_line: string_of(title_line.as_slice()) },
            ),
        );
    }
    let w = skip_class(t2.as_slice(), 0, CharClass::NotWhitespace);
    let ds = copy_range(t2.as_slice(), 0, w);
    let ds_string = string_of(ds.as_slice());
    match parse_date(ds_string.as_str()) {
        Err(e) => Outcome::Fail(
            YadrError::new(
                ErrorKind::InvalidDate {
                    line,
                    date: ds_string,
                    title: string_of(t2.as_slice()),
                    reason: e.message,
                },
            ),
        ),
        Ok(d) => Outcome::Found(
            StatementSource { line, date: d, title: t2, body: cut_body_exec(post.as_slice()) },
        ),
    }
}

/// The specification's view of a list of statement sources.
pub open spec fn sources_view(v: Seq<StatementSource>) -> Seq<SpecSource> {
    v.map_values(|s: StatementSource| s@)
}

/// The specification's view of an optional error.
pub open spec fn opt_err_view(e: Option<YadrError>) -> Option<SpecError> {
    match e {
        Some(e) => Some(e@),
        None => None,
    }
}

/// Finds the statements in the comment `t`, whose first line is `first_line`: every line that
/// starts (after spaces and tabs) with the word `YADR` and holds a colon, a date and a title,
/// with the text that follows it up to the next such line or a cut-off marker. Stops at the
/// first mistake, and returns it with the statements found before it.
pub fn statements_in_comment(t: &[char], first_line: usize) -> (res: (Vec<StatementSource>, Option<YadrError>))
    requires
        fits(t@.len() as int),
    ensures
        (sources_view(res.0@), opt_err_view(res.1)) == spec_statements_in_comment(t@, first_line),
        forall|k: int| 0 <= k < res.0@.len() ==> (#[trigger] res.0@[k]).body@.len() <= t@.len(),
{
    let ghost whole = spec_statements_in_comment(t@, first_line);
    let mut found: Vec<StatementSource> = Vec::new();
    let p0 = next_yadr_exec(t, 0);
    proof {
        lemma_next_yadr(t@, 0);
    }
    if p0 > t.len() {
        assert(sources_view(found@) =~= Seq::<SpecSource>::empty());
        return (found, None);
    }
    let mut line = count_newlines(t, 0, p0, first_line);
    let pb = pre_blank_exec(t, p0);
    let mut q = p0;
    assert(sources_view(found@) + statements_from(t@, q as int, line, pb).0 =~= whole.0);
    loop
        invariant
            fits(t@.len() as int),
            q <= t@.len(),
            yadr_at(t@, q as int),
            whole == spec_statements_in_comment(t@, first_line),
            forall|k: int| 0 <= k < found@.len() ==> (#[trigger] found@[k]).body@.len() <= t@.len(),
            whole.0 == sources_view(found@) + statements_from(t@, q as int, line, pb).0,
            whole.1 == statements_from(t@, q as int, line, pb).1,
        decreases t@.len() - q,
    {
        let ghost before = sources_view(found@);
        let b = skip_class(t, q, CharClass::Blank);
        let n = t.len();
        assert(b + 4 <= n);
        let e = b + 4;
        let p2 = next_yadr_exec(t, e);
        proof {
            lemma_next_yadr(t@, e as int);
        }
        let end = if p2 <= t.len() {
            p2
        } else {
            t.len()
        };
        let part = copy_range(t, e, end);
        let next_line = count_newlines(t, e, end, line);
        let ghost rest = if (q as int) < p2 && p2 <= t@.len() {
            statements_from(t@, p2 as int, next_line, pb)
        } else {
            (seq![], None)
        };
        match part_outcome_exec(part.as_slice(), line, pb) {
            Outcome::Fail(err) => {
                assert(whole.0 =~= sources_view(found@));
                return (found, Some(err));
            },
            Outcome::Skip => {},
            Outcome::Found(src) => {
                found.push(src);
                assert(sources_view(found@) =~= before.push(src@));
                assert(before + (seq![src@] + rest.0) =~= before.push(src@) + rest.0);
            },
        }
        if p2 > t.len() {
            assert(sources_view(found@) =~= sources_view(found@) + Seq::<SpecSource>::empty());
            return (found, None);
        }
        q = p2;
        line = next_line;
    }
}

} // verus!
