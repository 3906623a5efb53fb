//! A parsed Y-Statement, and parsing a single statement from text.
use vstd::prelude::*;
use crate::text::{
    CharClass, run_end, run_start, lemma_run_end, lemma_run_start, trim, trim_start, copy_range,
    trim_chars, string_of, chars_of, squash, squash_chars, lemma_squash_no_newline, contains_char,
    push_str,
};
use crate::date::{CivilDate, date_text, push_date};
use crate::error::{ErrorKind, YadrError, SpecError, SpecErrorKind, bare};
use crate::grammar::{
    fits, spec_read, statement_template, make_statement_template, read, lemma_statement_template_shape,
};
use crate::block::{
    tail_and_changes, tail_and_changes_exec, diagnosis, diagnose, changes_view, in_date_order,
    lemma_tail_changes_in_date_order,
};
use crate::statement::{spec_statements_in_comment, statements_in_comment, sources_view};

verus! {

broadcast use vstd::string::group_string_axioms;

/// A parsed Y-Statement.
#[derive(Debug, Clone, PartialEq, Eq)]
pub struct YAdr {
    /// The date the statement was first written.
    pub date: CivilDate,
    /// The title, starting with the date.
    pub title: String,
    /// The use case or user story that the statement targets.
    pub in_context: String,
    /// The concern that required a decision.
    pub facing_concern: String,
    /// The option taken.
    pub chosen_option: String,
    /// The options considered but not taken.
    pub neglected_options: String,
    /// The qualities the chosen option achieves.
    pub to_achieve: String,
    /// The acknowledged downsides of the chosen option.
    pub accepted_downsides: String,
    /// Why this is the right trade-off.
    pub because: String,
    /// Any further text after the statement.
    pub tail: Option<String>,
    /// The logged changes to the statement, oldest first.
    pub changes: Vec<(CivilDate, String)>,
}

/// A parsed Y-Statement, as seen by the specification.
pub struct SpecYAdr {
    pub date: CivilDate,
    pub title: Seq<char>,
    pub in_context: Seq<char>,
    pub facing_concern: Seq<char>,
    pub chosen_option: Seq<char>,
    pub neglected_options: Seq<char>,
    pub to_achieve: Seq<char>,
    pub accepted_downsides: Seq<char>,
    pub because: Seq<char>,
    pub tail: Option<Seq<char>>,
    pub changes: Seq<(CivilDate, Seq<char>)>,
}

/// The specification's view of an optional string.
pub open spec fn opt_str_view(s: Option<String>) -> Option<Seq<char>> {
    match s {
        Some(s) => Some(s@),
        None => None,
    }
}

/// The specification's view of a list of change entries.
pub open spec fn entries_view(v: Seq<(CivilDate, String)>) -> Seq<(CivilDate, Seq<char>)> {
    v.map_values(|c: (CivilDate, String)| (c.0, c.1@))
}

impl View for YAdr {
    type V = SpecYAdr;

    open spec fn view(&self) -> SpecYAdr {
        SpecYAdr {
            date: self.date,
            title: self.title@,
            in_context: self.in_context@,
            facing_concern: self.facing_concern@,
            chosen_option: self.chosen_option@,
            neglected_options: self.neglected_options@,
            to_achieve: self.to_achieve@,
            accepted_downsides: self.accepted_downsides@,
            because: self.because@,
            tail: opt_str_view(self.tail),
            changes: entries_view(self.changes@),
        }
    }
}

/// The text of field `k` when `body` is read with the field spans `f`.
pub open spec fn field(body: Seq<char>, f: Seq<(int, int)>, k: int) -> Seq<char> {
    body.subrange(f[k].0, f[k].1)
}

/// Parses the body `body` of a statement dated `date` and titled `title`: the seven fields as
/// the statement's shape reads them (see `grammar`), then the tail and change entries. A body
/// without the shape of a statement is diagnosed (see [`diagnosis`]).
pub open spec fn spec_parse_block(date: CivilDate, title: Seq<char>, body: Seq<char>) -> Result<SpecYAdr, SpecError> {
    match spec_read(statement_template(), body) {
        None => Err(bare(diagnosis(body))),
        Some((f, tail_start)) => match tail_and_changes(body, tail_start) {
            Err(e) => Err(e),
            Ok((tail, changes)) => Ok(SpecYAdr {
                date,
                title,
                in_context: field(body, f, 0),
                facing_concern: field(body, f, 1),
                chosen_option: field(body, f, 2),
                neglected_options: field(body, f, 3),
                to_achieve: field(body, f, 4),
                accepted_downsides: field(body, f, 5),
                because: field(body, f, 6),
                tail,
                changes,
            }),
        },
    }
}

fn field_string(body: &[char], fields: &Vec<(usize, usize)>, k: usize) -> (res: String)
    requires
        k < fields@.len(),
        fields@[k as int].0 <= fields@[k as int].1 <= body@.len(),
    ensures
        res@ == body@.subrange(fields@[k as int].0 as int, fields@[k as int].1 as int),
{
    let (a, b) = fields[k];
    let v = copy_range(body, a, b);
    string_of(v.as_slice())
}

fn entries_of(v: Vec<(CivilDate, Vec<char>)>) -> (res: Vec<(CivilDate, String)>)
    ensures
        entries_view(res@) == changes_view(v@),
{
    let mut out: Vec<(CivilDate, String)> = Vec::new();
    let mut i: usize = 0;
    while i < v.len()
        invariant
            i <= v@.len(),
            entries_view(out@) == changes_view(v@).take(i as int),
        decreases v@.len() - i,
    {
        let ghost before = entries_view(out@);
        let ghost old_out = out@;
        assert(before.len() == i);
        let d = v[i].0;
        let s = string_of(v[i].1.as_slice());
        assert(s@ == v@[i as int].1@);
        out.push((d, s));
        assert(out@ == old_out.push((d, s)));
        assert(out@.len() == i + 1);
        assert(entries_view(out@)[i as int] == changes_view(v@)[i as int]);
        assert forall|j: int| 0 <= j < i implies #[trigger] entries_view(out@)[j] == before[j] by {}
        assert(entries_view(out@) =~= changes_view(v@).take(i + 1));
        i = i + 1;
    }
    assert(changes_view(v@).take(v@.len() as int) =~= changes_view(v@));
    out
}

/// Parses the body of a statement; see [`spec_parse_block`].
pub fn parse_block(date: CivilDate, title: &[char], body: &[char]) -> (res: Result<YAdr, YadrError>)
    requires
        fits(body@.len() as int),
    ensures
        match (res, spec_parse_block(date, title@, body@)) {
            (Ok(a), Ok(b)) => a@ == b,
            (Err(a), Err(b)) => a@ == b,
            _ => false,
        },
{
    let tpl = make_statement_template();
    proof {
        lemma_statement_template_shape();
    }
    let r = read(&tpl, body);
    let (fields, tail_start) = match r {
        None => {
            return Err(YadrError::new(diagnose(body)));
        },
        Some(x) => x,
    };
    let ghost fv = fields@.map_values(|f: (usize, usize)| (f.0 as int, f.1 as int));
    assert(fields@.len() == 7);
    let (tail, changes) = match tail_and_changes_exec(body, tail_start) {
        Err(e) => {
            return Err(e);
        },
        Ok(x) => x,
    };
    let tail_string = match tail {
        Some(t) => Some(string_of(t.as_slice())),
        None => None,
    };
    let y = YAdr {
        date,
        title: string_of(title),
        in_context: field_string(body, &fields, 0),
        facing_concern: field_string(body, &fields, 1),
        chosen_option: field_string(body, &fields, 2),
        neglected_options: field_string(body, &fields, 3),
        to_achieve: field_string(body, &fields, 4),
        accepted_downsides: field_string(body, &fields, 5),
        because: field_string(body, &fields, 6),
        tail: tail_string,
        changes: entries_of(changes),
    };
    Ok(y)
}

/// A single statement read from `t`, as `YAdr::parse` reads it: the first statement found, which
/// has to be the only one.
pub open spec fn spec_parse(t: Seq<char>) -> Result<SpecYAdr, SpecError> {
    let (srcs, err) = spec_statements_in_comment(t, 1);
    if srcs.len() >= 1 {
        match spec_parse_block(srcs[0].date, srcs[0].title, srcs[0].body) {
            Err(e) => Err(e),
            Ok(y) => if srcs.len() >= 2 {
                Err(bare(SpecErrorKind::MoreThanOne { line: srcs[1].line }))
            } else {
                match err {
                    Some(e) => Err(e),
                    None => Ok(y),
                }
            },
        }
    } else {
        match err {
            Some(e) => Err(e),
            None => Err(bare(SpecErrorKind::NoStatement)),
        }
    }
}

/// A statement body that parses has its change entries listed from oldest to newest.
pub proof fn lemma_parsed_in_date_order(date: CivilDate, title: Seq<char>, body: Seq<char>)
    requires
        spec_parse_block(date, title, body) is Ok,
    ensures
        in_date_order(spec_parse_block(date, title, body)->Ok_0.changes),
{
    let (f, tail_start) = spec_read(statement_template(), body)->Some_0;
    lemma_tail_changes_in_date_order(body, tail_start);
}

/// A statement that `YAdr::parse` reads has its change entries listed from oldest to newest, so
/// that its last entry tells when it was last changed.
pub proof fn lemma_parse_in_date_order(t: Seq<char>)
    requires
        spec_parse(t) is Ok,
    ensures
        in_date_order(spec_parse(t)->Ok_0.changes),
{
    let srcs = spec_statements_in_comment(t, 1).0;
    lemma_parsed_in_date_order(srcs[0].date, srcs[0].title, srcs[0].body);
}

impl YAdr {
    /// Parses a single Y-Statement, starting at its `YADR:` title line (comment markers
    /// already stripped). Text after the statement is kept as its tail, and trailing
    /// `YYYY-MM-DD: text` lines as its change entries. Fails if the text holds no statement,
    /// or a second one, or if the statement is malformed.
    pub fn parse(statement: &str) -> (res: Result<YAdr, YadrError>)
        requires
            fits(statement@.len() as int),
        ensures
            match (res, spec_parse(statement@)) {
                (Ok(a), Ok(b)) => a@ == b,
                (Err(a), Err(b)) => a@ == b,
                _ => false,
            },
    {
        let t = chars_of(statement);
        let (srcs, err) = statements_in_comment(t.as_slice(), 1);
        let ghost sv = sources_view(srcs@);
        if srcs.len() >= 1 {
            assert(sv[0] == srcs@[0]@);
            let y = parse_block(srcs[0].date, srcs[0].title.as_slice(), srcs[0].body.as_slice())?;
            if srcs.len() >= 2 {
                assert(sv[1] == srcs@[1]@);
                return Err(YadrError::new(ErrorKind::MoreThanOne { line: srcs[1].line }));
            }
            match err {
                Some(e) => Err(e),
                None => Ok(y),
            }
        } else {
            match err {
                Some(e) => Err(e),
                None => Err(YadrError::new(ErrorKind::NoStatement)),
            }
        }
    }

    /// The same statement; every field is already owned.
    pub fn into_owned(self) -> (res: YAdr)
        ensures
            res == self,
    {
        self
    }
}

impl std::str::FromStr for YAdr {
    type Err = YadrError;

    /// Parses a single Y-Statement, as [`YAdr::parse`] does; a text too long to be counted
    /// with room to spare in a `usize` holds no statement.
    fn from_str(statement: &str) -> (res: Result<YAdr, YadrError>)
        ensures
            fits(statement@.len() as int) ==> match (res, spec_parse(statement@)) {
                (Ok(a), Ok(b)) => a@ == b,
                (Err(a), Err(b)) => a@ == b,
                _ => false,
            },
            !fits(statement@.len() as int) ==> (res matches Err(e) && e@ == bare(
                SpecErrorKind::NoStatement,
            )),
    {
        if statement.unicode_len() < usize::MAX - 2 {
            YAdr::parse(statement)
        } else {
            Err(YadrError::new(ErrorKind::NoStatement))
        }
    }
}

/// A paragraph field after tidying: if its text, trimmed, holds a line break (which only
/// comment formatting puts there), its words joined by single spaces; otherwise unchanged.
pub open spec fn tidied(f: Seq<char>) -> Seq<char> {
    if trim(f).contains('\n') {
        squash(f)
    } else {
        f
    }
}

/// The statement with each of its seven paragraph fields tidied; the date, title, tail and
/// change entries are kept as they are.
pub open spec fn spec_tidy(y: SpecYAdr) -> SpecYAdr {
    SpecYAdr {
        date: y.date,
        title: y.title,
        in_context: tidied(y.in_context),
        facing_concern: tidied(y.facing_concern),
        chosen_option: tidied(y.chosen_option),
        neglected_options: tidied(y.neglected_options),
        to_achieve: tidied(y.to_achieve),
        accepted_downsides: tidied(y.accepted_downsides),
        because: tidied(y.because),
        tail: y.tail,
        changes: y.changes,
    }
}

/// The seven paragraph fields of a statement, in the order they are written.
pub open spec fn paragraph_fields(y: SpecYAdr) -> Seq<Seq<char>> {
    seq![
        y.in_context,
        y.facing_concern,
        y.chosen_option,
        y.neglected_options,
        y.to_achieve,
        y.accepted_downsides,
        y.because,
    ]
}

/// Trimming keeps a character out that was not there.
proof fn lemma_trim_without(x: Seq<char>, c: char)
    requires
        !x.contains(c),
    ensures
        !trim(x).contains(c),
{
    lemma_run_end(x, 0, CharClass::Whitespace);
    let a = run_end(x, 0, CharClass::Whitespace);
    let t = trim_start(x);
    lemma_run_start(t, t.len() as int, CharClass::Whitespace);
    let b = run_start(t, t.len() as int, CharClass::Whitespace);
    assert forall|k: int| 0 <= k < trim(x).len() implies trim(x)[k] != c by {
        assert(trim(x)[k] == t[k]);
        assert(t[k] == x[a + k]);
    }
}

/// A tidied field holds no line break in its trimmed text, and tidying it again changes
/// nothing.
proof fn lemma_tidied(f: Seq<char>)
    ensures
        !trim(tidied(f)).contains('\n'),
        tidied(tidied(f)) == tidied(f),
{
    if trim(f).contains('\n') {
        lemma_squash_no_newline(f, 0, false, false);
        lemma_trim_without(squash(f), '\n');
    }
}

/// Tidying a statement twice gives what tidying it once gives.
pub proof fn lemma_tidy_idempotent(y: SpecYAdr)
    ensures
        spec_tidy(spec_tidy(y)) == spec_tidy(y),
{
    lemma_tidied(y.in_context);
    lemma_tidied(y.facing_concern);
    lemma_tidied(y.chosen_option);
    lemma_tidied(y.neglected_options);
    lemma_tidied(y.to_achieve);
    lemma_tidied(y.accepted_downsides);
    lemma_tidied(y.because);
}

/// After tidying, each paragraph of a statement is a single line: no paragraph field holds a
/// line break, but for leading and trailing whitespace.
pub proof fn lemma_tidy_single_lines(y: SpecYAdr)
    ensures
        forall|k: int| 0 <= k < 7 ==> !trim(#[trigger] paragraph_fields(spec_tidy(y))[k]).contains('\n'),
{
    lemma_tidied(y.in_context);
    lemma_tidied(y.facing_concern);
    lemma_tidied(y.chosen_option);
    lemma_tidied(y.neglected_options);
    lemma_tidied(y.to_achieve);
    lemma_tidied(y.accepted_downsides);
    lemma_tidied(y.because);
}

/// Tidies one paragraph field; see [`tidied`].
fn tidy_field(f: &mut String)
    ensures
        final(f)@ == tidied(old(f)@),
{
    let cs = chars_of(f.as_str());
    let t = trim_chars(cs.as_slice());
    if contains_char(t.as_slice(), '\n') {
        let sq = squash_chars(cs.as_slice());
        *f = string_of(sq.as_slice());
    }
}

/// The text of a change entry's line as a statement is written out: a line break, the date,
/// a colon, a space and the entry's text.
pub open spec fn change_line(c: (CivilDate, Seq<char>)) -> Seq<char> {
    "\n"@ + date_text(c.0) + ": "@ + c.1
}

/// The lines of the change entries `cs[..n]`, one after the other.
pub open spec fn change_lines(cs: Seq<(CivilDate, Seq<char>)>, n: int) -> Seq<char>
    decreases n,
{
    if n <= 0 || n > cs.len() {
        seq![]
    } else {
        change_lines(cs, n - 1) + change_line(cs[n - 1])
    }
}

/// The four paragraphs of a statement written out, each sentence with its fields in place,
/// separated by empty lines.
pub open spec fn paragraphs_text(y: SpecYAdr) -> Seq<char> {
    "In the context of "@ + y.in_context + ", we faced "@ + y.facing_concern
        + ".\n\nWe decided for "@ + y.chosen_option + ", and neglected "@ + y.neglected_options
        + ".\n\nWe did this to achieve "@ + y.to_achieve + ", accepting "@ + y.accepted_downsides
        + ".\n\nWe think this is the right trade-off because "@ + y.because + "."@
}

/// A statement written out in the shape it is read in: the `YADR:` title line, an empty line,
/// the four paragraphs, the tail after an empty line, then, after a line break, one line per
/// change entry.
pub open spec fn render(y: SpecYAdr) -> Seq<char> {
    "YADR: "@ + y.title + "\n\n"@ + paragraphs_text(y) + (match y.tail {
        Some(t) => "\n\n"@ + t,
        None => seq![],
    }) + (if y.changes.len() > 0 {
        "\n"@ + change_lines(y.changes, y.changes.len() as int)
    } else {
        seq![]
    })
}

/// The date of the newest change entry, the last one written, if there is one.
pub open spec fn spec_last_changed(y: SpecYAdr) -> Option<CivilDate> {
    if y.changes.len() > 0 {
        Some(y.changes.last().0)
    } else {
        None
    }
}

/// A statement's line in a listing: an arrow, its title and, if it has change entries, the
/// date of the last one.
pub open spec fn listing(y: SpecYAdr) -> Seq<char> {
    " -> "@ + y.title + match spec_last_changed(y) {
        Some(d) => " (last changed: "@ + date_text(d) + ")"@,
        None => seq![],
    }
}

impl YAdr {
    /// Reflows the seven paragraph fields: a field whose trimmed text holds a line break (left
    /// there by comment formatting) becomes its words joined by single spaces.
    pub fn tidy(&mut self)
        ensures
            final(self)@ == spec_tidy(old(self)@),
    {
        tidy_field(&mut self.in_context);
        tidy_field(&mut self.facing_concern);
        tidy_field(&mut self.chosen_option);
        tidy_field(&mut self.neglected_options);
        tidy_field(&mut self.to_achieve);
        tidy_field(&mut self.accepted_downsides);
        tidy_field(&mut self.because);
    }

    /// The statement written out; see [`render`].
    pub fn to_string(&self) -> (res: String)
        ensures
            res@ == render(self@),
    {
        let ghost y = self@;
        let mut out: Vec<char> = Vec::new();
        push_str(&mut out, "YADR: ");
        push_str(&mut out, self.title.as_str());
        push_str(&mut out, "\n\n");
        let ghost head = out@;
        push_str(&mut out, "In the context of ");
        push_str(&mut out, self.in_context.as_str());
        push_str(&mut out, ", we faced ");
        push_str(&mut out, self.facing_concern.as_str());
        push_str(&mut out, ".\n\nWe decided for ");
        push_str(&mut out, self.chosen_option.as_str());
        push_str(&mut out, ", and neglected ");
        push_str(&mut out, self.neglected_options.as_str());
        push_str(&mut out, ".\n\nWe did this to achieve ");
        push_str(&mut out, self.to_achieve.as_str());
        push_str(&mut out, ", accepting ");
        push_str(&mut out, self.accepted_downsides.as_str());
        push_str(&mut out, ".\n\nWe think this is the right trade-off because ");
        push_str(&mut out, self.because.as_str());
        push_str(&mut out, ".");
        assert(out@ =~= head + paragraphs_text(y));
        match &self.tail {
            Some(t) => {
                push_str(&mut out, "\n\n");
                push_str(&mut out, t.as_str());
            },
            None => {},
        }
        let ghost with_tail = out@;
        if self.changes.len() > 0 {
            push_str(&mut out, "\n");
            let ghost start = out@;
            let mut i: usize = 0;
            while i < self.changes.len()
                invariant
                    i <= self.changes@.len(),
                    y == self@,
                    out@ == start + change_lines(y.changes, i as int),
                decreases self.changes@.len() - i,
            {
                let ghost before = out@;
                assert(y.changes[i as int] == (self.changes@[i as int].0, self.changes@[i as int].1@));
                push_str(&mut out, "\n");
                push_date(&mut out, self.changes[i].0);
                push_str(&mut out, ": ");
                push_str(&mut out, self.changes[i].1.as_str());
                assert(out@ =~= before + change_line(y.changes[i as int]));
                i = i + 1;
            }
            assert(out@ =~= with_tail + ("\n"@ + change_lines(y.changes, y.changes.len() as int)));
        } else {
            assert(out@ =~= with_tail + Seq::<char>::empty());
        }
        string_of(out.as_slice())
    }

    /// The date of the last change entry, if there is one.
    pub fn last_changed(&self) -> (res: Option<CivilDate>)
        ensures
            res == spec_last_changed(self@),
    {
        if self.changes.len() > 0 {
            Some(self.changes[self.changes.len() - 1].0)
        } else {
            None
        }
    }

    /// The statement's line in a listing; see [`listing`].
    pub fn listing_line(&self) -> (res: String)
        ensures
            res@ == listing(self@),
    {
        let mut out: Vec<char> = Vec::new();
        push_str(&mut out, " -> ");
        push_str(&mut out, self.title.as_str());
        match self.last_changed() {
            Some(d) => {
                push_str(&mut out, " (last changed: ");
                push_date(&mut out, d);
                push_str(&mut out, ")");
            },
            None => {},
        }
        string_of(out.as_slice())
    }

    /// Whether the title starts with `id`, such as a date.
    pub fn title_starts_with(&self, id: &str) -> (res: bool)
        ensures
            res == id@.is_prefix_of(self.title@),
    {
        let t = chars_of(self.title.as_str());
        let p = chars_of(id);
        if p.len() > t.len() {
            return false;
        }
        let mut i: usize = 0;
        while i < p.len()
            invariant
                t@ == self.title@,
                p@ == id@,
                p@.len() <= t@.len(),
                i <= p@.len(),
                forall|k: int| 0 <= k < i ==> p@[k] == t@[k],
            decreases p@.len() - i,
        {
            if p[i] != t[i] {
                assert(t@.subrange(0, p@.len() as int)[i as int] == t@[i as int]);
                return false;
            }
            i = i + 1;
        }
        assert(p@ =~= t@.subrange(0, p@.len() as int));
        true
    }
}

} // verus!
