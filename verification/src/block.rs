//! Parsing the body of one statement: its seven fields, its tail and its change entries.
use vstd::prelude::*;
use crate::text::{
    CharClass, run_end, lemma_run_end, skip_class, sat_add, sat_sub, utf8_len, utf8_len_of,
    trim, trim_start, copy_range, trim_chars, trim_start_chars, string_of, char_at_byte,
    char_index_at_byte,
};
use crate::date::{CivilDate, jiff_date, parse_date, date_before};
use crate::error::{ErrorKind, YadrError, SpecError, SpecErrorKind, Span, bare};
use crate::grammar::{fits, para_break_end, para_break_exec, spec_read, paragraph_template, make_paragraph_template, read, opt_int};
use crate::statement::all_ws;

verus! {

/// The lines of `s` from `from` on, as `str::lines` gives them: split at line feeds, without
/// the line feed and a carriage return before it, and without an empty last line after a final
/// line feed. Each line is given as its span in `s`.
pub open spec fn line_spans(s: Seq<char>, from: int) -> Seq<(int, int)>
    decreases s.len() - from,
{
    if from < 0 || from >= s.len() {
        seq![]
    } else {
        let nl = run_end(s, from, CharClass::NotNewline);
        if nl >= s.len() {
            seq![(from, nl)]
        } else {
            let end = if nl > from && s[nl - 1] == '\r' {
                nl - 1
            } else {
                nl
            };
            proof {
                lemma_run_end(s, from, CharClass::NotNewline);
            }
            seq![(from, end)] + line_spans(s, nl + 1)
        }
    }
}

/// The span of every line of `s`.
pub fn lines_of(s: &[char]) -> (res: Vec<(usize, usize)>)
    ensures
        res@.map_values(|p: (usize, usize)| (p.0 as int, p.1 as int)) == line_spans(s@, 0),
        forall|k: int| 0 <= k < res@.len() ==> #[trigger] res@[k].0 <= res@[k].1 <= s@.len(),
{
    let mut spans: Vec<(usize, usize)> = Vec::new();
    let mut from: usize = 0;
    let ghost whole = line_spans(s@, 0);
    assert(spans@.map_values(|p: (usize, usize)| (p.0 as int, p.1 as int)) + line_spans(s@, 0) =~= whole);
    while from < s.len()
        invariant
            from <= s@.len(),
            whole == line_spans(s@, 0),
            whole == spans@.map_values(|p: (usize, usize)| (p.0 as int, p.1 as int)) + line_spans(s@, from as int),
            forall|k: int| 0 <= k < spans@.len() ==> #[trigger] spans@[k].0 <= spans@[k].1 <= s@.len(),
        decreases s@.len() - from,
    {
        let ghost before = spans@.map_values(|p: (usize, usize)| (p.0 as int, p.1 as int));
        let nl = skip_class(s, from, CharClass::NotNewline);
        if nl >= s.len() {
            spans.push((from, nl));
            assert(spans@.map_values(|p: (usize, usize)| (p.0 as int, p.1 as int)) =~= before.push((from as int, nl as int)));
            assert(whole =~= spans@.map_values(|p: (usize, usize)| (p.0 as int, p.1 as int)));
            return spans;
        }
        let end = if nl > from && s[nl - 1] == '\r' {
            nl - 1
        } else {
            nl
        };
        spans.push((from, end));
        assert(spans@.map_values(|p: (usize, usize)| (p.0 as int, p.1 as int)) =~= before.push((from as int, end as int)));
        assert(before + (seq![(from as int, end as int)] + line_spans(s@, nl + 1)) =~= before.push((from as int, end as int)) + line_spans(s@, nl + 1));
        from = nl + 1;
    }
    assert(line_spans(s@, from as int) =~= Seq::<(int, int)>::empty());
    assert(whole =~= spans@.map_values(|p: (usize, usize)| (p.0 as int, p.1 as int)));
    spans
}

/// The number of bytes `s` takes in UTF-8, or `usize::MAX` if that is more.
pub open spec fn byte_len(s: Seq<char>) -> int {
    sat_add(0, utf8_len(s) as int)
}

/// Where the reading of change entries stands, from the bottom of the tail upwards.
pub struct ChangeScan {
    /// Whether a line has been seen that ends the list of change entries.
    pub saw_end: bool,
    /// Whether no non-empty line has been seen yet.
    pub bottom: bool,
    /// The byte offset, in the tail, where the change entries start.
    pub start_of_changes: int,
    /// The byte offset, in the source, one past the end of the line about to be read.
    pub line_end: int,
    /// The change entries found, from the bottom up: each date with the text after the colon.
    pub changes: Seq<(CivilDate, Seq<char>)>,
}

/// Reads one more line of the tail, from the bottom up: the line `line`, where `source` (of
/// `source_bytes` bytes) is the text the diagnostics point into.
pub open spec fn change_step(st: ChangeScan, line: Seq<char>, source: Seq<char>, source_bytes: int) -> Result<ChangeScan, SpecError> {
    let len = byte_len(line);
    let line_start = sat_sub(st.line_end, len);
    let st1 = ChangeScan { line_end: sat_sub(st.line_end, len + 1), ..st };
    if all_ws(line) {
        if st.changes.len() > 0 && !st.saw_end {
            Ok(ChangeScan { start_of_changes: sat_sub(st.start_of_changes, len + 1), saw_end: true, ..st1 })
        } else {
            Ok(st1)
        }
    } else {
        let off = run_end(line, 0, CharClass::Whitespace);
        let ts = line.subrange(off, line.len() as int);
        let c = run_end(ts, 0, CharClass::NotColon);
        let line_span = Span { start: line_start as usize, end: sat_add(line_start, len) as usize };
        let st2 = ChangeScan { bottom: false, ..st1 };
        if c < ts.len() {
            let maybe_date = ts.subrange(0, c);
            let change = ts.subrange(c + 1, ts.len() as int);
            let date_start = sat_add(line_start, byte_len(line.subrange(0, off)));
            match jiff_date(maybe_date) {
                Ok(d) => if st.saw_end {
                    Err(bare(SpecErrorKind::ChangeInMiddle { span: line_span, source }))
                } else if st.changes.len() > 0 && date_before(st.changes.last().0, d) {
                    Err(bare(SpecErrorKind::ChangesOutOfOrder { span: line_span, source }))
                } else {
                    Ok(ChangeScan {
                        start_of_changes: sat_sub(st.start_of_changes, len + 1),
                        changes: st.changes.push((d, trim_start(change))),
                        ..st2
                    })
                },
                Err((_, details)) => if st.bottom {
                    Ok(ChangeScan { saw_end: true, ..st2 })
                } else if !st.saw_end {
                    Err(bare(SpecErrorKind::BadChangeDate {
                        span: Span {
                            start: date_start as usize,
                            end: sat_add(date_start, byte_len(maybe_date)) as usize,
                        },
                        reason: details,
                        source,
                    }))
                } else {
                    Ok(ChangeScan { saw_end: true, ..st2 })
                },
            }
        } else if st.bottom {
            Ok(ChangeScan { saw_end: true, ..st2 })
        } else if !st.saw_end {
            Err(bare(SpecErrorKind::MissingEmptyLine {
                span: Span {
                    start: sat_add(sat_add(line_start, len), 1) as usize,
                    end: source_bytes as usize,
                },
                source,
            }))
        } else {
            Ok(st2)
        }
    }
}

/// Where the reading of change entries stands, in executable form.
pub struct ChangeScanState {
    /// Whether a line has been seen that ends the list of change entries.
    pub saw_end: bool,
    /// Whether no non-empty line has been seen yet.
    pub bottom: bool,
    /// The byte offset, in the tail, where the change entries start.
    pub start_of_changes: usize,
    /// The byte offset, in the source, one past the end of the line about to be read.
    pub line_end: usize,
    /// The change entries found, from the bottom up.
    pub changes: Vec<(CivilDate, Vec<char>)>,
}

impl View for ChangeScanState {
    type V = ChangeScan;

    open spec fn view(&self) -> ChangeScan {
        ChangeScan {
            saw_end: self.saw_end,
            bottom: self.bottom,
            start_of_changes: self.start_of_changes as int,
            line_end: self.line_end as int,
            changes: self.changes@.map_values(|c: (CivilDate, Vec<char>)| (c.0, c.1@)),
        }
    }
}

fn minus_one_more(a: usize, len: usize) -> (res: usize)
    ensures
        res == sat_sub(a as int, len + 1),
{
    if len < usize::MAX && a >= len + 1 {
        a - (len + 1)
    } else {
        0
    }
}

fn minus(a: usize, len: usize) -> (res: usize)
    ensures
        res == sat_sub(a as int, len as int),
{
    if a >= len {
        a - len
    } else {
        0
    }
}

fn plus(a: usize, b: usize) -> (res: usize)
    ensures
        res == sat_add(a as int, b as int),
{
    if a <= usize::MAX - b {
        a + b
    } else {
        usize::MAX
    }
}

/// Reads one more line of the tail, from the bottom up.
fn change_step_exec(st: ChangeScanState, line: &[char], source: &[char], source_bytes: usize) -> (res: Result<ChangeScanState, YadrError>)
    requires
        source_bytes == byte_len(source@),
    ensures
        match (res, change_step(st@, line@, source@, source_bytes as int)) {
            (Ok(a), Ok(b)) => a@ == b,
            (Err(a), Err(b)) => a@ == b,
            _ => false,
        },
{
    let len = utf8_len_of(line, 0, line.len(), 0);
    assert(line@.subrange(0, line@.len() as int) =~= line@);
    let line_start = minus(st.line_end, len);
    let line_end = minus_one_more(st.line_end, len);
    let ghost changes_view = st@.changes;
    if skip_class(line, 0, CharClass::Whitespace) == line.len() {
        if st.changes.len() > 0 && !st.saw_end {
            return Ok(ChangeScanState {
                start_of_changes: minus_one_more(st.start_of_changes, len),
                saw_end: true,
                line_end,
                ..st
            });
        } else {
            return Ok(ChangeScanState { line_end, ..st });
        }
    }
    let off = skip_class(line, 0, CharClass::Whitespace);
    let ts = copy_range(line, off, line.len());
    let c = skip_class(ts.as_slice(), 0, CharClass::NotColon);
    let line_span = Span { start: line_start, end: plus(line_start, len) };
    if c < ts.len() {
        let maybe_date = copy_range(ts.as_slice(), 0, c);
        let change = copy_range(ts.as_slice(), c + 1, ts.len());
        let off_bytes = utf8_len_of(line, 0, off, 0);
        let date_start = plus(line_start, off_bytes);
        let md_string = string_of(maybe_date.as_slice());
        match parse_date(md_string.as_str()) {
            Ok(d) => {
                if st.saw_end {
                    Err(YadrError::new(ErrorKind::ChangeInMiddle { span: line_span, source: string_of(source) }))
                } else if st.changes.len() > 0 && st.changes[st.changes.len() - 1].0.is_before(&d) {
                    Err(YadrError::new(ErrorKind::ChangesOutOfOrder { span: line_span, source: string_of(source) }))
                } else {
                    let mut changes = st.changes;
                    let trimmed = trim_start_chars(change.as_slice());
                    changes.push((d, trimmed));
                    let soc = minus_one_more(st.start_of_changes, len);
                    let res = ChangeScanState {
                        saw_end: st.saw_end,
                        bottom: false,
                        start_of_changes: soc,
                        line_end,
                        changes,
                    };
                    assert(res@.changes =~= changes_view.push((d, trimmed@)));
                    Ok(res)
                }
            },
            Err(e) => {
                if st.bottom {
                    Ok(ChangeScanState { saw_end: true, bottom: false, line_end, ..st })
                } else if !st.saw_end {
                    let md_bytes = utf8_len_of(maybe_date.as_slice(), 0, maybe_date.len(), 0);
                    assert(maybe_date@.subrange(0, maybe_date@.len() as int) =~= maybe_date@);
                    Err(YadrError::new(ErrorKind::BadChangeDate {
                        span: Span { start: date_start, end: plus(date_start, md_bytes) },
                        reason: e.details,
                        source: string_of(source),
                    }))
                } else {
                    Ok(ChangeScanState { saw_end: true, bottom: false, line_end, ..st })
                }
            },
        }
    } else if st.bottom {
        Ok(ChangeScanState { saw_end: true, bottom: false, line_end, ..st })
    } else if !st.saw_end {
        Err(YadrError::new(ErrorKind::MissingEmptyLine {
            span: Span { start: plus(plus(line_start, len), 1), end: source_bytes },
            source: string_of(source),
        }))
    } else {
        Ok(ChangeScanState { bottom: false, line_end, ..st })
    }
}

/// How the reading of change entries starts: nothing seen yet, at the end of the tail.
pub open spec fn change_scan_start(tail: Seq<char>, source_bytes: int) -> ChangeScan {
    ChangeScan {
        saw_end: false,
        bottom: true,
        start_of_changes: byte_len(tail),
        line_end: source_bytes,
        changes: seq![],
    }
}

/// The reading of change entries after the lines `spans[k..]` of `tail`, read from the bottom
/// up.
pub open spec fn change_fold(tail: Seq<char>, spans: Seq<(int, int)>, k: int, source: Seq<char>, source_bytes: int) -> Result<ChangeScan, SpecError>
    decreases spans.len() - k,
{
    if k < 0 || k >= spans.len() {
        Ok(change_scan_start(tail, source_bytes))
    } else {
        match change_fold(tail, spans, k + 1, source, source_bytes) {
            Err(e) => Err(e),
            Ok(st) => change_step(st, tail.subrange(spans[k].0, spans[k].1), source, source_bytes),
        }
    }
}

/// The tail of a statement and its change entries, from the text `source` of the statement
/// body and the position `tail_start` where the tail starts, if it has one.
///
/// The change entries are the `YYYY-MM-DD: text` lines at the bottom of the tail, oldest first;
/// the tail is what stands before them, trimmed, unless that is only whitespace.
pub open spec fn tail_and_changes(source: Seq<char>, tail_start: Option<int>) -> Result<(Option<Seq<char>>, Seq<(CivilDate, Seq<char>)>), SpecError> {
    match tail_start {
        None => Ok((None, seq![])),
        Some(ts) => {
            let tail = source.subrange(ts, source.len() as int);
            if all_ws(tail) {
                Ok((None, seq![]))
            } else {
                match change_fold(tail, line_spans(tail, 0), 0, source, byte_len(source)) {
                    Err(e) => Err(e),
                    Ok(st) => {
                        let cut = tail.subrange(0, char_at_byte(tail, st.start_of_changes, 0));
                        Ok((if !all_ws(cut) {
                            Some(trim(cut))
                        } else {
                            None
                        }, st.changes.reverse()))
                    },
                }
            }
        },
    }
}

/// Whether change entries are listed from oldest to newest: no entry is dated after one listed
/// below it, so that the last entry tells when the statement was last changed.
#[verifier::opaque]
pub open spec fn in_date_order(cs: Seq<(CivilDate, Seq<char>)>) -> bool {
    forall|i: int, j: int| 0 <= i < j < cs.len() ==> !date_before(#[trigger] cs[j].0, #[trigger] cs[i].0)
}

/// Whether change entries read from the bottom up are listed from newest to oldest.
pub open spec fn newest_first(cs: Seq<(CivilDate, Seq<char>)>) -> bool {
    forall|i: int, j: int| 0 <= i < j < cs.len() ==> !date_before(#[trigger] cs[i].0, #[trigger] cs[j].0)
}

/// A date that is not before a second, which is not before a third, is not before the third.
pub proof fn lemma_not_before_trans(a: CivilDate, b: CivilDate, c: CivilDate)
    requires
        !date_before(a, b),
        !date_before(b, c),
    ensures
        !date_before(a, c),
{
}

/// Reading a line keeps the entries read listed from newest to oldest.
proof fn lemma_change_step_newest_first(st: ChangeScan, line: Seq<char>, source: Seq<char>, source_bytes: int)
    requires
        newest_first(st.changes),
        change_step(st, line, source, source_bytes) is Ok,
    ensures
        newest_first(change_step(st, line, source, source_bytes)->Ok_0.changes),
{
    let next = change_step(st, line, source, source_bytes)->Ok_0;
    if next.changes.len() > st.changes.len() {
        let n = st.changes.len();
        assert forall|i: int, j: int| 0 <= i < j < next.changes.len() implies !date_before(
            #[trigger] next.changes[i].0,
            #[trigger] next.changes[j].0,
        ) by {
            if j < n {
                assert(next.changes[i] == st.changes[i]);
                assert(next.changes[j] == st.changes[j]);
            } else {
                assert(next.changes[i] == st.changes[i]);
                assert(!date_before(st.changes[n - 1].0, next.changes[j].0));
                if i < n - 1 {
                    assert(!date_before(st.changes[i].0, st.changes[n - 1].0));
                    lemma_not_before_trans(st.changes[i].0, st.changes[n - 1].0, next.changes[j].0);
                }
            }
        }
    }
}

/// Reading the lines `spans[k..]` keeps the entries read listed from newest to oldest.
proof fn lemma_change_fold_newest_first(tail: Seq<char>, spans: Seq<(int, int)>, k: int, source: Seq<char>, source_bytes: int)
    requires
        change_fold(tail, spans, k, source, source_bytes) is Ok,
    ensures
        newest_first(change_fold(tail, spans, k, source, source_bytes)->Ok_0.changes),
    decreases spans.len() - k,
{
    if 0 <= k < spans.len() {
        lemma_change_fold_newest_first(tail, spans, k + 1, source, source_bytes);
        let st = change_fold(tail, spans, k + 1, source, source_bytes)->Ok_0;
        lemma_change_step_newest_first(st, tail.subrange(spans[k].0, spans[k].1), source, source_bytes);
    }
}

/// The change entries of a tail that reads without error are listed from oldest to newest.
pub proof fn lemma_tail_changes_in_date_order(source: Seq<char>, tail_start: Option<int>)
    requires
        tail_and_changes(source, tail_start) is Ok,
    ensures
        in_date_order(tail_and_changes(source, tail_start)->Ok_0.1),
{
    reveal(in_date_order);
    if let Some(ts) = tail_start {
        let tail = source.subrange(ts, source.len() as int);
        if !all_ws(tail) {
            let spans = line_spans(tail, 0);
            lemma_change_fold_newest_first(tail, spans, 0, source, byte_len(source));
            let cs = change_fold(tail, spans, 0, source, byte_len(source))->Ok_0.changes;
            let r = cs.reverse();
            assert forall|i: int, j: int| 0 <= i < j < r.len() implies !date_before(
                #[trigger] r[j].0,
                #[trigger] r[i].0,
            ) by {
                assert(r[i] == cs[cs.len() - 1 - i]);
                assert(r[j] == cs[cs.len() - 1 - j]);
            }
        }
    }
}

/// The specification's view of a list of change entries.
pub open spec fn changes_view(v: Seq<(CivilDate, Vec<char>)>) -> Seq<(CivilDate, Seq<char>)> {
    v.map_values(|c: (CivilDate, Vec<char>)| (c.0, c.1@))
}

/// An error in the reading of change entries stops it.
pub proof fn lemma_change_fold_err(tail: Seq<char>, spans: Seq<(int, int)>, k: int, source: Seq<char>, source_bytes: int, e: SpecError)
    requires
        0 <= k <= spans.len(),
        change_fold(tail, spans, k, source, source_bytes) == Err::<ChangeScan, SpecError>(e),
    ensures
        change_fold(tail, spans, 0, source, source_bytes) == Err::<ChangeScan, SpecError>(e),
    decreases k,
{
    if k > 0 {
        lemma_change_fold_err(tail, spans, k - 1, source, source_bytes, e);
    }
}

/// Reads the change entries of `tail`, from its last line up.
fn scan_changes(tail: &[char], source: &[char], source_bytes: usize) -> (res: Result<ChangeScanState, YadrError>)
    requires
        source_bytes == byte_len(source@),
    ensures
        match (res, change_fold(tail@, line_spans(tail@, 0), 0, source@, source_bytes as int)) {
            (Ok(a), Ok(b)) => a@ == b,
            (Err(a), Err(b)) => a@ == b,
            _ => false,
        },
{
    let tail_bytes = utf8_len_of(tail, 0, tail.len(), 0);
    assert(tail@.subrange(0, tail@.len() as int) =~= tail@);
    let spans = lines_of(tail);
    let ghost sv = spans@.map_values(|p: (usize, usize)| (p.0 as int, p.1 as int));
    let mut st = ChangeScanState {
        saw_end: false,
        bottom: true,
        start_of_changes: tail_bytes,
        line_end: source_bytes,
        changes: Vec::new(),
    };
    assert(st@.changes =~= Seq::<(CivilDate, Seq<char>)>::empty());
    assert(st@ == change_scan_start(tail@, source_bytes as int));
    let mut k = spans.len();
    while k > 0
        invariant
            k <= spans@.len(),
            sv == spans@.map_values(|p: (usize, usize)| (p.0 as int, p.1 as int)),
            sv == line_spans(tail@, 0),
            forall|m: int| 0 <= m < spans@.len() ==> #[trigger] spans@[m].0 <= spans@[m].1 <= tail@.len(),
            source_bytes == byte_len(source@),
            change_fold(tail@, sv, k as int, source@, source_bytes as int) == Ok::<ChangeScan, SpecError>(st@),
        decreases k,
    {
        let (a, b) = spans[k - 1];
        assert(sv[k - 1] == (a as int, b as int));
        let line = copy_range(tail, a, b);
        match change_step_exec(st, line.as_slice(), source, source_bytes) {
            Ok(next) => {
                st = next;
            },
            Err(e) => {
                proof {
                    lemma_change_fold_err(tail@, sv, k - 1, source@, source_bytes as int, e@);
                }
                return Err(e);
            },
        }
        k = k - 1;
    }
    Ok(st)
}

/// The change entries in the opposite order.
fn reversed(v: Vec<(CivilDate, Vec<char>)>) -> (res: Vec<(CivilDate, Vec<char>)>)
    ensures
        changes_view(res@) == changes_view(v@).reverse(),
{
    let ghost found = changes_view(v@);
    let n = v.len();
    let mut rest = v;
    let mut out: Vec<(CivilDate, Vec<char>)> = Vec::new();
    assert(changes_view(rest@) =~= found.take(n as int));
    assert(changes_view(out@) =~= found.reverse().take(0));
    while rest.len() > 0
        invariant
            found.len() == n,
            rest@.len() <= n,
            out@.len() + rest@.len() == n,
            changes_view(rest@) == found.take(rest@.len() as int),
            changes_view(out@) == found.reverse().take(n - rest@.len()),
        decreases rest@.len(),
    {
        let ghost r = rest@.len() as int;
        let ghost old_rest = rest@;
        let ghost old_out = out@;
        let item = rest.pop().unwrap();
        proof {
            assert(old_rest.last() == item);
            assert(changes_view(old_rest)[r - 1] == found.take(r)[r - 1]);
            assert(changes_view(old_rest)[r - 1] == (item.0, item.1@));
            assert(changes_view(rest@) =~= found.take(rest@.len() as int)) by {
                assert forall|i: int| 0 <= i < r - 1 implies #[trigger] changes_view(rest@)[i] == found.take(r - 1)[i] by {
                    assert(rest@[i] == old_rest[i]);
                    assert(changes_view(old_rest)[i] == found.take(r)[i]);
                }
            }
        }
        out.push(item);
        proof {
            let target = found.reverse().take(n - rest@.len());
            assert(target.len() == out@.len());
            assert forall|i: int| 0 <= i < out@.len() implies #[trigger] changes_view(out@)[i] == target[i] by {
                if i < old_out.len() {
                    assert(out@[i] == old_out[i]);
                    assert(changes_view(old_out)[i] == found.reverse().take(n - r)[i]);
                } else {
                    assert(out@[i] == item);
                    assert(i == n - r);
                    assert(found.reverse()[i] == found[n - 1 - i]);
                }
            }
            assert(changes_view(out@) =~= target);
        }
    }
    assert(found.reverse().take(n as int) =~= found.reverse());
    out
}

/// Reads the tail and change entries of a statement body; see [`tail_and_changes`].
pub fn tail_and_changes_exec(source: &[char], tail_start: Option<usize>) -> (res: Result<(Option<Vec<char>>, Vec<(CivilDate, Vec<char>)>), YadrError>)
    requires
        tail_start matches Some(ts) ==> ts <= source@.len(),
    ensures
        match (res, tail_and_changes(source@, match tail_start { Some(ts) => Some(ts as int), None => None })) {
            (Ok((t, c)), Ok((t2, c2))) => changes_view(c@) == c2 && match (t, t2) {
                (Some(a), Some(b)) => a@ == b,
                (None, None) => true,
                _ => false,
            },
            (Err(a), Err(b)) => a@ == b,
            _ => false,
        },
{
    let ts = match tail_start {
        None => {
            return Ok((None, Vec::new()));
        },
        Some(ts) => ts,
    };
    let tail = copy_range(source, ts, source.len());
    if skip_class(tail.as_slice(), 0, CharClass::Whitespace) == tail.len() {
        return Ok((None, Vec::new()));
    }
    let source_bytes = utf8_len_of(source, 0, source.len(), 0);
    assert(source@.subrange(0, source@.len() as int) =~= source@);
    let st = match scan_changes(tail.as_slice(), source, source_bytes) {
        Ok(st) => st,
        Err(e) => {
            return Err(e);
        },
    };
    let c = char_index_at_byte(tail.as_slice(), st.start_of_changes);
    let cut = copy_range(tail.as_slice(), 0, c);
    let new_tail = if skip_class(cut.as_slice(), 0, CharClass::Whitespace) != cut.len() {
        Some(trim_chars(cut.as_slice()))
    } else {
        None
    };
    let changes = reversed(st.changes);
    Ok((new_tail, changes))
}

/// The first position at or after `q` where a paragraph break starts, or `len + 1`.
pub open spec fn next_break(t: Seq<char>, q: int) -> int
    decreases t.len() + 1 - q,
{
    if q > t.len() {
        t.len() + 1int
    } else if para_break_end(t, q) is Some {
        q
    } else {
        next_break(t, q + 1)
    }
}

/// The paragraphs of `t` from `start` on, at most `k` of them, as spans: split at paragraph
/// breaks, with the last one holding the rest of the text.
pub open spec fn paragraphs_from(t: Seq<char>, start: int, k: int) -> Seq<(int, int)>
    decreases t.len() + 1 - start,
{
    let p = next_break(t, start);
    if k <= 1 || p > t.len() || start < 0 || start > t.len() {
        seq![(start, t.len() as int)]
    } else {
        let e = match para_break_end(t, p) {
            Some(e) => e,
            None => start,
        };
        if start < e <= t.len() {
            seq![(start, p)] + paragraphs_from(t, e, k - 1)
        } else {
            seq![(start, t.len() as int)]
        }
    }
}

/// The byte length of the first line of `s` after `skip` line feeds, or zero if there is no
/// such line; with `lead`, only of its leading whitespace.
pub open spec fn nth_line_bytes(s: Seq<char>, skip: nat, lead: bool) -> int
    decreases skip,
{
    let e = run_end(s, 0, CharClass::NotNewline);
    if skip == 0 {
        let line = s.subrange(0, e);
        if lead {
            byte_len(line.subrange(0, run_end(line, 0, CharClass::Whitespace)))
        } else {
            byte_len(line)
        }
    } else if e < s.len() {
        nth_line_bytes(s.subrange(e + 1, s.len() as int), (skip - 1) as nat, lead)
    } else {
        0
    }
}

/// Where the `k`-th paragraph (from 0) starts, as a byte offset into `comment`, when the
/// previous one ended at byte offset `bo`: past the rest of that line, an empty line, and the
/// leading whitespace of the next.
pub open spec fn paragraph_offset(comment: Seq<char>, bo: int) -> int {
    let rest = comment.subrange(char_at_byte(comment, bo, 0), comment.len() as int);
    sat_add(sat_add(sat_add(sat_add(sat_add(bo, nth_line_bytes(rest, 0, false)), 1), nth_line_bytes(rest, 1, false)), 1), nth_line_bytes(rest, 2, true))
}

/// What is wrong with the statement body `comment`, paragraph by paragraph from the `k`-th of
/// `paras` (spans of `tt`, the body without leading whitespace), the previous paragraph having
/// ended at byte offset `bo`. The first paragraph starts where `tt` starts within `comment`.
pub open spec fn diagnosis_from(comment: Seq<char>, tt: Seq<char>, paras: Seq<(int, int)>, k: int, bo: int) -> SpecErrorKind
    decreases paras.len() - k,
{
    if k < 0 || k >= paras.len() {
        if paras.len() != 4 {
            SpecErrorKind::MissingParagraphs { complete: paras.len() as usize, source: comment }
        } else {
            SpecErrorKind::Unmatched { source: comment }
        }
    } else {
        let piece = tt.subrange(paras[k].0, paras[k].1);
        let plen = byte_len(piece);
        let start = if k == 0 {
            byte_len(comment.subrange(0, comment.len() - tt.len()))
        } else {
            paragraph_offset(comment, bo)
        };
        let next_bo = sat_add(start, plen);
        if spec_read(paragraph_template(k), piece) is Some {
            diagnosis_from(comment, tt, paras, k + 1, next_bo)
        } else {
            SpecErrorKind::MalformedParagraph {
                paragraph: (k + 1) as usize,
                span: Span { start: start as usize, end: next_bo as usize },
                ends_with_full_stop: piece.len() > 0 && piece.last() == '.',
                source: comment,
            }
        }
    }
}

/// What is wrong with a statement body that does not have the shape of a statement: the first
/// paragraph that does not have the expected wording, or else how many paragraphs are missing.
pub open spec fn diagnosis(comment: Seq<char>) -> SpecErrorKind {
    let tt = trim_start(comment);
    diagnosis_from(comment, tt, paragraphs_from(tt, 0, 4), 0, 0)
}

/// The first paragraph break at or after `start`, and where it ends.
fn next_break_exec(t: &[char], start: usize) -> (res: (usize, Option<usize>))
    requires
        start <= t@.len(),
        fits(t@.len() as int),
    ensures
        res.0 == next_break(t@, start as int),
        res.0 <= t@.len() ==> opt_int(res.1) == para_break_end(t@, res.0 as int),
        res.0 > t@.len() ==> res.1 is None,
        res.1 matches Some(e) ==> res.0 < e <= t@.len(),
        start <= res.0,
{
    let mut p = start;
    while p <= t.len()
        invariant
            start <= p <= t@.len() + 1,
            fits(t@.len() as int),
            next_break(t@, start as int) == next_break(t@, p as int),
        decreases t@.len() + 1 - p,
    {
        match para_break_exec(t, p) {
            Some(e) => {
                return (p, Some(e));
            },
            None => {},
        }
        p = p + 1;
    }
    (p, None)
}

/// The paragraphs of `t` (at most four), as spans; see [`paragraphs_from`].
pub fn paragraphs_of(t: &[char]) -> (res: Vec<(usize, usize)>)
    requires
        fits(t@.len() as int),
    ensures
        res@.map_values(|p: (usize, usize)| (p.0 as int, p.1 as int)) == paragraphs_from(t@, 0, 4),
        forall|k: int| 0 <= k < res@.len() ==> #[trigger] res@[k].0 <= res@[k].1 <= t@.len(),
        res@.len() <= 4,
{
    let ghost whole = paragraphs_from(t@, 0, 4);
    let mut out: Vec<(usize, usize)> = Vec::new();
    let mut start: usize = 0;
    let mut k: usize = 4;
    assert(out@.map_values(|p: (usize, usize)| (p.0 as int, p.1 as int)) + paragraphs_from(t@, 0, 4) =~= whole);
    loop
        invariant
            start <= t@.len(),
            fits(t@.len() as int),
            1 <= k <= 4,
            out@.len() + k == 4,
            whole == paragraphs_from(t@, 0, 4),
            whole == out@.map_values(|p: (usize, usize)| (p.0 as int, p.1 as int)) + paragraphs_from(t@, start as int, k as int),
            forall|m: int| 0 <= m < out@.len() ==> #[trigger] out@[m].0 <= out@[m].1 <= t@.len(),
        decreases t@.len() - start,
    {
        let ghost before = out@.map_values(|p: (usize, usize)| (p.0 as int, p.1 as int));
        let (p, found) = next_break_exec(t, start);
        if k <= 1 || found.is_none() {
            out.push((start, t.len()));
            proof {
                assert(out@.map_values(|p: (usize, usize)| (p.0 as int, p.1 as int)) =~= before.push((start as int, t@.len() as int)));
            }
            return out;
        }
        let e = found.unwrap();
        out.push((start, p));
        proof {
            assert(out@.map_values(|p: (usize, usize)| (p.0 as int, p.1 as int)) =~= before.push((start as int, p as int)));
            assert(before + (seq![(start as int, p as int)] + paragraphs_from(t@, e as int, k - 1)) =~= before.push((start as int, p as int)) + paragraphs_from(t@, e as int, k - 1));
        }
        start = e;
        k = k - 1;
    }
}

fn nth_line_bytes_exec(s: &[char], skip: usize, lead: bool) -> (res: usize)
    ensures
        res == nth_line_bytes(s@, skip as nat, lead),
{
    let mut cur = copy_range(s, 0, s.len());
    assert(cur@ =~= s@);
    let mut left = skip;
    while left > 0
        invariant
            nth_line_bytes(s@, skip as nat, lead) == nth_line_bytes(cur@, left as nat, lead),
        decreases left,
    {
        let e = skip_class(cur.as_slice(), 0, CharClass::NotNewline);
        if e >= cur.len() {
            return 0;
        }
        cur = copy_range(cur.as_slice(), e + 1, cur.len());
        left = left - 1;
    }
    let e = skip_class(cur.as_slice(), 0, CharClass::NotNewline);
    let line = copy_range(cur.as_slice(), 0, e);
    if lead {
        let w = skip_class(line.as_slice(), 0, CharClass::Whitespace);
        let r = utf8_len_of(line.as_slice(), 0, w, 0);
        r
    } else {
        let r = utf8_len_of(line.as_slice(), 0, line.len(), 0);
        assert(line@.subrange(0, line@.len() as int) =~= line@);
        r
    }
}

fn paragraph_offset_exec(comment: &[char], bo: usize) -> (res: usize)
    ensures
        res == paragraph_offset(comment@, bo as int),
{
    let c = char_index_at_byte(comment, bo);
    let rest = copy_range(comment, c, comment.len());
    let a = nth_line_bytes_exec(rest.as_slice(), 0, false);
    let b = nth_line_bytes_exec(rest.as_slice(), 1, false);
    let d = nth_line_bytes_exec(rest.as_slice(), 2, true);
    plus(plus(plus(plus(plus(bo, a), 1), b), 1), d)
}

/// What is wrong with a statement body that does not have the shape of a statement; see
/// [`diagnosis`].
pub fn diagnose(comment: &[char]) -> (res: ErrorKind)
    requires
        fits(comment@.len() as int),
    ensures
        res@ == diagnosis(comment@),
{
    let tt = trim_start_chars(comment);
    let paras = paragraphs_of(tt.as_slice());
    let ghost pv = paras@.map_values(|p: (usize, usize)| (p.0 as int, p.1 as int));
    let mut k: usize = 0;
    let mut bo: usize = 0;
    while k < paras.len()
        invariant
            k <= paras@.len() <= 4,
            fits(comment@.len() as int),
            tt@ == trim_start(comment@),
            tt@.len() <= comment@.len(),
            pv == paras@.map_values(|p: (usize, usize)| (p.0 as int, p.1 as int)),
            pv == paragraphs_from(tt@, 0, 4),
            forall|m: int| 0 <= m < paras@.len() ==> #[trigger] paras@[m].0 <= paras@[m].1 <= tt@.len(),
            diagnosis(comment@) == diagnosis_from(comment@, tt@, pv, k as int, bo as int),
        decreases paras@.len() - k,
    {
        let (ps, pe) = paras[k];
        assert(pv[k as int] == (ps as int, pe as int));
        let piece = copy_range(tt.as_slice(), ps, pe);
        let plen = utf8_len_of(piece.as_slice(), 0, piece.len(), 0);
        assert(piece@.subrange(0, piece@.len() as int) =~= piece@);
        let start = if k == 0 {
            utf8_len_of(comment, 0, comment.len() - tt.len(), 0)
        } else {
            paragraph_offset_exec(comment, bo)
        };
        let next_bo = plus(start, plen);
        let tpl = make_paragraph_template(k);
        if read(&tpl, piece.as_slice()).is_none() {
            let ends = piece.len() > 0 && piece[piece.len() - 1] == '.';
            return ErrorKind::MalformedParagraph {
                paragraph: k + 1,
                span: Span { start, end: next_bo },
                ends_with_full_stop: ends,
                source: string_of(comment),
            };
        }
        bo = next_bo;
        k = k + 1;
    }
    if paras.len() != 4 {
        ErrorKind::MissingParagraphs { complete: paras.len(), source: string_of(comment) }
    } else {
        ErrorKind::Unmatched { source: string_of(comment) }
    }
}

} // verus!
