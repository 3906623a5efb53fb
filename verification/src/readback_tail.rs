//! Reading back a written tail: the text after a statement's paragraphs, and the change log
//! after it, are read as that text and those entries where the text's lines cannot be taken
//! for change entries.
use vstd::prelude::*;
use crate::text::{
    CharClass, run_end, lemma_run_end, lemma_run_end_unique, is_ws, trim_start, utf8_len,
    utf8_width, char_at_byte, lemma_run_end_after, lemma_run_end_before,
};
use crate::block::{
    line_spans, change_step, change_fold, ChangeScan, tail_and_changes, byte_len,
};
use crate::statement::all_ws;
use crate::date::{CivilDate, jiff_date};
use crate::error::SpecError;
use crate::readback::{
    opens_line, breaks_open_lines, blank_then_opens, lemma_trim_untouched, lemma_opens_after,
    lemma_blank_opens_after, lemma_empty_then_opens,
};
use crate::readback_log::{
    entries_text, log_text, plain_changes, plain_log, entry_lines_at, lemma_log_fold,
    lemma_entries_alone, lemma_bytes_before, lemma_utf8_len_add, lemma_utf8_len_newline,
};

verus! {

/// The spans `sp`, each moved on by `o`.
pub open spec fn shift(sp: Seq<(int, int)>, o: int) -> Seq<(int, int)> {
    Seq::new(sp.len(), |k: int| (sp[k].0 + o, sp[k].1 + o))
}

/// The lines of the second of two texts, read within both, are its own lines moved on.
pub proof fn lemma_line_spans_after(a: Seq<char>, b: Seq<char>, i: int)
    requires
        0 <= i,
    ensures
        line_spans(a + b, a.len() + i) == shift(line_spans(b, i), a.len() as int),
    decreases b.len() - i,
{
    let t = a + b;
    let o = a.len() as int;
    if i < b.len() {
        lemma_run_end_after(a, b, i, CharClass::NotNewline);
        let nl = run_end(b, i, CharClass::NotNewline);
        lemma_run_end(b, i, CharClass::NotNewline);
        if nl < b.len() {
            lemma_line_spans_after(a, b, nl + 1);
            assert(o + nl + 1 == o + (nl + 1));
            if nl > i {
                assert(t[o + nl - 1] == b[nl - 1]);
            }
            assert(line_spans(t, o + i) =~= shift(line_spans(b, i), o));
        } else {
            assert(line_spans(t, o + i) =~= shift(line_spans(b, i), o));
        }
    } else {
        assert(line_spans(t, o + i) =~= shift(line_spans(b, i), o));
    }
}

/// The lines of a text that does not end with a line break, read within it and a text that
/// starts with a line feed, are its own lines and then those after that line feed.
pub proof fn lemma_line_spans_before(a: Seq<char>, b: Seq<char>, from: int)
    requires
        0 <= from < a.len(),
        a.last() != '\n',
        a.last() != '\r',
        b.len() > 0,
        b[0] == '\n',
    ensures
        line_spans(a + b, from) == line_spans(a, from) + line_spans(a + b, a.len() + 1int),
    decreases a.len() - from,
{
    let t = a + b;
    lemma_run_end_before(a, b, from, CharClass::NotNewline);
    lemma_run_end(a, from, CharClass::NotNewline);
    let nl = run_end(a, from, CharClass::NotNewline);
    if nl < a.len() {
        assert(a[nl] == '\n');
        assert(nl + 1 < a.len());
        if nl > from {
            assert(t[nl - 1] == a[nl - 1]);
        }
        lemma_line_spans_before(a, b, nl + 1);
        assert(line_spans(t, from) =~= line_spans(a, from) + line_spans(t, a.len() + 1int));
    } else {
        lemma_run_end_unique(b, 0, 0, CharClass::NotNewline);
        assert(t[a.len() as int] == b[0]);
        assert(t[a.len() - 1] == a.last());
        assert(line_spans(t, from) =~= line_spans(a, from) + line_spans(t, a.len() + 1int));
    }
}

/// The lines of a text lie within it, in order from `from` on.
pub proof fn lemma_line_spans_bounds(s: Seq<char>, from: int)
    requires
        0 <= from,
    ensures
        forall|i: int|
            0 <= i < line_spans(s, from).len() ==> from <= (#[trigger] line_spans(s, from)[i]).0
                <= line_spans(s, from)[i].1 <= s.len(),
    decreases s.len() - from,
{
    if from < s.len() {
        lemma_run_end(s, from, CharClass::NotNewline);
        let nl = run_end(s, from, CharClass::NotNewline);
        if nl < s.len() {
            lemma_line_spans_bounds(s, nl + 1);
            let end = if nl > from && s[nl - 1] == '\r' {
                nl - 1
            } else {
                nl
            };
            let rest = line_spans(s, nl + 1);
            assert(line_spans(s, from) == seq![(from, end)] + rest);
            assert forall|i: int| 0 <= i < line_spans(s, from).len() implies from <= (
            #[trigger] line_spans(s, from)[i]).0 <= line_spans(s, from)[i].1 <= s.len() by {
                if i > 0 {
                    assert(line_spans(s, from)[i] == rest[i - 1]);
                }
            }
        }
    }
}

/// The last line of a text that does not end with a line feed runs to its end.
pub proof fn lemma_line_spans_last(s: Seq<char>, from: int)
    requires
        0 <= from < s.len(),
        s.last() != '\n',
    ensures
        line_spans(s, from).len() > 0,
        line_spans(s, from).last().1 == s.len(),
        from <= line_spans(s, from).last().0 < s.len(),
    decreases s.len() - from,
{
    lemma_run_end(s, from, CharClass::NotNewline);
    let nl = run_end(s, from, CharClass::NotNewline);
    if nl < s.len() {
        assert(s[nl] == '\n');
        assert(nl + 1 < s.len());
        lemma_line_spans_last(s, nl + 1);
    }
}

/// Whether a line does not read as a change entry: the text before its first colon, past its
/// leading whitespace, if it has a colon, is not read as a date.
pub open spec fn undated_line(l: Seq<char>) -> bool {
    let ts = trim_start(l);
    let c = run_end(ts, 0, CharClass::NotColon);
    c < ts.len() ==> jiff_date(ts.subrange(0, c)) is Err
}

/// Whether no line of `t` reads as a change entry.
pub open spec fn undated_lines(t: Seq<char>) -> bool {
    forall|i: int|
        0 <= i < line_spans(t, 0).len() ==> undated_line(
            t.subrange((#[trigger] line_spans(t, 0)[i]).0, line_spans(t, 0)[i].1),
        )
}

/// Whether a statement's tail can be written after its paragraphs and read back: it is not
/// empty, has no whitespace at either end, opens each of its lines as a statement's lines open
/// (see [`breaks_open_lines`]), and has no line that reads as a change entry.
pub open spec fn plain_tail(t: Seq<char>) -> bool {
    &&& t.len() > 0
    &&& !is_ws(t[0])
    &&& !is_ws(t.last())
    &&& opens_line(t, 0)
    &&& breaks_open_lines(t)
    &&& undated_lines(t)
}

/// The reading state once the lines of a tail's text, up to line `k` of its `nt` lines, are
/// reached from the bottom up: the change entries `cs` have all been read and, if there are
/// any, ended by an empty line; the entries start where the text ends; and once a line of the
/// text has been read, or entries were read, the bottom is past and the entries have ended.
pub open spec fn text_state_ok(cs: Seq<(CivilDate, Seq<char>)>, t: Seq<char>, started: bool, st: ChangeScan) -> bool {
    &&& st.changes == cs.reverse()
    &&& st.start_of_changes == utf8_len(t)
    &&& if started || cs.len() > 0 {
        st.saw_end && !st.bottom
    } else {
        !st.saw_end && st.bottom
    }
}

/// Reading the lines of a tail's text from the bottom up, after its change log, keeps the
/// entries read and where they start.
#[verifier::spinoff_prover]
#[verifier::rlimit(40)]
proof fn lemma_text_fold(
    cs: Seq<(CivilDate, Seq<char>)>,
    t: Seq<char>,
    tail: Seq<char>,
    spans: Seq<(int, int)>,
    k: int,
    source: Seq<char>,
    sb: int,
)
    requires
        plain_tail(t),
        spans.len() >= line_spans(t, 0).len(),
        forall|i: int| 0 <= i < line_spans(t, 0).len() ==> spans[i] == #[trigger] line_spans(t, 0)[i],
        t.len() <= tail.len(),
        tail.subrange(0, t.len() as int) == t,
        change_fold(tail, spans, line_spans(t, 0).len() as int, source, sb) is Ok,
        text_state_ok(
            cs,
            t,
            false,
            change_fold(tail, spans, line_spans(t, 0).len() as int, source, sb)->Ok_0,
        ),
        0 <= k <= line_spans(t, 0).len(),
    ensures
        change_fold(tail, spans, k, source, sb) is Ok,
        text_state_ok(cs, t, k < line_spans(t, 0).len(), change_fold(tail, spans, k, source, sb)->Ok_0),
    decreases line_spans(t, 0).len() - k,
{
    let sp = line_spans(t, 0);
    let nt = sp.len() as int;
    if k < nt {
        lemma_text_fold(cs, t, tail, spans, k + 1, source, sb);
        let st = change_fold(tail, spans, k + 1, source, sb)->Ok_0;
        lemma_line_spans_bounds(t, 0);
        assert(spans[k] == sp[k]);
        let line = tail.subrange(spans[k].0, spans[k].1);
        assert(line =~= t.subrange(sp[k].0, sp[k].1)) by {
            assert forall|m: int| 0 <= m < line.len() implies line[m] == t.subrange(sp[k].0, sp[k].1)[m] by {
                assert(tail[sp[k].0 + m] == tail.subrange(0, t.len() as int)[sp[k].0 + m]);
            }
        }
        assert(undated_line(t.subrange(sp[k].0, sp[k].1)));
        if k + 1 == nt {
            lemma_line_spans_last(t, 0);
            let l = t.subrange(sp[k].0, sp[k].1);
            assert(l.last() == t.last());
            lemma_run_end(l, 0, CharClass::Whitespace);
            if all_ws(l) {
                assert(CharClass::Whitespace.has(l[l.len() - 1]));
            }
        }
        let next = change_step(st, line, source, sb);
        assert(next is Ok);
    }
}

/// A prefix of a text takes no more bytes than the text.
proof fn lemma_utf8_len_prefix(a: Seq<char>, c: int)
    requires
        0 <= c <= a.len(),
    ensures
        utf8_len(a.subrange(0, c)) <= utf8_len(a),
{
    assert(a =~= a.subrange(0, c) + a.subrange(c, a.len() as int));
    lemma_utf8_len_add(a.subrange(0, c), a.subrange(c, a.len() as int));
}

/// The byte offset where a text ends, within it and what follows it, is at its last character.
proof fn lemma_char_at_end(a: Seq<char>, b: Seq<char>, c: int)
    requires
        0 <= c <= a.len(),
    ensures
        char_at_byte(a + b, utf8_len(a) as int, c) == a.len(),
    decreases a.len() - c,
{
    let t = a + b;
    if c < a.len() {
        assert(t.subrange(0, c + 1) =~= a.subrange(0, c + 1));
        lemma_utf8_len_prefix(a, c + 1);
        lemma_char_at_end(a, b, c + 1);
    } else if c < t.len() {
        let p = t.subrange(0, c + 1);
        assert(p.drop_last() =~= a);
        assert(utf8_width(p.last()) >= 1);
    }
}

/// A tail that is a text, opening its lines as a statement's do and with no line that reads
/// as a change entry, followed by a change log as written, holds that text and those entries.
#[verifier::spinoff_prover]
#[verifier::rlimit(40)]
pub proof fn lemma_tail_read(t: Seq<char>, cs: Seq<(CivilDate, Seq<char>)>, source: Seq<char>, ts: int)
    requires
        plain_tail(t),
        plain_changes(cs),
        utf8_len(t + log_text(cs)) <= usize::MAX,
        0 <= ts <= source.len(),
        source.subrange(ts, source.len() as int) == t + log_text(cs),
    ensures
        tail_and_changes(source, Some(ts)) == Ok::<
            (Option<Seq<char>>, Seq<(CivilDate, Seq<char>)>),
            SpecError,
        >((Some(t), cs)),
{
    let tl = t + log_text(cs);
    let sb = byte_len(source);
    let spans = line_spans(tl, 0);
    let sp = line_spans(t, 0);
    let nt = sp.len() as int;
    assert(tl[0] == t[0]);
    lemma_run_end_unique(tl, 0, 0, CharClass::Whitespace);
    assert(!all_ws(tl));
    assert(tl.subrange(0, t.len() as int) =~= t);
    lemma_line_spans_bounds(t, 0);
    if cs.len() == 0 {
        assert(tl =~= t);
        assert(cs.reverse() =~= cs);
        lemma_text_fold(cs, t, tl, spans, 0, source, sb);
    } else {
        lemma_tail_log_state(t, cs, source, sb);
        lemma_tail_spans(t, cs);
        assert forall|i: int| 0 <= i < nt implies spans[i] == #[trigger] sp[i] by {}
        lemma_text_fold(cs, t, tl, spans, 0, source, sb);
    }
    let st = change_fold(tl, spans, 0, source, sb)->Ok_0;
    lemma_char_at_end(t, log_text(cs), 0);
    assert(tl.subrange(0, t.len() as int) =~= t);
    lemma_run_end_unique(t, 0, 0, CharClass::Whitespace);
    lemma_trim_untouched(t);
    assert(cs.reverse().reverse() =~= cs);
}

/// The lines of a text followed by a change log as written: the text's lines, the empty line
/// and the entry lines.
#[verifier::spinoff_prover]
#[verifier::rlimit(40)]
proof fn lemma_tail_spans(t: Seq<char>, cs: Seq<(CivilDate, Seq<char>)>)
    requires
        plain_tail(t),
        plain_log(cs),
    ensures
        line_spans(t + log_text(cs), 0) == line_spans(t, 0) + seq![(t.len() + 1int, t.len() + 1int)]
            + shift(line_spans(entries_text(cs), 0), t.len() + 2int),
{
    let e = entries_text(cs);
    let nn = "\n\n"@ + e;
    reveal_strlit("\n\n");
    assert(nn[0] == '\n' && nn[1] == '\n');
    assert(t + log_text(cs) == t + nn);
    lemma_line_spans_before(t, nn, 0);
    lemma_line_spans_after(t, nn, 1);
    lemma_run_end_unique(nn, 1, 1, CharClass::NotNewline);
    assert(line_spans(nn, 1) == seq![(1int, 1int)] + line_spans(nn, 2));
    assert("\n\n"@.len() == 2);
    lemma_line_spans_after("\n\n"@, e, 0);
    assert(line_spans(t + nn, t.len() + 1int) =~= seq![(t.len() + 1int, t.len() + 1int)] + shift(
        line_spans(e, 0),
        t.len() + 2int,
    ));
}

/// A stretch of the second of two texts, read within both, is that stretch.
proof fn lemma_subrange_after(a: Seq<char>, b: Seq<char>, x: int, y: int)
    requires
        0 <= x <= y <= b.len(),
    ensures
        (a + b).subrange(a.len() + x, a.len() + y) == b.subrange(x, y),
{
    assert((a + b).subrange(a.len() + x, a.len() + y) =~= b.subrange(x, y));
}

/// The entry lines of a text followed by a change log as written stand after the text's lines
/// and the empty line.
#[verifier::spinoff_prover]
#[verifier::rlimit(40)]
proof fn lemma_tail_entry_lines(t: Seq<char>, cs: Seq<(CivilDate, Seq<char>)>)
    requires
        plain_tail(t),
        plain_log(cs),
    ensures
        entry_lines_at(cs, t + log_text(cs), line_spans(t + log_text(cs), 0), line_spans(t, 0).len() + 1int),
{
    let e = entries_text(cs);
    let tl = t + log_text(cs);
    let spans = line_spans(tl, 0);
    let nt = line_spans(t, 0).len() as int;
    let se = line_spans(e, 0);
    let pre = t + "\n\n"@;
    reveal_strlit("\n\n");
    lemma_tail_spans(t, cs);
    lemma_entries_alone(cs);
    lemma_line_spans_bounds(e, 0);
    assert(tl == pre + e) by {
        assert(tl =~= pre + e);
    }
    assert(pre.len() == t.len() + 2);
    let head = line_spans(t, 0) + seq![(t.len() + 1int, t.len() + 1int)];
    let moved = shift(se, t.len() + 2int);
    assert(spans == head + moved);
    assert(head.len() == nt + 1);
    assert forall|i: int| 0 <= i < cs.len() implies tl.subrange(spans[nt + 1 + i].0, spans[nt + 1 + i].1)
        == crate::readback_log::entry_text(#[trigger] cs[i]) by {
        assert(spans[nt + 1 + i] == moved[i]);
        assert(0 <= se[0 + i].0 <= se[0 + i].1 <= e.len());
        lemma_subrange_after(pre, e, se[0 + i].0, se[0 + i].1);
    }
}

/// A text followed by a change log as written takes the text's bytes, two for the line feeds,
/// and the entry lines' bytes.
proof fn lemma_tail_bytes(t: Seq<char>, cs: Seq<(CivilDate, Seq<char>)>)
    requires
        cs.len() > 0,
    ensures
        utf8_len(t + log_text(cs)) == utf8_len(t) + 2 + utf8_len(entries_text(cs)),
{
    let e = entries_text(cs);
    reveal_strlit("\n\n");
    assert(t + log_text(cs) =~= (t + "\n\n"@) + e);
    lemma_utf8_len_add(t + "\n\n"@, e);
    lemma_utf8_len_add(t, "\n\n"@);
    assert("\n\n"@ =~= seq!['\n'] + seq!['\n']);
    lemma_utf8_len_add(seq!['\n'], seq!['\n']);
    lemma_utf8_len_newline();
}

/// Reading a text followed by a change log as written, from the bottom up, reaches the text's
/// lines with the entries read and ended by the empty line before them.
#[verifier::spinoff_prover]
#[verifier::rlimit(40)]
proof fn lemma_tail_log_state(t: Seq<char>, cs: Seq<(CivilDate, Seq<char>)>, source: Seq<char>, sb: int)
    requires
        plain_tail(t),
        plain_log(cs),
        utf8_len(t + log_text(cs)) <= usize::MAX,
    ensures
        change_fold(t + log_text(cs), line_spans(t + log_text(cs), 0), line_spans(t, 0).len() as int, source, sb) is Ok,
        text_state_ok(
            cs,
            t,
            false,
            change_fold(t + log_text(cs), line_spans(t + log_text(cs), 0), line_spans(t, 0).len() as int, source, sb)->Ok_0,
        ),
{
    let tl = t + log_text(cs);
    let spans = line_spans(tl, 0);
    let nt = line_spans(t, 0).len() as int;
    let pre: int = utf8_len(t) + 2int;
    lemma_tail_entry_lines(t, cs);
    lemma_tail_bytes(t, cs);
    lemma_log_fold(cs, 0, tl, spans, nt + 1, pre, source, sb);
    lemma_bytes_before(cs, 0);
    let st = change_fold(tl, spans, nt + 1, source, sb)->Ok_0;
    assert(spans[nt] == (t.len() + 1int, t.len() + 1int)) by {
        lemma_tail_spans(t, cs);
    }
    let line = tl.subrange(spans[nt].0, spans[nt].1);
    assert(line =~= Seq::<char>::empty());
    assert(all_ws(line));
    assert(utf8_len(line) == 0);
    assert(cs.subrange(0, cs.len() as int) =~= cs);
}

/// A tail's line feeds, from the empty line written before it on, open lines as a statement's
/// lines do.
pub proof fn lemma_tail_breaks(t: Seq<char>)
    requires
        plain_tail(t),
    ensures
        breaks_open_lines("\n\n"@ + t),
        ("\n\n"@ + t).len() >= 3,
        !is_ws(("\n\n"@ + t)[2]),
{
    let nn = "\n\n"@;
    let b = nn + t;
    reveal_strlit("\n\n");
    assert(nn.len() == 2);
    assert(b[0] == '\n' && b[1] == '\n');
    lemma_opens_after(nn, t, 0);
    lemma_empty_then_opens(b, 1);
    assert forall|j: int| 0 <= j < b.len() && #[trigger] b[j] == '\n' implies opens_line(b, j + 1)
        || blank_then_opens(b, j + 1) by {
        if j >= 2 {
            assert(t[j - 2] == '\n');
            if opens_line(t, j - 1) {
                lemma_opens_after(nn, t, j - 1);
            } else {
                lemma_blank_opens_after(nn, t, j - 1);
            }
        }
    }
}

} // verus!
