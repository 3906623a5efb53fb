//! Reading back written change entries: the lines a statement's change log is written as are
//! read as those entries, oldest first, with no tail before them.
use vstd::prelude::*;
use crate::text::{
    CharClass, run_end, lemma_run_end_unique, is_ws, utf8_len, trim_start, sat_sub, char_at_byte,
};
use crate::date::{CivilDate, date_text, jiff_date, date_before, lemma_date_text_chars};
use crate::block::{
    line_spans, byte_len, change_step, change_fold, ChangeScan, tail_and_changes,
    in_date_order,
};
use crate::statement::all_ws;
use crate::error::SpecError;
use crate::yadr::change_lines;
use crate::readback::{
    cat, offset, lemma_cat_piece, lemma_cat_locate, opens_line, breaks_open_lines, lemma_opens_line,
};

verus! {

/// The number of bytes of two texts one after the other is the sum of theirs.
pub proof fn lemma_utf8_len_add(a: Seq<char>, b: Seq<char>)
    ensures
        utf8_len(a + b) == utf8_len(a) + utf8_len(b),
    decreases b.len(),
{
    if b.len() > 0 {
        assert((a + b).drop_last() =~= a + b.drop_last());
        lemma_utf8_len_add(a, b.drop_last());
    } else {
        assert(a + b =~= a);
    }
}

/// A line feed takes one byte.
pub proof fn lemma_utf8_len_newline()
    ensures
        utf8_len(seq!['\n']) == 1,
{
    let nl = seq!['\n'];
    assert(nl.drop_last() =~= Seq::<char>::empty());
    assert(utf8_len(nl.drop_last()) == 0);
    assert(('\n' as u32) == 10);
}

/// A change entry's line, without its line feed: the date as written, a colon, a space and
/// the entry's text.
pub open spec fn entry_text(c: (CivilDate, Seq<char>)) -> Seq<char> {
    date_text(c.0) + ": "@ + c.1
}

/// The lines of the change entries `cs` and the line feeds between them, as pieces: entry
/// lines at even indices, line feeds at odd ones.
pub open spec fn entry_pieces(cs: Seq<(CivilDate, Seq<char>)>) -> Seq<Seq<char>> {
    Seq::new(
        (2 * cs.len() - 1) as nat,
        |k: int|
            if k % 2 == 0 {
                entry_text(cs[k / 2])
            } else {
                "\n"@
            },
    )
}

/// The lines of the change entries `cs`, joined by line feeds.
pub open spec fn entries_text(cs: Seq<(CivilDate, Seq<char>)>) -> Seq<char> {
    cat(entry_pieces(cs), 2 * cs.len() - 1)
}

/// The change log as a statement is written out is a line feed before the joined entry lines.
pub proof fn lemma_change_lines_joined(cs: Seq<(CivilDate, Seq<char>)>, m: int)
    requires
        1 <= m <= cs.len(),
    ensures
        change_lines(cs, m) == "\n"@ + cat(entry_pieces(cs), 2 * m - 1),
    decreases m,
{
    let ps = entry_pieces(cs);
    if m == 1 {
        assert(cat(ps, 1) == cat(ps, 0) + ps[0]);
        assert(cat(ps, 0) =~= Seq::<char>::empty());
        assert(change_lines(cs, 0) =~= Seq::<char>::empty());
        assert(change_lines(cs, 1) =~= "\n"@ + cat(ps, 1));
    } else {
        lemma_change_lines_joined(cs, m - 1);
        assert(cat(ps, 2 * m - 1) == cat(ps, 2 * m - 2) + ps[2 * m - 2]);
        assert(cat(ps, 2 * m - 2) == cat(ps, 2 * m - 3) + ps[2 * m - 3]);
        assert(ps[2 * m - 2] == entry_text(cs[m - 1]));
        assert(ps[2 * m - 3] == "\n"@);
        assert(change_lines(cs, m) =~= "\n"@ + cat(ps, 2 * m - 1));
    }
}

/// Whether a change entry can be written on a line of its own and read back: its text holds no
/// line feed or carriage return and does not start with whitespace, and the date parser reads
/// its date as written back as that date.
pub open spec fn plain_entry(c: (CivilDate, Seq<char>)) -> bool {
    &&& !c.1.contains('\n')
    &&& !c.1.contains('\r')
    &&& (c.1.len() == 0 || !is_ws(c.1[0]))
    &&& jiff_date(date_text(c.0)) == Ok::<CivilDate, (Seq<char>, Seq<char>)>(c.0)
}

/// What an entry's line is made of.
pub proof fn lemma_entry_text(c: (CivilDate, Seq<char>))
    requires
        plain_entry(c),
    ensures
        ({
            let e = entry_text(c);
            let n = date_text(c.0).len() as int;
            &&& e.len() > n + 1
            &&& !e.contains('\n')
            &&& e.last() != '\r'
            &&& !is_ws(e[0])
            &&& !CharClass::Blank.has(e[0])
            &&& e[0] != 'Y'
            &&& (e[0] == '-' ==> e[1] != '-')
            &&& run_end(e, 0, CharClass::NotColon) == n
            &&& run_end(e, 0, CharClass::Whitespace) == 0
            &&& e.subrange(0, n) == date_text(c.0)
            &&& trim_start(e.subrange(n + 1, e.len() as int)) == c.1
        }),
{
    lemma_date_text_chars(c.0);
    reveal_strlit(": ");
    let d = date_text(c.0);
    let n = d.len() as int;
    let e = entry_text(c);
    assert(e[n] == ':');
    assert(e[n + 1] == ' ');
    assert forall|k: int| 0 <= k < n implies CharClass::NotColon.has(#[trigger] e[k]) by {
        assert(e[k] == d[k]);
    }
    lemma_run_end_unique(e, 0, n, CharClass::NotColon);
    assert(e[0] == d[0]);
    assert(e[1] == d[1]);
    lemma_run_end_unique(e, 0, 0, CharClass::Whitespace);
    assert(e.subrange(0, n) =~= d);
    let rest = e.subrange(n + 1, e.len() as int);
    assert(rest =~= seq![' '] + c.1);
    if c.1.len() == 0 {
        lemma_run_end_unique(rest, 0, 1, CharClass::Whitespace);
    } else {
        assert(rest[1] == c.1[0]);
        lemma_run_end_unique(rest, 0, 1, CharClass::Whitespace);
    }
    assert(trim_start(rest) =~= c.1);
    if e.contains('\n') {
        let k = choose|k: int| 0 <= k < e.len() && e[k] == '\n';
        if k < n {
            assert(e[k] == d[k]);
        } else if k > n + 1 {
            assert(e[k] == c.1[k - n - 2]);
            assert(c.1.contains('\n'));
        }
    }
    if c.1.len() > 0 {
        assert(e.last() == c.1.last());
        assert(c.1.contains(c.1.last()));
    }
}

/// Whether every entry of a change log is plain, the log is not empty, and its entries are
/// listed from oldest to newest.
pub open spec fn plain_log(cs: Seq<(CivilDate, Seq<char>)>) -> bool {
    &&& cs.len() > 0
    &&& forall|i: int| 0 <= i < cs.len() ==> plain_entry(#[trigger] cs[i])
    &&& in_date_order(cs)
}

/// The lines of joined entry lines, from entry `i` on, are the entry lines.
#[verifier::spinoff_prover]
#[verifier::rlimit(60)]
proof fn lemma_entry_spans(cs: Seq<(CivilDate, Seq<char>)>, i: int)
    requires
        plain_log(cs),
        0 <= i < cs.len(),
    ensures
        line_spans(entries_text(cs), offset(entry_pieces(cs), 2 * i)) == Seq::new(
            (cs.len() - i) as nat,
            |k: int|
                (
                    offset(entry_pieces(cs), 2 * (i + k)),
                    offset(entry_pieces(cs), 2 * (i + k) + 1),
                ),
        ),
    decreases cs.len() - i,
{
    let ps = entry_pieces(cs);
    let np = 2 * cs.len() - 1;
    let s = entries_text(cs);
    let from = offset(ps, 2 * i);
    let c = cs[i];
    let e = entry_text(c);
    assert(ps[2 * i] == e);
    lemma_entry_text(c);
    lemma_cat_piece(ps, np, 2 * i);
    let to = offset(ps, 2 * i + 1);
    assert forall|k: int| from <= k < to implies CharClass::NotNewline.has(#[trigger] s[k]) by {
        assert(s[from + (k - from)] == ps[2 * i][k - from]);
        if e[k - from] == '\n' {
            assert(e.contains('\n'));
        }
    }
    assert(s[to - 1] == s[from + (e.len() - 1)]);
    assert(s[from + (e.len() - 1)] == e[e.len() - 1]);
    let want = Seq::new(
        (cs.len() - i) as nat,
        |k: int| (offset(ps, 2 * (i + k)), offset(ps, 2 * (i + k) + 1)),
    );
    if i == cs.len() - 1 {
        assert(to == s.len());
        lemma_run_end_unique(s, from, to, CharClass::NotNewline);
        assert(line_spans(s, from) =~= want);
    } else {
        lemma_cat_piece(ps, np, 2 * i + 1);
        reveal_strlit("\n");
        assert(ps[2 * i + 1] == "\n"@);
        assert(s[to + 0] == ps[2 * i + 1][0]);
        lemma_run_end_unique(s, from, to, CharClass::NotNewline);
        lemma_entry_spans(cs, i + 1);
        assert(2 * (i + 1) == 2 * i + 2);
        assert(line_spans(s, from) =~= want) by {
            assert(line_spans(s, from) == seq![(from, to)] + line_spans(s, to + 1));
            assert forall|k: int| 0 <= k < want.len() implies line_spans(s, from)[k] == want[k] by {
                if k > 0 {
                    assert(2 * (i + 1 + (k - 1)) == 2 * (i + k));
                }
            }
        }
    }
}

/// The number of bytes before entry line `k` of the joined entry lines.
pub open spec fn bytes_before(cs: Seq<(CivilDate, Seq<char>)>, k: int) -> int {
    utf8_len(entries_text(cs).subrange(0, offset(entry_pieces(cs), 2 * k))) as int
}

/// Joined entry lines are made of each line and the line feed after it.
#[verifier::spinoff_prover]
pub proof fn lemma_bytes_before(cs: Seq<(CivilDate, Seq<char>)>, k: int)
    requires
        plain_log(cs),
        0 <= k < cs.len(),
    ensures
        k == 0 ==> bytes_before(cs, k) == 0,
        k + 1 < cs.len() ==> bytes_before(cs, k + 1) == bytes_before(cs, k) + utf8_len(
            entry_text(cs[k]),
        ) + 1,
        k + 1 == cs.len() ==> utf8_len(entries_text(cs)) == bytes_before(cs, k) + utf8_len(
            entry_text(cs[k]),
        ),
        entries_text(cs).subrange(
            offset(entry_pieces(cs), 2 * k),
            offset(entry_pieces(cs), 2 * k + 1),
        ) == entry_text(cs[k]),
{
    let ps = entry_pieces(cs);
    let np = 2 * cs.len() - 1;
    let s = entries_text(cs);
    let a = offset(ps, 2 * k);
    let b = offset(ps, 2 * k + 1);
    let e = entry_text(cs[k]);
    lemma_cat_piece(ps, np, 2 * k);
    assert(ps[2 * k] == e);
    assert(s.subrange(a, b) =~= e) by {
        assert forall|m: int| 0 <= m < e.len() implies s.subrange(a, b)[m] == e[m] by {
            assert(s[a + m] == ps[2 * k][m]);
        }
    }
    if k == 0 {
        assert(offset(ps, 0) == 0);
        assert(s.subrange(0, 0) =~= Seq::<char>::empty());
    }
    assert(s.subrange(0, b) =~= s.subrange(0, a) + e);
    lemma_utf8_len_add(s.subrange(0, a), e);
    if k + 1 < cs.len() {
        lemma_cat_piece(ps, np, 2 * k + 1);
        reveal_strlit("\n");
        assert(ps[2 * k + 1] == "\n"@);
        assert(s[b + 0] == ps[2 * k + 1][0]);
        assert(2 * (k + 1) == 2 * k + 2);
        assert(s.subrange(0, b + 1) =~= s.subrange(0, b) + seq!['\n']);
        lemma_utf8_len_add(s.subrange(0, b), seq!['\n']);
        lemma_utf8_len_newline();
    } else {
        assert(b == s.len());
        assert(s.subrange(0, b) =~= s);
    }
}

/// The reading state after the entry lines `k..` of a tail that ends with joined entry lines,
/// after `pre` bytes of other text, read from the bottom up: nothing has ended the entries, the
/// entries read are those lines' entries from the bottom up, and the entries are to start at
/// the line feed before line `k`.
pub open spec fn log_state_ok(cs: Seq<(CivilDate, Seq<char>)>, k: int, pre: int, st: ChangeScan) -> bool {
    &&& !st.saw_end
    &&& st.bottom == (k == cs.len())
    &&& st.changes == cs.subrange(k, cs.len() as int).reverse()
    &&& st.start_of_changes == if k == cs.len() {
        pre + utf8_len(entries_text(cs))
    } else {
        sat_sub(pre + bytes_before(cs, k), 1)
    }
}

/// Whether the lines `spans[b..]` of `tail` are the entry lines of `cs`, one by one, and the
/// last lines of the tail.
pub open spec fn entry_lines_at(cs: Seq<(CivilDate, Seq<char>)>, tail: Seq<char>, spans: Seq<(int, int)>, b: int) -> bool {
    &&& 0 <= b
    &&& spans.len() == b + cs.len()
    &&& forall|i: int|
        0 <= i < cs.len() ==> tail.subrange(spans[b + i].0, spans[b + i].1) == entry_text(
            #[trigger] cs[i],
        )
}

/// Reading a tail that ends with joined entry lines, after `pre` bytes of other text, from the
/// bottom up to entry line `k`, finds those lines' entries.
#[verifier::spinoff_prover]
pub proof fn lemma_log_fold(
    cs: Seq<(CivilDate, Seq<char>)>,
    k: int,
    tail: Seq<char>,
    spans: Seq<(int, int)>,
    b: int,
    pre: int,
    source: Seq<char>,
    sb: int,
)
    requires
        plain_log(cs),
        entry_lines_at(cs, tail, spans, b),
        0 <= pre,
        utf8_len(tail) == pre + utf8_len(entries_text(cs)),
        utf8_len(tail) <= usize::MAX,
        0 <= k <= cs.len(),
    ensures
        change_fold(tail, spans, b + k, source, sb) is Ok,
        log_state_ok(cs, k, pre, change_fold(tail, spans, b + k, source, sb)->Ok_0),
    decreases cs.len() - k,
{
    let n = cs.len() as int;
    if k == n {
        assert(cs.subrange(n, n).reverse() =~= Seq::<(CivilDate, Seq<char>)>::empty());
        assert(byte_len(tail) == utf8_len(tail));
    } else {
        lemma_log_fold(cs, k + 1, tail, spans, b, pre, source, sb);
        let st = change_fold(tail, spans, b + k + 1, source, sb)->Ok_0;
        lemma_bytes_before(cs, k);
        let line = tail.subrange(spans[b + k].0, spans[b + k].1);
        let c = cs[k];
        assert(plain_entry(c));
        assert(line == entry_text(c));
        lemma_entry_text(c);
        // the bytes of the line fit, since the lines make up the whole
        if k + 1 < n {
            lemma_bytes_before(cs, k + 1);
        }
        assert(utf8_len(line) <= utf8_len(tail)) by {
            lemma_bytes_before_grows(cs, k);
        }
        assert(byte_len(line) == utf8_len(line));
        assert(!all_ws(line));
        assert(line.subrange(0, line.len() as int) =~= line);
        if k + 1 < n {
            assert(st.changes.last() == cs[k + 1]);
            assert(!date_before(cs[k + 1].0, cs[k].0)) by {
                reveal(in_date_order);
            }
        }
        let next = change_step(st, line, source, sb);
        assert(next is Ok);
        assert(next->Ok_0.changes =~= cs.subrange(k, n).reverse());
    }
}

/// The joined entry lines, on their own, are their entry lines one by one.
pub proof fn lemma_entries_alone(cs: Seq<(CivilDate, Seq<char>)>)
    requires
        plain_log(cs),
    ensures
        entry_lines_at(cs, entries_text(cs), line_spans(entries_text(cs), 0), 0),
{
    let ps = entry_pieces(cs);
    lemma_entry_spans(cs, 0);
    assert(offset(ps, 0) == 0);
    assert forall|i: int| 0 <= i < cs.len() implies entries_text(cs).subrange(
        line_spans(entries_text(cs), 0)[0 + i].0,
        line_spans(entries_text(cs), 0)[0 + i].1,
    ) == entry_text(#[trigger] cs[i]) by {
        lemma_bytes_before(cs, i);
    }
}

/// The bytes before an entry line, and that line, are no more than the whole.
proof fn lemma_bytes_before_grows(cs: Seq<(CivilDate, Seq<char>)>, k: int)
    requires
        plain_log(cs),
        0 <= k < cs.len(),
    ensures
        bytes_before(cs, k) + utf8_len(entry_text(cs[k])) <= utf8_len(entries_text(cs)),
    decreases cs.len() - k,
{
    lemma_bytes_before(cs, k);
    if k + 1 < cs.len() {
        lemma_bytes_before_grows(cs, k + 1);
    }
}

/// A tail that is nothing but written change entries holds those entries, oldest first, and
/// no text before them.
pub proof fn lemma_log_read(cs: Seq<(CivilDate, Seq<char>)>, source: Seq<char>, ts: int)
    requires
        plain_log(cs),
        utf8_len(entries_text(cs)) <= usize::MAX,
        0 <= ts <= source.len(),
        source.subrange(ts, source.len() as int) == entries_text(cs),
    ensures
        tail_and_changes(source, Some(ts)) == Ok::<
            (Option<Seq<char>>, Seq<(CivilDate, Seq<char>)>),
            SpecError,
        >((None, cs)),
{
    let s = entries_text(cs);
    let ps = entry_pieces(cs);
    lemma_entries_alone(cs);
    lemma_log_fold(cs, 0, s, line_spans(s, 0), 0, 0, source, byte_len(source));
    lemma_bytes_before(cs, 0);
    lemma_entry_text(cs[0]);
    lemma_cat_piece(ps, 2 * cs.len() - 1, 0);
    assert(offset(ps, 0) == 0);
    assert(s[offset(ps, 0) + 0] == ps[0][0]);
    lemma_run_end_unique(s, 0, 0, CharClass::Whitespace);
    assert(!all_ws(s));
    let one = s.subrange(0, 1);
    assert(one.drop_last() =~= Seq::<char>::empty());
    assert(utf8_len(one) >= 1);
    assert(char_at_byte(s, 0, 0) == 0);
    let cut = s.subrange(0, 0);
    assert(cut =~= Seq::<char>::empty());
    assert(all_ws(cut));
    assert(cs.subrange(0, cs.len() as int).reverse().reverse() =~= cs);
}

/// The change log as a statement is written out after its paragraphs: nothing for an empty
/// log, else an empty line and the entry lines.
pub open spec fn log_text(cs: Seq<(CivilDate, Seq<char>)>) -> Seq<char> {
    if cs.len() > 0 {
        "\n\n"@ + entries_text(cs)
    } else {
        seq![]
    }
}

/// Whether a change log can be written out and read back: it is empty, or plain (see
/// [`plain_log`]).
pub open spec fn plain_changes(cs: Seq<(CivilDate, Seq<char>)>) -> bool {
    cs.len() == 0 || plain_log(cs)
}

/// Each entry line of a written change log opens its line as the lines of a statement do.
#[verifier::spinoff_prover]
proof fn lemma_opens_at_entry(cs: Seq<(CivilDate, Seq<char>)>, i: int)
    requires
        plain_log(cs),
        0 <= i < cs.len(),
    ensures
        opens_line("\n\n"@ + entries_text(cs), 2 + offset(entry_pieces(cs), 2 * i)),
{
    let ps = entry_pieces(cs);
    let np = 2 * cs.len() - 1;
    let s = entries_text(cs);
    let b = "\n\n"@ + s;
    let e = entry_text(cs[i]);
    let o = offset(ps, 2 * i);
    reveal_strlit("\n\n");
    lemma_entry_text(cs[i]);
    lemma_cat_piece(ps, np, 2 * i);
    assert(ps[2 * i] == e);
    assert(s[o + 0] == e[0]);
    assert(s[o + 1] == e[1]);
    assert(b[2 + o] == s[o]);
    assert(b[2 + o + 1] == s[o + 1]);
    lemma_opens_line(b, 2 + o);
}

/// A line feed within joined entry lines is followed by the next entry line, which opens its
/// line as the lines of a statement do.
#[verifier::spinoff_prover]
#[verifier::rlimit(40)]
proof fn lemma_entries_break(cs: Seq<(CivilDate, Seq<char>)>, i: int)
    requires
        plain_log(cs),
        0 <= i < entries_text(cs).len(),
        entries_text(cs)[i] == '\n',
    ensures
        opens_line("\n\n"@ + entries_text(cs), i + 3),
{
    let ps = entry_pieces(cs);
    let np = 2 * cs.len() - 1;
    let s = entries_text(cs);
    let k = lemma_cat_locate(ps, np, i);
    lemma_cat_piece(ps, np, k);
    let m = i - offset(ps, k);
    assert(ps[k][m] == '\n') by {
        assert(s[offset(ps, k) + m] == ps[k][m]);
    }
    let h = k / 2;
    if k == 2 * h {
        assert(ps[k] == entry_text(cs[h]));
        assert(ps[k].contains('\n'));
        assert(false) by {
            lemma_entry_text(cs[h]);
        }
    } else {
        assert(k == 2 * h + 1);
        assert(ps[k] == "\n"@);
        assert(m == 0) by {
            reveal_strlit("\n");
        }
        assert(offset(ps, k + 1) == i + 1) by {
            reveal_strlit("\n");
        }
        assert(k + 1 == 2 * (h + 1));
        lemma_opens_at_entry(cs, h + 1);
    }
}

/// The line feeds of a written change log, from the empty line before it on, open lines as
/// the lines of a statement do.
#[verifier::spinoff_prover]
pub proof fn lemma_log_breaks(cs: Seq<(CivilDate, Seq<char>)>)
    requires
        plain_log(cs),
    ensures
        breaks_open_lines("\n\n"@ + entries_text(cs)),
        ("\n\n"@ + entries_text(cs)).len() >= 3,
        !is_ws(("\n\n"@ + entries_text(cs))[2]),
{
    let ps = entry_pieces(cs);
    let np = 2 * cs.len() - 1;
    let s = entries_text(cs);
    let b = "\n\n"@ + s;
    reveal_strlit("\n\n");
    assert(b[0] == '\n' && b[1] == '\n');
    assert(opens_line(b, 2)) by {
        lemma_opens_at_entry(cs, 0);
        assert(offset(ps, 0) == 0);
    }
    assert(!is_ws(b[2])) by {
        lemma_entry_text(cs[0]);
        lemma_cat_piece(ps, np, 0);
        assert(offset(ps, 0) == 0);
        assert(s[offset(ps, 0) + 0] == ps[0][0]);
    }
    assert forall|j: int| 0 <= j < b.len() && #[trigger] b[j] == '\n' implies opens_line(b, j + 1) || (j
        + 1 < b.len() && b[j + 1] == '\n' && opens_line(b, j + 2)) by {
        if j >= 2 {
            assert(s[j - 2] == b[j]);
            lemma_entries_break(cs, j - 2);
        }
    }
}

} // verus!
