//! Reading back what is written: a statement written out by `YAdr::to_string` is read by the
//! statement grammar as the fields it was written from.
use vstd::prelude::*;
use crate::text::{
    CharClass, run_end, run_start, has_at, lemma_run_end, lemma_run_end_unique, is_space, is_blank,
    is_ws, trim, trim_start, trim_end, word_char, count_char, utf8_len, lemma_run_end_after,
    lemma_run_end_before, lemma_run_start, sat_add,
};
use crate::yadr::{SpecYAdr, paragraphs_text, spec_parse_block, field};
use crate::block::tail_and_changes;
use crate::statement::{
    cut_at, next_cut, line_start, yadr_at, next_yadr, yadr_word, spec_statements_in_comment,
    statements_from, part_outcome, PartOutcome, SpecSource, cut_body, yadr_end,
};
use crate::yadr::{render, spec_parse, spec_tidy};
use crate::readback_tail::{plain_tail, lemma_tail_read, lemma_tail_breaks};
use crate::readback_log::{
    entries_text, log_text, plain_changes, lemma_log_breaks, lemma_log_read, lemma_change_lines_joined,
    lemma_utf8_len_add,
};
use crate::date::jiff_date;
use crate::error::SpecError;
use crate::grammar::{
    SpecTemplate, SpecTok, match_tok, match_toks, feasible, first_feasible,
    last_feasible, chosen_field, chosen_from, spec_read, ending_ok, ending_tail, only_spaces_after,
    lemma_some_feasible, lemma_first_feasible, lemma_last_feasible, lemma_match_toks_bounds,
    para_break_end, spec_conn_in_context, spec_conn_we_faced, spec_conn_we_decided,
    spec_conn_and_neglected, spec_conn_we_did, spec_conn_accepting, spec_conn_we_think,
    spec_conn_full_stop, statement_template, lemma_statement_template_shape,
};

verus! {

/// A plan for reading `t` as an instance of `tpl`: connector `i` runs from `s[i]` to `e[i]`;
/// every connector but the last is followed by exactly one space character and then by its
/// field, which runs up to the next connector and holds no earlier match of it; and the text
/// may end where the last connector ends.
#[verifier::opaque]
pub open spec fn laid_out(tpl: SpecTemplate, t: Seq<char>, s: Seq<int>, e: Seq<int>) -> bool {
    let n = tpl.connectors.len();
    &&& n >= 1
    &&& s.len() == n
    &&& e.len() == n
    &&& forall|i: int| 0 <= i < n ==> 0 <= #[trigger] s[i] <= t.len()
    &&& forall|i: int|
        0 <= i < n ==> match_toks(t, s[i], #[trigger] tpl.connectors[i]) == Some(e[i])
    &&& forall|i: int|
        0 <= i < n - 1 ==> run_end(t, #[trigger] e[i], CharClass::AsciiSpace) == e[i] + 1
    &&& forall|j: int| 1 <= j < n ==> #[trigger] s[j] >= e[j - 1] + 2
    &&& forall|j: int, q: int|
        1 <= j < n && e[j - 1] + 2 <= q < s[j] ==> !#[trigger] feasible(tpl, t, j, q)
    &&& ending_ok(t, e[n - 1], tpl.open_ending)
}

/// The fields of a plan from connector `i` on: each from one past the end of its connector to
/// the start of the next.
pub open spec fn planned_fields(s: Seq<int>, e: Seq<int>, i: int) -> Seq<(int, int)> {
    Seq::new((s.len() - 1 - i) as nat, |k: int| (e[i + k] + 1, s[i + k + 1]))
}

/// Every connector of a plan can be read from where the plan starts it.
proof fn lemma_plan_feasible(tpl: SpecTemplate, t: Seq<char>, s: Seq<int>, e: Seq<int>, i: int)
    requires
        laid_out(tpl, t, s, e),
        0 <= i < tpl.connectors.len(),
    ensures
        feasible(tpl, t, i, s[i]),
    decreases tpl.connectors.len() - i,
{
    reveal(laid_out);
    let n = tpl.connectors.len();
    assert(match_toks(t, s[i], tpl.connectors[i]) == Some(e[i]));
    if i < n - 1 {
        lemma_plan_feasible(tpl, t, s, e, i + 1);
        lemma_match_toks_bounds(t, s[i], tpl.connectors[i]);
        assert(run_end(t, e[i], CharClass::AsciiSpace) == e[i] + 1);
        assert(s[i + 1] >= e[i] + 2);
        assert(0 <= s[i + 1] <= t.len());
        lemma_some_feasible(tpl, t, i + 1, e[i] + 2);
        assert(e[i] + 2 <= s[i + 1] <= t.len() && feasible(tpl, t, i + 1, s[i + 1]));
    }
}

/// After connector `j - 1`, the first place connector `j` can be read from is where the plan
/// starts it.
proof fn lemma_plan_first(tpl: SpecTemplate, t: Seq<char>, s: Seq<int>, e: Seq<int>, j: int)
    requires
        laid_out(tpl, t, s, e),
        1 <= j < tpl.connectors.len(),
    ensures
        first_feasible(tpl, t, j, e[j - 1] + 2) == s[j],
{
    reveal(laid_out);
    assert(s[j] >= e[j - 1] + 2);
    assert(0 <= s[j] <= t.len());
    lemma_first_feasible(tpl, t, j, e[j - 1] + 2);
    lemma_plan_feasible(tpl, t, s, e, j);
    let f = first_feasible(tpl, t, j, e[j - 1] + 2);
    if f < s[j] {
        assert(!feasible(tpl, t, j, f));
    }
}

/// The last place connector `j` can be read from is no earlier than where the plan starts it.
proof fn lemma_plan_last(tpl: SpecTemplate, t: Seq<char>, s: Seq<int>, e: Seq<int>, j: int)
    requires
        laid_out(tpl, t, s, e),
        1 <= j < tpl.connectors.len(),
    ensures
        last_feasible(tpl, t, j, t.len() as int) >= s[j],
{
    reveal(laid_out);
    assert(0 <= s[j] <= t.len());
    lemma_last_feasible(tpl, t, j, t.len() as int);
    lemma_plan_feasible(tpl, t, s, e, j);
}

/// Reading from connector `i` of a plan chooses the planned fields, and ends where the last
/// connector ends.
proof fn lemma_plan_chosen(tpl: SpecTemplate, t: Seq<char>, s: Seq<int>, e: Seq<int>, i: int)
    requires
        laid_out(tpl, t, s, e),
        0 <= i < tpl.connectors.len(),
    ensures
        chosen_from(tpl, t, i, s[i]) == (planned_fields(s, e, i), e[tpl.connectors.len() - 1]),
    decreases tpl.connectors.len() - i,
{
    reveal(laid_out);
    let n = tpl.connectors.len();
    assert(match_toks(t, s[i], tpl.connectors[i]) == Some(e[i]));
    if i == n - 1 {
        assert(planned_fields(s, e, i) =~= Seq::<(int, int)>::empty());
    } else {
        lemma_plan_chosen(tpl, t, s, e, i + 1);
        lemma_plan_first(tpl, t, s, e, i + 1);
        lemma_plan_last(tpl, t, s, e, i + 1);
        assert(run_end(t, e[i], CharClass::AsciiSpace) == e[i] + 1);
        assert(s[i + 1] >= e[i] + 2);
        let f = chosen_field(tpl, t, i, e[i]);
        assert(f == (e[i] + 1, s[i + 1]));
        let rest = chosen_from(tpl, t, i + 1, s[i + 1]);
        assert(planned_fields(s, e, i) =~= seq![f] + planned_fields(s, e, i + 1));
    }
}

/// A text laid out by a plan from its start is read as the planned fields.
pub proof fn lemma_plan_read(tpl: SpecTemplate, t: Seq<char>, s: Seq<int>, e: Seq<int>)
    requires
        laid_out(tpl, t, s, e),
        s[0] == 0,
    ensures
        spec_read(tpl, t) == Some(
            (
                planned_fields(s, e, 0),
                if tpl.open_ending && !only_spaces_after(t, e[tpl.connectors.len() - 1]) {
                    ending_tail(t, e[tpl.connectors.len() - 1])
                } else {
                    None
                },
            ),
        ),
{
    reveal(laid_out);
    lemma_plan_feasible(tpl, t, s, e, 0);
    lemma_plan_chosen(tpl, t, s, e, 0);
}

/// What a token is written as: its characters, nothing, one space, or two line feeds.
pub open spec fn piece(tok: SpecTok) -> Seq<char> {
    match tok {
        SpecTok::Lit(w) => w,
        SpecTok::Spaces0 => seq![],
        SpecTok::Spaces1 => seq![' '],
        SpecTok::ParaBreak => seq!['\n', '\n'],
    }
}

/// What a run of tokens is written as.
pub open spec fn canon(toks: Seq<SpecTok>) -> Seq<char>
    decreases toks.len(),
{
    if toks.len() == 0 {
        seq![]
    } else {
        piece(toks[0]) + canon(toks.drop_first())
    }
}

/// Whether `c` can stand where a run of spaces, tabs or line breaks ends.
pub open spec fn word_start(c: char) -> bool {
    !is_space(c) && !is_blank(c)
}

/// Whether every literal of `toks` is non-empty and starts with a character that no space
/// token takes, and every space token is followed by a literal.
pub open spec fn well_spaced(toks: Seq<SpecTok>) -> bool
    decreases toks.len(),
{
    if toks.len() == 0 {
        true
    } else {
        &&& match toks[0] {
            SpecTok::Lit(w) => w.len() > 0 && word_start(w[0]),
            _ => toks.len() > 1 && toks[1] is Lit,
        }
        &&& well_spaced(toks.drop_first())
    }
}

/// Tokens that are well spaced match their own written form, wherever it stands.
#[verifier::spinoff_prover]
pub proof fn lemma_match_canon(t: Seq<char>, p: int, toks: Seq<SpecTok>)
    requires
        well_spaced(toks),
        has_at(t, p, canon(toks)),
    ensures
        match_toks(t, p, toks) == Some(p + canon(toks).len()),
    decreases toks.len(),
{
    if toks.len() > 0 {
        let rest = toks.drop_first();
        let w = piece(toks[0]);
        let c = canon(toks);
        assert(c == w + canon(rest));
        assert(t.subrange(p, p + c.len()) == c);
        assert forall|k: int| 0 <= k < c.len() implies t[p + k] == #[trigger] c[k] by {
            assert(t.subrange(p, p + c.len())[k] == t[p + k]);
        }
        assert(has_at(t, p + w.len(), canon(rest))) by {
            assert(t.subrange(p + w.len(), p + w.len() + canon(rest).len()) =~= canon(rest)) by {
                assert forall|k: int| 0 <= k < canon(rest).len() implies t.subrange(
                    p + w.len(),
                    p + w.len() + canon(rest).len(),
                )[k] == canon(rest)[k] by {
                    assert(c[w.len() + k] == canon(rest)[k]);
                }
            }
        }
        assert(well_spaced(rest));
        if rest.len() > 0 {
            if let SpecTok::Lit(v) = rest[0] {
                assert(canon(rest) == v + canon(rest.drop_first()));
                assert(canon(rest)[0] == v[0]);
                assert(c[w.len() as int] == v[0]);
            }
        }
        match toks[0] {
            SpecTok::Lit(v) => {
                assert(t.subrange(p, p + v.len()) =~= v) by {
                    assert forall|k: int| 0 <= k < v.len() implies t.subrange(p, p + v.len())[k]
                        == v[k] by {
                        assert(c[k] == v[k]);
                    }
                }
                assert(match_tok(t, p, toks[0]) == Some(p + v.len()));
            },
            SpecTok::Spaces0 => {
                lemma_run_end_unique(t, p, p, CharClass::AsciiSpace);
                assert(match_tok(t, p, toks[0]) == Some(p));
            },
            SpecTok::Spaces1 => {
                assert(c[0] == ' ');
                assert(t[p] == ' ');
                lemma_run_end_unique(t, p, p + 1, CharClass::AsciiSpace);
                assert(match_tok(t, p, toks[0]) == Some(p + 1));
            },
            SpecTok::ParaBreak => {
                assert(c[0] == '\n' && c[1] == '\n');
                assert(t[p] == '\n');
                assert(t[p + 1] == '\n');
                lemma_run_end_unique(t, p, p, CharClass::Blank);
                lemma_run_end_unique(t, p + 1, p + 1, CharClass::Blank);
                lemma_run_end_unique(t, p + 2, p + 2, CharClass::Blank);
                assert(para_break_end(t, p) == Some(p + 2));
                assert(match_tok(t, p, toks[0]) == Some(p + 2));
            },
        }
        lemma_match_canon(t, p + w.len(), rest);
    }
}

/// The connectors of a statement are well spaced.
proof fn lemma_connectors_spaced()
    ensures
        well_spaced(spec_conn_in_context().drop_first()),
        well_spaced(spec_conn_we_faced()),
        well_spaced(spec_conn_we_decided()),
        well_spaced(spec_conn_and_neglected()),
        well_spaced(spec_conn_we_did()),
        well_spaced(spec_conn_accepting()),
        well_spaced(spec_conn_we_think()),
        well_spaced(spec_conn_full_stop()),
        spec_conn_in_context()[0] == SpecTok::Spaces0,
{
    reveal_with_fuel(well_spaced, 18);
}

/// The opening connectors of the paragraphs are written as the words a statement is written
/// with.
proof fn lemma_openings_written()
    ensures
        canon(spec_conn_in_context().drop_first()) + seq![' '] == "In the context of "@,
        canon(spec_conn_we_decided()) + seq![' '] == ".\n\nWe decided for "@,
        canon(spec_conn_we_did()) + seq![' '] == ".\n\nWe did this to achieve "@,
        canon(spec_conn_we_think()) + seq![' '] == ".\n\nWe think this is the right trade-off because "@,
{
    reveal_with_fuel(canon, 18);
    reveal_strlit("In the context of ");
    reveal_strlit(".\n\nWe decided for ");
    reveal_strlit(".\n\nWe did this to achieve ");
    reveal_strlit(".\n\nWe think this is the right trade-off because ");
    assert(canon(spec_conn_in_context().drop_first()) + seq![' '] =~= "In the context of "@);
    assert(canon(spec_conn_we_decided()) + seq![' '] =~= ".\n\nWe decided for "@);
    assert(canon(spec_conn_we_did()) + seq![' '] =~= ".\n\nWe did this to achieve "@);
    assert(canon(spec_conn_we_think()) + seq![' '] =~= ".\n\nWe think this is the right trade-off because "@);
}

/// The connectors within the paragraphs are written as the words a statement is written with.
proof fn lemma_joins_written()
    ensures
        canon(spec_conn_we_faced()) + seq![' '] == ", we faced "@,
        canon(spec_conn_and_neglected()) + seq![' '] == ", and neglected "@,
        canon(spec_conn_accepting()) + seq![' '] == ", accepting "@,
{
    reveal_with_fuel(canon, 8);
    reveal_strlit(", we faced ");
    reveal_strlit(", and neglected ");
    reveal_strlit(", accepting ");
    assert(canon(spec_conn_we_faced()) + seq![' '] =~= ", we faced "@);
    assert(canon(spec_conn_and_neglected()) + seq![' '] =~= ", and neglected "@);
    assert(canon(spec_conn_accepting()) + seq![' '] =~= ", accepting "@);
}

/// The pieces `ps[..n]` one after the other.
pub open spec fn cat(ps: Seq<Seq<char>>, n: int) -> Seq<char>
    decreases n,
{
    if n <= 0 {
        seq![]
    } else {
        cat(ps, n - 1) + ps[n - 1]
    }
}

/// Where piece `k` starts when the pieces are written one after the other.
pub open spec fn offset(ps: Seq<Seq<char>>, k: int) -> int {
    cat(ps, k).len() as int
}

/// Piece `k` stands at its offset in the pieces written one after the other.
pub proof fn lemma_cat_piece(ps: Seq<Seq<char>>, n: int, k: int)
    requires
        0 <= k < n <= ps.len(),
    ensures
        offset(ps, k + 1) == offset(ps, k) + ps[k].len(),
        offset(ps, k + 1) <= cat(ps, n).len(),
        forall|m: int| 0 <= m < ps[k].len() ==> cat(ps, n)[offset(ps, k) + m] == #[trigger] ps[k][m],
    decreases n,
{
    if n > k + 1 {
        lemma_cat_piece(ps, n - 1, k);
        assert forall|m: int| 0 <= m < ps[k].len() implies cat(ps, n)[offset(ps, k) + m]
            == #[trigger] ps[k][m] by {
            assert(cat(ps, n)[offset(ps, k) + m] == cat(ps, n - 1)[offset(ps, k) + m]);
        }
    } else {
        assert forall|m: int| 0 <= m < ps[k].len() implies cat(ps, n)[offset(ps, k) + m]
            == #[trigger] ps[k][m] by {
        }
    }
}

/// Whether, from `p` on, `f` holds an empty line: spaces and tabs, a line feed, spaces and
/// tabs, and a line feed.
pub open spec fn two_breaks(f: Seq<char>, p: int) -> bool {
    let a = run_end(f, p, CharClass::Blank);
    let b = run_end(f, a + 1, CharClass::Blank);
    &&& a < f.len()
    &&& f[a] == '\n'
    &&& b < f.len()
    &&& f[b] == '\n'
}

/// Whether a paragraph field that a full stop follows is written plainly enough to be read
/// back: it is not empty, does not start with an ASCII space character, no full stop in it is
/// followed by an empty line, and its line feeds open lines as a statement's lines do (see
/// [`breaks_open_lines`]), the full stop after it counted.
pub open spec fn plain_sentence(f: Seq<char>) -> bool {
    &&& f.len() > 0
    &&& !is_space(f[0])
    &&& forall|q: int| 0 <= q < f.len() && #[trigger] f[q] == '.' ==> !two_breaks(f, q + 1)
    &&& breaks_open_lines(f + seq!['.'])
}

/// A run of spaces and tabs that starts within a field written as piece `k`, followed by a
/// piece that starts with a full stop, ends where it ends in the field alone, or at that full
/// stop.
proof fn lemma_blanks_in_field(ps: Seq<Seq<char>>, n: int, k: int, p: int)
    requires
        0 <= k,
        k + 1 < n <= ps.len(),
        ps[k + 1].len() > 0,
        ps[k + 1][0] == '.',
        0 <= p <= ps[k].len(),
    ensures
        run_end(cat(ps, n), offset(ps, k) + p, CharClass::Blank) == offset(ps, k) + run_end(
            ps[k],
            p,
            CharClass::Blank,
        ),
        run_end(ps[k], p, CharClass::Blank) < ps[k].len() ==> cat(ps, n)[offset(ps, k) + run_end(
            ps[k],
            p,
            CharClass::Blank,
        )] == ps[k][run_end(ps[k], p, CharClass::Blank)],
        offset(ps, k + 1) < cat(ps, n).len(),
        cat(ps, n)[offset(ps, k + 1)] == '.',
        offset(ps, k + 1) == offset(ps, k) + ps[k].len(),
{
    let t = cat(ps, n);
    let f = ps[k];
    let o = offset(ps, k);
    lemma_cat_piece(ps, n, k);
    lemma_cat_piece(ps, n, k + 1);
    assert(t[offset(ps, k + 1) + 0] == ps[k + 1][0]);
    lemma_run_end(f, p, CharClass::Blank);
    let a = run_end(f, p, CharClass::Blank);
    assert forall|m: int| o + p <= m < o + a implies CharClass::Blank.has(#[trigger] t[m]) by {
        assert(t[o + (m - o)] == f[m - o]);
    }
    if a < f.len() {
        assert(t[o + a] == f[a]);
    }
    lemma_run_end_unique(t, o + p, o + a, CharClass::Blank);
}

/// Whether a paragraph field that a comma follows is written plainly enough to be read back:
/// it is not empty, does not start with an ASCII space character, and its line feeds open lines
/// as a statement's lines do (see [`breaks_open_lines`]), the comma after it counted.
pub open spec fn plain_clause(f: Seq<char>) -> bool {
    &&& f.len() > 0
    &&& !is_space(f[0])
    &&& breaks_open_lines(f + seq![','])
}

/// A connector written as piece `k`, followed by one space and a field as piece `k + 1` that
/// does not start with an ASCII space character, is matched where it is written, and the space
/// after it is a single one.
proof fn lemma_connector_piece(ps: Seq<Seq<char>>, n: int, k: int, conn: Seq<SpecTok>)
    requires
        0 <= k,
        k + 1 < n <= ps.len(),
        well_spaced(conn),
        ps[k] == canon(conn) + seq![' '],
        ps[k + 1].len() > 0,
        !is_space(ps[k + 1][0]),
    ensures
        match_toks(cat(ps, n), offset(ps, k), conn) == Some(offset(ps, k) + canon(conn).len()),
        run_end(cat(ps, n), offset(ps, k) + canon(conn).len(), CharClass::AsciiSpace) == offset(
            ps,
            k,
        ) + canon(conn).len() + 1,
        offset(ps, k + 1) == offset(ps, k) + canon(conn).len() + 1,
        offset(ps, k + 2) == offset(ps, k + 1) + ps[k + 1].len(),
        offset(ps, k + 2) <= cat(ps, n).len(),
{
    let t = cat(ps, n);
    let o = offset(ps, k);
    let c = canon(conn);
    lemma_cat_piece(ps, n, k);
    lemma_cat_piece(ps, n, k + 1);
    assert(t.subrange(o, o + c.len()) =~= c) by {
        assert forall|m: int| 0 <= m < c.len() implies t.subrange(o, o + c.len())[m] == c[m] by {
            assert(ps[k][m] == c[m]);
        }
    }
    lemma_match_canon(t, o, conn);
    assert(ps[k][c.len() as int] == ' ');
    assert(t[o + c.len()] == ' ');
    assert(ps[k + 1][0] == ps[k + 1][0]);
    assert(t[o + c.len() + 1] == ps[k + 1][0]);
    lemma_run_end_unique(t, o + c.len(), o + c.len() + 1, CharClass::AsciiSpace);
}

/// Whether no token of `toks` can take a comma: each is a run of spaces or a literal without
/// one.
pub open spec fn comma_free(toks: Seq<SpecTok>) -> bool
    decreases toks.len(),
{
    if toks.len() == 0 {
        true
    } else {
        &&& match toks[0] {
            SpecTok::Lit(w) => !w.contains(','),
            SpecTok::ParaBreak => false,
            _ => true,
        }
        &&& comma_free(toks.drop_first())
    }
}

/// Whether the connector `conn` can be read nowhere within `f` on its own.
pub open spec fn no_reading_in(f: Seq<char>, conn: Seq<SpecTok>) -> bool {
    forall|q: int| 0 <= q < f.len() ==> #[trigger] match_toks(f, q, conn) is None
}

/// Comma-free tokens read within a stretch `y` of `x` that is followed by a comma read the same
/// within `y` on its own: they cannot reach past the comma.
proof fn lemma_local_match(x: Seq<char>, y: Seq<char>, o: int, p: int, toks: Seq<SpecTok>)
    requires
        0 <= o,
        o + y.len() < x.len(),
        forall|m: int| 0 <= m < y.len() ==> x[o + m] == #[trigger] y[m],
        x[o + y.len()] == ',',
        comma_free(toks),
        o <= p <= o + y.len(),
    ensures
        match_toks(x, p, toks) matches Some(e) ==> match_toks(y, p - o, toks) == Some(e - o),
    decreases toks.len(),
{
    if toks.len() > 0 {
        let rest = toks.drop_first();
        let end = o + y.len();
        match toks[0] {
            SpecTok::Lit(w) => {
                if has_at(x, p, w) {
                    if p + w.len() > end {
                        assert(x.subrange(p, p + w.len())[end - p] == x[end]);
                        assert(w.contains(','));
                    }
                    assert(y.subrange(p - o, p - o + w.len()) =~= w) by {
                        assert forall|m: int| 0 <= m < w.len() implies y.subrange(
                            p - o,
                            p - o + w.len(),
                        )[m] == w[m] by {
                            assert(x.subrange(p, p + w.len())[m] == x[p + m]);
                            assert(x[o + (p - o + m)] == y[p - o + m]);
                        }
                    }
                    lemma_local_match(x, y, o, p + w.len(), rest);
                }
            },
            SpecTok::ParaBreak => {},
            _ => {
                lemma_run_end(x, p, CharClass::AsciiSpace);
                let e = run_end(x, p, CharClass::AsciiSpace);
                if e > end {
                    assert(CharClass::AsciiSpace.has(x[end]));
                }
                assert forall|m: int| p - o <= m < e - o implies CharClass::AsciiSpace.has(
                    #[trigger] y[m],
                ) by {
                    assert(x[o + m] == y[m]);
                }
                if e < end {
                    assert(x[o + (e - o)] == y[e - o]);
                }
                lemma_run_end_unique(y, p - o, e - o, CharClass::AsciiSpace);
                lemma_local_match(x, y, o, e, rest);
            },
        }
    }
}

/// A connector that starts with a comma, and whose other tokens cannot take one, can be read
/// nowhere inside a field written as piece `k` and followed by a comma, if it can be read
/// nowhere within the field on its own.
proof fn lemma_comma_blocked(ps: Seq<Seq<char>>, n: int, k: int, conn: Seq<SpecTok>, q: int)
    requires
        0 <= k,
        k + 1 < n <= ps.len(),
        conn.len() > 0,
        conn[0] == SpecTok::Lit(seq![',']),
        comma_free(conn.drop_first()),
        ps[k + 1].len() > 0,
        ps[k + 1][0] == ',',
        no_reading_in(ps[k], conn),
        offset(ps, k) <= q < offset(ps, k + 1),
    ensures
        match_toks(cat(ps, n), q, conn) is None,
{
    let t = cat(ps, n);
    let o = offset(ps, k);
    let f = ps[k];
    lemma_cat_piece(ps, n, k);
    lemma_cat_piece(ps, n, k + 1);
    assert(t[offset(ps, k + 1) + 0] == ps[k + 1][0]);
    if has_at(t, q, seq![',']) {
        assert(t.subrange(q, q + 1)[0] == t[q]);
        let m = q - o;
        assert(t[o + m] == f[m]);
        assert(has_at(f, m, seq![','])) by {
            assert(f.subrange(m, m + 1) =~= seq![',']);
        }
        assert(match_tok(t, q, conn[0]) == Some(q + 1));
        assert(match_tok(f, m, conn[0]) == Some(m + 1));
        lemma_local_match(t, f, o, q + 1, conn.drop_first());
        assert(match_toks(f, m, conn) is None);
    }
}

/// After a full stop within a field written as piece `k`, where the field holds no empty line
/// after any full stop and is followed by a piece that starts with a full stop, the written
/// pieces hold no empty line either.
proof fn lemma_no_break_after_stop(ps: Seq<Seq<char>>, n: int, k: int, q: int)
    requires
        0 <= k,
        k + 1 < n <= ps.len(),
        forall|i: int| 0 <= i < ps[k].len() && #[trigger] ps[k][i] == '.' ==> !two_breaks(ps[k], i + 1),
        ps[k + 1].len() > 0,
        ps[k + 1][0] == '.',
        offset(ps, k) <= q < offset(ps, k + 1),
        cat(ps, n)[q] == '.',
    ensures
        !two_breaks(cat(ps, n), q + 1),
{
    let t = cat(ps, n);
    let f = ps[k];
    let o = offset(ps, k);
    lemma_cat_piece(ps, n, k);
    let m = q - o;
    assert(t[o + m] == f[m]);
    lemma_blanks_in_field(ps, n, k, m + 1);
    lemma_run_end(f, m + 1, CharClass::Blank);
    let af = run_end(f, m + 1, CharClass::Blank);
    assert(o + (m + 1) == q + 1);
    if af < f.len() && f[af] == '\n' {
        lemma_blanks_in_field(ps, n, k, af + 1);
        lemma_run_end(f, af + 1, CharClass::Blank);
        assert(o + af + 1 == o + (af + 1));
        assert(!two_breaks(f, m + 1));
    }
}

/// A connector that starts with a full stop and a paragraph break matches nowhere inside a
/// field that holds no empty line after a full stop and is followed by a full stop.
proof fn lemma_break_blocked(ps: Seq<Seq<char>>, n: int, k: int, conn: Seq<SpecTok>, q: int)
    requires
        0 <= k,
        k + 1 < n <= ps.len(),
        conn.len() > 1,
        conn[0] == SpecTok::Lit(seq!['.']),
        conn[1] == SpecTok::ParaBreak,
        forall|i: int| 0 <= i < ps[k].len() && #[trigger] ps[k][i] == '.' ==> !two_breaks(ps[k], i + 1),
        ps[k + 1].len() > 0,
        ps[k + 1][0] == '.',
        offset(ps, k) <= q < offset(ps, k + 1),
    ensures
        match_toks(cat(ps, n), q, conn) is None,
{
    let t = cat(ps, n);
    lemma_cat_piece(ps, n, k);
    if has_at(t, q, seq!['.']) {
        assert(t.subrange(q, q + 1)[0] == t[q]);
        lemma_no_break_after_stop(ps, n, k, q);
        let rest = conn.drop_first();
        assert(rest[0] == SpecTok::ParaBreak);
        assert(para_break_end(t, q + 1) is None);
        assert(match_toks(t, q + 1, rest) is None);
    }
}

/// The closing full stop, where the text may end, is not found inside a field that holds no
/// empty line after a full stop and is written just before it.
proof fn lemma_stop_blocked(ps: Seq<Seq<char>>, n: int, k: int, conn: Seq<SpecTok>, q: int)
    requires
        0 <= k,
        k + 2 <= n <= ps.len(),
        conn == seq![SpecTok::Lit(seq!['.'])],
        forall|i: int| 0 <= i < ps[k].len() && #[trigger] ps[k][i] == '.' ==> !two_breaks(ps[k], i + 1),
        ps[k + 1] == seq!['.'],
        offset(ps, k) <= q < offset(ps, k + 1),
    ensures
        match_toks(cat(ps, n), q, conn) matches Some(a) ==> !ending_ok(cat(ps, n), a, true),
{
    let t = cat(ps, n);
    lemma_cat_piece(ps, n, k);
    lemma_cat_piece(ps, n, k + 1);
    if has_at(t, q, seq!['.']) {
        assert(t.subrange(q, q + 1)[0] == t[q]);
        assert(match_tok(t, q, conn[0]) == Some(q + 1));
        assert(conn.drop_first() =~= Seq::<SpecTok>::empty());
        assert(match_toks(t, q + 1, conn.drop_first()) == Some(q + 1));
        assert(match_toks(t, q, conn) == Some(q + 1));
        lemma_no_break_after_stop(ps, n, k, q);
        lemma_run_end(t, q + 1, CharClass::AsciiSpace);
        assert(t[offset(ps, k + 1) + 0] == ps[k + 1][0]);
        if run_end(t, q + 1, CharClass::AsciiSpace) == t.len() {
            assert(CharClass::AsciiSpace.has(t[offset(ps, k + 1)]));
        }
        assert(ending_tail(t, q + 1) is None);
    }
}

/// Piece `k` can be cut back out of the pieces written one after the other.
proof fn lemma_cut_piece(ps: Seq<Seq<char>>, n: int, k: int)
    requires
        0 <= k < n <= ps.len(),
    ensures
        cat(ps, n).subrange(offset(ps, k), offset(ps, k + 1)) == ps[k],
{
    lemma_cat_piece(ps, n, k);
    assert(cat(ps, n).subrange(offset(ps, k), offset(ps, k + 1)) =~= ps[k]) by {
        assert forall|m: int| 0 <= m < ps[k].len() implies cat(ps, n).subrange(
            offset(ps, k),
            offset(ps, k + 1),
        )[m] == ps[k][m] by {}
    }
}

/// Whether the pieces `ps` are the written form of a statement's paragraphs for the
/// connectors `c`: a line feed, then each connector's words followed by one space and a plain
/// field, and the closing full stop; the fields that a comma follows hold no comma.
#[verifier::opaque]
pub open spec fn statement_shaped(ps: Seq<Seq<char>>, c: Seq<Seq<SpecTok>>) -> bool {
    &&& ps.len() >= 16
    &&& c.len() == 8
    &&& ps[0] == seq!['\n']
    &&& c[0].len() > 0
    &&& c[0][0] == SpecTok::Spaces0
    &&& well_spaced(c[0].drop_first())
    &&& ps[1] == canon(c[0].drop_first()) + seq![' ']
    &&& ps[1][0] == 'I'
    &&& forall|i: int| 1 <= i < 7 ==> well_spaced(#[trigger] c[i])
    &&& ps[3] == canon(c[1]) + seq![' ']
    &&& ps[5] == canon(c[2]) + seq![' ']
    &&& ps[7] == canon(c[3]) + seq![' ']
    &&& ps[9] == canon(c[4]) + seq![' ']
    &&& ps[11] == canon(c[5]) + seq![' ']
    &&& ps[13] == canon(c[6]) + seq![' ']
    &&& ps[15] == seq!['.']
    &&& c[7] == seq![SpecTok::Lit(seq!['.'])]
    &&& c[1].len() > 0 && c[1][0] == SpecTok::Lit(seq![',']) && comma_free(c[1].drop_first())
    &&& c[3].len() > 0 && c[3][0] == SpecTok::Lit(seq![',']) && comma_free(c[3].drop_first())
    &&& c[5].len() > 0 && c[5][0] == SpecTok::Lit(seq![',']) && comma_free(c[5].drop_first())
    &&& ps[3][0] == ',' && ps[7][0] == ',' && ps[11][0] == ','
    &&& c[2].len() > 1 && c[2][0] == SpecTok::Lit(seq!['.']) && c[2][1] == SpecTok::ParaBreak
    &&& c[4].len() > 1 && c[4][0] == SpecTok::Lit(seq!['.']) && c[4][1] == SpecTok::ParaBreak
    &&& c[6].len() > 1 && c[6][0] == SpecTok::Lit(seq!['.']) && c[6][1] == SpecTok::ParaBreak
    &&& ps[5][0] == '.'
    &&& ps[9][0] == '.'
    &&& ps[13][0] == '.'
    &&& plain_clause(ps[2]) && no_reading_in(ps[2], c[1])
    &&& plain_sentence(ps[4])
    &&& plain_clause(ps[6]) && no_reading_in(ps[6], c[3])
    &&& plain_sentence(ps[8])
    &&& plain_clause(ps[10]) && no_reading_in(ps[10], c[5])
    &&& plain_sentence(ps[12])
    &&& plain_sentence(ps[14])
}

/// Whether the first `n` pieces end as written paragraphs do: with the closing full stop, or
/// with one more piece that goes on after an empty line with a character that is not an ASCII
/// space.
pub open spec fn shaped_close(ps: Seq<Seq<char>>, n: int) -> bool {
    ||| n == 16 && ps.len() >= 16
    ||| {
        &&& n == 17
        &&& ps.len() >= 17
        &&& ps[16].len() >= 3
        &&& ps[16][0] == '\n'
        &&& ps[16][1] == '\n'
        &&& !is_space(ps[16][2])
    }
}

/// Where the plan for reading written paragraphs starts each connector.
pub open spec fn shaped_starts(ps: Seq<Seq<char>>) -> Seq<int> {
    seq![
        0,
        offset(ps, 3),
        offset(ps, 5),
        offset(ps, 7),
        offset(ps, 9),
        offset(ps, 11),
        offset(ps, 13),
        offset(ps, 15),
    ]
}

/// Where the plan for reading written paragraphs ends each connector.
pub open spec fn shaped_ends(ps: Seq<Seq<char>>) -> Seq<int> {
    seq![
        offset(ps, 2) - 1,
        offset(ps, 4) - 1,
        offset(ps, 6) - 1,
        offset(ps, 8) - 1,
        offset(ps, 10) - 1,
        offset(ps, 12) - 1,
        offset(ps, 14) - 1,
        offset(ps, 15) + 1,
    ]
}

/// The connectors between the fields are where the plan puts them, each followed by a single
/// space.
#[verifier::rlimit(40)]
#[verifier::spinoff_prover]
proof fn lemma_shaped_middle(ps: Seq<Seq<char>>, c: Seq<Seq<SpecTok>>, n: int)
    requires
        statement_shaped(ps, c),
        shaped_close(ps, n),
    ensures
        match_toks(cat(ps, n), offset(ps, 3), c[1]) == Some(offset(ps, 4) - 1),
        match_toks(cat(ps, n), offset(ps, 5), c[2]) == Some(offset(ps, 6) - 1),
        match_toks(cat(ps, n), offset(ps, 7), c[3]) == Some(offset(ps, 8) - 1),
        match_toks(cat(ps, n), offset(ps, 9), c[4]) == Some(offset(ps, 10) - 1),
        match_toks(cat(ps, n), offset(ps, 11), c[5]) == Some(offset(ps, 12) - 1),
        match_toks(cat(ps, n), offset(ps, 13), c[6]) == Some(offset(ps, 14) - 1),
        run_end(cat(ps, n), offset(ps, 2) - 1, CharClass::AsciiSpace) == offset(ps, 2),
        offset(ps, 3) >= offset(ps, 2) + 1,
        run_end(cat(ps, n), offset(ps, 4) - 1, CharClass::AsciiSpace) == offset(ps, 4),
        offset(ps, 5) >= offset(ps, 4) + 1,
        run_end(cat(ps, n), offset(ps, 6) - 1, CharClass::AsciiSpace) == offset(ps, 6),
        offset(ps, 7) >= offset(ps, 6) + 1,
        run_end(cat(ps, n), offset(ps, 8) - 1, CharClass::AsciiSpace) == offset(ps, 8),
        offset(ps, 9) >= offset(ps, 8) + 1,
        run_end(cat(ps, n), offset(ps, 10) - 1, CharClass::AsciiSpace) == offset(ps, 10),
        offset(ps, 11) >= offset(ps, 10) + 1,
        run_end(cat(ps, n), offset(ps, 12) - 1, CharClass::AsciiSpace) == offset(ps, 12),
        offset(ps, 13) >= offset(ps, 12) + 1,
        run_end(cat(ps, n), offset(ps, 14) - 1, CharClass::AsciiSpace) == offset(ps, 14),
        offset(ps, 15) >= offset(ps, 14) + 1,
        offset(ps, 1) == 1,
        match_toks(cat(ps, n), 1, c[0].drop_first()) == Some(offset(ps, 2) - 1),
        offset(ps, 16) == offset(ps, 15) + 1,
        offset(ps, 16) <= cat(ps, n).len(),
        0 <= offset(ps, 2) - 1,
{
    reveal(statement_shaped);
    assert(well_spaced(c[1]) && well_spaced(c[2]) && well_spaced(c[3]));
    assert(well_spaced(c[4]) && well_spaced(c[5]) && well_spaced(c[6]));
    lemma_connector_piece(ps, n, 1, c[0].drop_first());
    lemma_connector_piece(ps, n, 3, c[1]);
    lemma_connector_piece(ps, n, 5, c[2]);
    lemma_connector_piece(ps, n, 7, c[3]);
    lemma_connector_piece(ps, n, 9, c[4]);
    lemma_connector_piece(ps, n, 11, c[5]);
    lemma_connector_piece(ps, n, 13, c[6]);
    lemma_cat_piece(ps, n, 15);
    assert(offset(ps, 1) == 1) by {
        reveal_with_fuel(cat, 2);
    }
}

/// Written paragraphs have sixteen pieces and eight connectors.
proof fn lemma_shaped_len(ps: Seq<Seq<char>>, c: Seq<Seq<SpecTok>>)
    requires
        statement_shaped(ps, c),
    ensures
        ps.len() >= 16,
        c.len() == 8,
{
    reveal(statement_shaped);
}

/// The first connector is read from the start, past the line feed, and the last one closes
/// the paragraphs: the text ends there, or its tail starts after the empty line that follows.
#[verifier::spinoff_prover]
proof fn lemma_shaped_ends(ps: Seq<Seq<char>>, c: Seq<Seq<SpecTok>>, n: int)
    requires
        statement_shaped(ps, c),
        shaped_close(ps, n),
    ensures
        match_toks(cat(ps, n), 0, c[0]) == Some(offset(ps, 2) - 1),
        match_toks(cat(ps, n), offset(ps, 15), c[7]) == Some(offset(ps, 15) + 1),
        n == 16 ==> only_spaces_after(cat(ps, n), offset(ps, 15) + 1),
        n == 17 ==> !only_spaces_after(cat(ps, n), offset(ps, 15) + 1),
        n == 17 ==> ending_tail(cat(ps, n), offset(ps, 15) + 1) == Some(offset(ps, 16) + 2),
        ending_ok(cat(ps, n), offset(ps, 15) + 1, true),
{
    reveal(statement_shaped);
    let t = cat(ps, n);
    lemma_shaped_middle(ps, c, n);
    lemma_cat_piece(ps, n, 15);
    assert(canon(c[7]) =~= seq!['.']) by {
        reveal_with_fuel(canon, 2);
    }
    assert(t.subrange(offset(ps, 15), offset(ps, 15) + 1) =~= canon(c[7])) by {
        assert(t[offset(ps, 15) + 0] == ps[15][0]);
    }
    assert(well_spaced(c[7])) by {
        reveal_with_fuel(well_spaced, 2);
    }
    lemma_match_canon(t, offset(ps, 15), c[7]);
    assert(t[0] == '\n') by {
        lemma_cat_piece(ps, n, 0);
        assert(t[offset(ps, 0) + 0] == ps[0][0]);
    }
    assert(t[1] == 'I') by {
        lemma_cat_piece(ps, n, 1);
        assert(t[offset(ps, 1) + 0] == ps[1][0]);
    }
    lemma_run_end_unique(t, 0, 1, CharClass::AsciiSpace);
    assert(match_tok(t, 0, c[0][0]) == Some(1int));
    let o = offset(ps, 16);
    if n == 17 {
        lemma_cat_piece(ps, n, 16);
        assert(t[o + 0] == ps[16][0]);
        assert(t[o + 1] == ps[16][1]);
        assert(t[o + 2] == ps[16][2]);
        lemma_run_end(t, o, CharClass::AsciiSpace);
        if run_end(t, o, CharClass::AsciiSpace) == t.len() {
            assert(CharClass::AsciiSpace.has(t[o + 2]));
        }
        lemma_run_end_unique(t, o, o, CharClass::Blank);
        lemma_run_end_unique(t, o + 1, o + 1, CharClass::Blank);
        assert(ending_tail(t, o) == Some(o + 2));
    }
}

/// Within field 1, past its first character, connector 1 cannot be read.
proof fn lemma_shaped_blocked_1(ps: Seq<Seq<char>>, c: Seq<Seq<SpecTok>>, n: int, q: int)
    requires
        statement_shaped(ps, c),
        shaped_close(ps, n),
        offset(ps, 2) + 1 <= q < offset(ps, 3),
    ensures
        !feasible(SpecTemplate { connectors: c, open_ending: true }, cat(ps, n), 1, q),
{
    reveal(statement_shaped);
    lemma_comma_blocked(ps, n, 2, c[1], q);
}

/// Within field 2, past its first character, connector 2 cannot be read.
proof fn lemma_shaped_blocked_2(ps: Seq<Seq<char>>, c: Seq<Seq<SpecTok>>, n: int, q: int)
    requires
        statement_shaped(ps, c),
        shaped_close(ps, n),
        offset(ps, 4) + 1 <= q < offset(ps, 5),
    ensures
        !feasible(SpecTemplate { connectors: c, open_ending: true }, cat(ps, n), 2, q),
{
    reveal(statement_shaped);
    lemma_break_blocked(ps, n, 4, c[2], q);
}

/// Within field 3, past its first character, connector 3 cannot be read.
proof fn lemma_shaped_blocked_3(ps: Seq<Seq<char>>, c: Seq<Seq<SpecTok>>, n: int, q: int)
    requires
        statement_shaped(ps, c),
        shaped_close(ps, n),
        offset(ps, 6) + 1 <= q < offset(ps, 7),
    ensures
        !feasible(SpecTemplate { connectors: c, open_ending: true }, cat(ps, n), 3, q),
{
    reveal(statement_shaped);
    lemma_comma_blocked(ps, n, 6, c[3], q);
}

/// Within field 4, past its first character, connector 4 cannot be read.
proof fn lemma_shaped_blocked_4(ps: Seq<Seq<char>>, c: Seq<Seq<SpecTok>>, n: int, q: int)
    requires
        statement_shaped(ps, c),
        shaped_close(ps, n),
        offset(ps, 8) + 1 <= q < offset(ps, 9),
    ensures
        !feasible(SpecTemplate { connectors: c, open_ending: true }, cat(ps, n), 4, q),
{
    reveal(statement_shaped);
    lemma_break_blocked(ps, n, 8, c[4], q);
}

/// Within field 5, past its first character, connector 5 cannot be read.
proof fn lemma_shaped_blocked_5(ps: Seq<Seq<char>>, c: Seq<Seq<SpecTok>>, n: int, q: int)
    requires
        statement_shaped(ps, c),
        shaped_close(ps, n),
        offset(ps, 10) + 1 <= q < offset(ps, 11),
    ensures
        !feasible(SpecTemplate { connectors: c, open_ending: true }, cat(ps, n), 5, q),
{
    reveal(statement_shaped);
    lemma_comma_blocked(ps, n, 10, c[5], q);
}

/// Within field 6, past its first character, connector 6 cannot be read.
proof fn lemma_shaped_blocked_6(ps: Seq<Seq<char>>, c: Seq<Seq<SpecTok>>, n: int, q: int)
    requires
        statement_shaped(ps, c),
        shaped_close(ps, n),
        offset(ps, 12) + 1 <= q < offset(ps, 13),
    ensures
        !feasible(SpecTemplate { connectors: c, open_ending: true }, cat(ps, n), 6, q),
{
    reveal(statement_shaped);
    lemma_break_blocked(ps, n, 12, c[6], q);
}

/// Within field 7, past its first character, connector 7 cannot be read.
proof fn lemma_shaped_blocked_7(ps: Seq<Seq<char>>, c: Seq<Seq<SpecTok>>, n: int, q: int)
    requires
        statement_shaped(ps, c),
        shaped_close(ps, n),
        offset(ps, 14) + 1 <= q < offset(ps, 15),
    ensures
        !feasible(SpecTemplate { connectors: c, open_ending: true }, cat(ps, n), 7, q),
{
    reveal(statement_shaped);
    lemma_stop_blocked(ps, n, 14, c[7], q);
}

/// Written paragraphs of the expected shape are laid out as the plan says.
#[verifier::rlimit(30)]
#[verifier::spinoff_prover]
proof fn lemma_shaped_laid_out(ps: Seq<Seq<char>>, c: Seq<Seq<SpecTok>>, n: int)
    requires
        statement_shaped(ps, c),
        shaped_close(ps, n),
    ensures
        laid_out(SpecTemplate { connectors: c, open_ending: true }, cat(ps, n), shaped_starts(ps), shaped_ends(ps)),
{
    lemma_shaped_len(ps, c);
    reveal(laid_out);
    let t = cat(ps, n);
    let tpl = SpecTemplate { connectors: c, open_ending: true };
    let s = shaped_starts(ps);
    let e = shaped_ends(ps);
    lemma_shaped_middle(ps, c, n);
    lemma_shaped_ends(ps, c, n);
    assert forall|i: int| 0 <= i < 8 implies 0 <= #[trigger] s[i] <= t.len() by {
        if i == 0 {
            assert(s[0] == 0);
        } else if i == 1 {
            assert(s[1] == offset(ps, 3));
        } else if i == 2 {
            assert(s[2] == offset(ps, 5));
        } else if i == 3 {
            assert(s[3] == offset(ps, 7));
        } else if i == 4 {
            assert(s[4] == offset(ps, 9));
        } else if i == 5 {
            assert(s[5] == offset(ps, 11));
        } else if i == 6 {
            assert(s[6] == offset(ps, 13));
        } else if i == 7 {
            assert(s[7] == offset(ps, 15));
        }
    }
    assert forall|i: int| 0 <= i < 8 implies match_toks(t, s[i], #[trigger] tpl.connectors[i]) == Some(e[i]) by {
        if i == 0 {
            assert(s[0] == 0 && e[0] == offset(ps, 2) - 1);
        } else if i == 1 {
            assert(s[1] == offset(ps, 3) && e[1] == offset(ps, 4) - 1);
        } else if i == 2 {
            assert(s[2] == offset(ps, 5) && e[2] == offset(ps, 6) - 1);
        } else if i == 3 {
            assert(s[3] == offset(ps, 7) && e[3] == offset(ps, 8) - 1);
        } else if i == 4 {
            assert(s[4] == offset(ps, 9) && e[4] == offset(ps, 10) - 1);
        } else if i == 5 {
            assert(s[5] == offset(ps, 11) && e[5] == offset(ps, 12) - 1);
        } else if i == 6 {
            assert(s[6] == offset(ps, 13) && e[6] == offset(ps, 14) - 1);
        } else if i == 7 {
            assert(s[7] == offset(ps, 15) && e[7] == offset(ps, 15) + 1);
        }
    }
    assert forall|i: int| 0 <= i < 7 implies run_end(t, #[trigger] e[i], CharClass::AsciiSpace) == e[i] + 1 by {
        if i == 0 {
            assert(e[0] == offset(ps, 2) - 1);
        } else if i == 1 {
            assert(e[1] == offset(ps, 4) - 1);
        } else if i == 2 {
            assert(e[2] == offset(ps, 6) - 1);
        } else if i == 3 {
            assert(e[3] == offset(ps, 8) - 1);
        } else if i == 4 {
            assert(e[4] == offset(ps, 10) - 1);
        } else if i == 5 {
            assert(e[5] == offset(ps, 12) - 1);
        } else if i == 6 {
            assert(e[6] == offset(ps, 14) - 1);
        }
    }
    assert forall|j: int| 1 <= j < 8 implies #[trigger] s[j] >= e[j - 1] + 2 by {
        if j == 1 {
            assert(s[1] == offset(ps, 3) && e[0] == offset(ps, 2) - 1);
        } else if j == 2 {
            assert(s[2] == offset(ps, 5) && e[1] == offset(ps, 4) - 1);
        } else if j == 3 {
            assert(s[3] == offset(ps, 7) && e[2] == offset(ps, 6) - 1);
        } else if j == 4 {
            assert(s[4] == offset(ps, 9) && e[3] == offset(ps, 8) - 1);
        } else if j == 5 {
            assert(s[5] == offset(ps, 11) && e[4] == offset(ps, 10) - 1);
        } else if j == 6 {
            assert(s[6] == offset(ps, 13) && e[5] == offset(ps, 12) - 1);
        } else if j == 7 {
            assert(s[7] == offset(ps, 15) && e[6] == offset(ps, 14) - 1);
        }
    }
    assert forall|j: int, q: int| 1 <= j < 8 && e[j - 1] + 2 <= q < s[j] implies !#[trigger] feasible(tpl, t, j, q) by {
        if j == 1 {
            assert(s[1] == offset(ps, 3) && e[0] == offset(ps, 2) - 1);
            lemma_shaped_blocked_1(ps, c, n, q);
        } else if j == 2 {
            assert(s[2] == offset(ps, 5) && e[1] == offset(ps, 4) - 1);
            lemma_shaped_blocked_2(ps, c, n, q);
        } else if j == 3 {
            assert(s[3] == offset(ps, 7) && e[2] == offset(ps, 6) - 1);
            lemma_shaped_blocked_3(ps, c, n, q);
        } else if j == 4 {
            assert(s[4] == offset(ps, 9) && e[3] == offset(ps, 8) - 1);
            lemma_shaped_blocked_4(ps, c, n, q);
        } else if j == 5 {
            assert(s[5] == offset(ps, 11) && e[4] == offset(ps, 10) - 1);
            lemma_shaped_blocked_5(ps, c, n, q);
        } else if j == 6 {
            assert(s[6] == offset(ps, 13) && e[5] == offset(ps, 12) - 1);
            lemma_shaped_blocked_6(ps, c, n, q);
        } else if j == 7 {
            assert(s[7] == offset(ps, 15) && e[6] == offset(ps, 14) - 1);
            lemma_shaped_blocked_7(ps, c, n, q);
        }
    }
    assert(ending_ok(t, e[7], true));
}

/// The fields that the plan for written paragraphs reads.
proof fn lemma_shaped_fields(ps: Seq<Seq<char>>)
    ensures
        planned_fields(shaped_starts(ps), shaped_ends(ps), 0) == shaped_fields(ps),
{
    let s = shaped_starts(ps);
    let e = shaped_ends(ps);
    let f = planned_fields(s, e, 0);
    let g = shaped_fields(ps);
    assert forall|k: int| 0 <= k < 7 implies #[trigger] f[k] == g[k] by {
        if k == 0 {
            assert(s[1] == offset(ps, 3) && e[0] == offset(ps, 2) - 1);
        } else if k == 1 {
            assert(s[2] == offset(ps, 5) && e[1] == offset(ps, 4) - 1);
        } else if k == 2 {
            assert(s[3] == offset(ps, 7) && e[2] == offset(ps, 6) - 1);
        } else if k == 3 {
            assert(s[4] == offset(ps, 9) && e[3] == offset(ps, 8) - 1);
        } else if k == 4 {
            assert(s[5] == offset(ps, 11) && e[4] == offset(ps, 10) - 1);
        } else if k == 5 {
            assert(s[6] == offset(ps, 13) && e[5] == offset(ps, 12) - 1);
        } else if k == 6 {
            assert(s[7] == offset(ps, 15) && e[6] == offset(ps, 14) - 1);
        }
    }
    assert(f =~= g);
}

/// The spans of the seven fields in written paragraphs.
pub open spec fn shaped_fields(ps: Seq<Seq<char>>) -> Seq<(int, int)> {
    seq![
        (offset(ps, 2), offset(ps, 3)),
        (offset(ps, 4), offset(ps, 5)),
        (offset(ps, 6), offset(ps, 7)),
        (offset(ps, 8), offset(ps, 9)),
        (offset(ps, 10), offset(ps, 11)),
        (offset(ps, 12), offset(ps, 13)),
        (offset(ps, 14), offset(ps, 15)),
    ]
}

/// Written paragraphs of the expected shape are read as their fields, with a tail where a
/// piece follows them.
proof fn lemma_shaped_read(ps: Seq<Seq<char>>, c: Seq<Seq<SpecTok>>, n: int)
    requires
        statement_shaped(ps, c),
        shaped_close(ps, n),
    ensures
        spec_read(SpecTemplate { connectors: c, open_ending: true }, cat(ps, n)) == Some(
            (
                shaped_fields(ps),
                if n == 16 {
                    None::<int>
                } else {
                    Some(offset(ps, 16) + 2)
                },
            ),
        ),
{
    let s = shaped_starts(ps);
    let e = shaped_ends(ps);
    let tpl = SpecTemplate { connectors: c, open_ending: true };
    let t = cat(ps, n);
    lemma_shaped_len(ps, c);
    let tail = if n == 16 {
        None::<int>
    } else {
        Some(offset(ps, 16) + 2)
    };
    assert(spec_read(tpl, t) == Some((planned_fields(s, e, 0), tail))) by {
        lemma_shaped_laid_out(ps, c, n);
        lemma_shaped_ends(ps, c, n);
        lemma_shaped_middle(ps, c, n);
        assert(e[7] == offset(ps, 15) + 1);
        lemma_plan_read(tpl, t, s, e);
    }
    lemma_shaped_fields(ps);
}

/// Whether every paragraph field of a statement is plain: those that a comma follows in the
/// written form (see [`plain_clause`]) cannot be read as holding the connector that follows
/// them (`, we faced`, `, and neglected`, `, accepting`, with any runs of spaces), and those
/// that a full stop follows are plain sentences (see [`plain_sentence`]).
pub open spec fn plain_fields(y: SpecYAdr) -> bool {
    &&& plain_clause(y.in_context) && no_reading_in(y.in_context, spec_conn_we_faced())
    &&& plain_sentence(y.facing_concern)
    &&& plain_clause(y.chosen_option) && no_reading_in(y.chosen_option, spec_conn_and_neglected())
    &&& plain_sentence(y.neglected_options)
    &&& plain_clause(y.to_achieve) && no_reading_in(y.to_achieve, spec_conn_accepting())
    &&& plain_sentence(y.accepted_downsides)
    &&& plain_sentence(y.because)
}

/// The written form of the paragraphs, after the line feed that ends the title line, as
/// pieces: the line feed, then each connector's words with the field that follows them.
pub open spec fn body_pieces(y: SpecYAdr) -> Seq<Seq<char>> {
    seq![
        "\n"@,
        "In the context of "@,
        y.in_context,
        ", we faced "@,
        y.facing_concern,
        ".\n\nWe decided for "@,
        y.chosen_option,
        ", and neglected "@,
        y.neglected_options,
        ".\n\nWe did this to achieve "@,
        y.to_achieve,
        ", accepting "@,
        y.accepted_downsides,
        ".\n\nWe think this is the right trade-off because "@,
        y.because,
        "."@,
    ]
}

/// The pieces of the written paragraphs, one after the other, are the written paragraphs
/// after a line feed.
proof fn lemma_body_pieces(y: SpecYAdr)
    ensures
        cat(body_pieces(y), 16) == "\n"@ + paragraphs_text(y),
{
    reveal_with_fuel(cat, 17);
    assert(cat(body_pieces(y), 16) =~= "\n"@ + paragraphs_text(y));
}

/// The written paragraphs of a statement with plain fields have the expected shape.
#[verifier::spinoff_prover]
proof fn lemma_body_shaped(y: SpecYAdr)
    requires
        plain_fields(y),
    ensures
        statement_shaped(body_pieces(y), statement_template().connectors),
{
    reveal(statement_template);
    reveal(statement_shaped);
    lemma_connectors_spaced();
    lemma_openings_written();
    lemma_joins_written();
    let c = statement_template().connectors;
    assert(forall|i: int| 1 <= i < 7 ==> well_spaced(#[trigger] c[i])) by {
        assert(well_spaced(c[1]) && well_spaced(c[2]) && well_spaced(c[3]));
        assert(well_spaced(c[4]) && well_spaced(c[5]) && well_spaced(c[6]));
    }
    reveal_strlit("\n");
    reveal_strlit(".");
    assert(body_pieces(y)[1][0] == 'I') by {
        reveal_strlit("In the context of ");
    }
    assert(body_pieces(y)[5][0] == '.') by {
        reveal_strlit(".\n\nWe decided for ");
    }
    assert(body_pieces(y)[9][0] == '.') by {
        reveal_strlit(".\n\nWe did this to achieve ");
    }
    assert(body_pieces(y)[13][0] == '.') by {
        reveal_strlit(".\n\nWe think this is the right trade-off because ");
    }
    assert(body_pieces(y)[3][0] == ',') by {
        reveal_strlit(", we faced ");
    }
    assert(body_pieces(y)[7][0] == ',') by {
        reveal_strlit(", and neglected ");
    }
    assert(body_pieces(y)[11][0] == ',') by {
        reveal_strlit(", accepting ");
    }
    lemma_joins_comma_free();
    assert("\n"@ =~= seq!['\n']);
    assert("."@ =~= seq!['.']);
}

/// The connectors within the paragraphs start with a comma, and take no other.
proof fn lemma_joins_comma_free()
    ensures
        comma_free(spec_conn_we_faced().drop_first()),
        comma_free(spec_conn_and_neglected().drop_first()),
        comma_free(spec_conn_accepting().drop_first()),
{
    reveal_with_fuel(comma_free, 6);
    assert(!seq!['w', 'e'].contains(','));
    assert(!seq!['f', 'a', 'c', 'e', 'd'].contains(','));
    assert(!seq!['a', 'n', 'd'].contains(','));
    assert(!seq!['n', 'e', 'g', 'l', 'e', 'c', 't', 'e', 'd'].contains(','));
    assert(!seq!['a', 'c', 'c', 'e', 'p', 't', 'i', 'n', 'g'].contains(','));
    assert(spec_conn_we_faced().drop_first() =~= seq![
        SpecTok::Spaces1,
        SpecTok::Lit(seq!['w', 'e']),
        SpecTok::Spaces1,
        SpecTok::Lit(seq!['f', 'a', 'c', 'e', 'd']),
    ]);
    assert(spec_conn_and_neglected().drop_first() =~= seq![
        SpecTok::Spaces1,
        SpecTok::Lit(seq!['a', 'n', 'd']),
        SpecTok::Spaces1,
        SpecTok::Lit(seq!['n', 'e', 'g', 'l', 'e', 'c', 't', 'e', 'd']),
    ]);
    assert(spec_conn_accepting().drop_first() =~= seq![
        SpecTok::Spaces1,
        SpecTok::Lit(seq!['a', 'c', 'c', 'e', 'p', 't', 'i', 'n', 'g']),
    ]);
}

/// What a statement's written body holds after its paragraphs: its tail after an empty line,
/// if it has one, then its change log as written (see [`log_text`]).
pub open spec fn rest_text(y: SpecYAdr) -> Seq<char> {
    (match y.tail {
        Some(t) => "\n\n"@ + t,
        None => seq![],
    }) + log_text(y.changes)
}

/// Whether what follows a statement's paragraphs can be written out and read back: its change
/// log is empty or plain (see [`plain_changes`]) and its tail, if it has one, is plain (see
/// [`plain_tail`]).
pub open spec fn plain_rest(y: SpecYAdr) -> bool {
    &&& plain_changes(y.changes)
    &&& match y.tail {
        Some(t) => plain_tail(t),
        None => true,
    }
}

/// The written form of a statement's body, after its title line, as pieces: its paragraphs
/// and, if anything follows them, the tail and change log written after them.
pub open spec fn written_pieces(y: SpecYAdr) -> Seq<Seq<char>> {
    if rest_text(y).len() > 0 {
        body_pieces(y).push(rest_text(y))
    } else {
        body_pieces(y)
    }
}

/// The pieces `ps[..n]` and `qs[..n]`, where they agree, are written out alike.
proof fn lemma_cat_prefix(ps: Seq<Seq<char>>, qs: Seq<Seq<char>>, n: int)
    requires
        0 <= n <= ps.len(),
        n <= qs.len(),
        forall|k: int| 0 <= k < n ==> ps[k] == qs[k],
    ensures
        cat(ps, n) == cat(qs, n),
    decreases n,
{
    if n > 0 {
        lemma_cat_prefix(ps, qs, n - 1);
    }
}

/// The written pieces of a statement are its paragraphs' pieces, and the tail and change log
/// after them if it has any; written out, they are its body.
proof fn lemma_written_pieces(y: SpecYAdr)
    ensures
        ({
            let wp = written_pieces(y);
            &&& wp.len() == if rest_text(y).len() > 0 {
                17int
            } else {
                16int
            }
            &&& forall|k: int| 0 <= k < 16 ==> #[trigger] wp[k] == body_pieces(y)[k]
            &&& cat(wp, wp.len() as int) == "\n"@ + paragraphs_text(y) + rest_text(y)
        }),
{
    let wp = written_pieces(y);
    let bp = body_pieces(y);
    lemma_body_pieces(y);
    if rest_text(y).len() > 0 {
        lemma_cat_prefix(wp, bp, 16);
        assert(cat(wp, 17) == cat(wp, 16) + wp[16]);
    } else {
        assert(rest_text(y) =~= Seq::<char>::empty());
        assert(cat(bp, 16) + rest_text(y) =~= cat(bp, 16));
    }
}

/// The written pieces of a statement with plain fields, and a plain tail and change log, have
/// the shape of written paragraphs, with the tail and change log closing them.
#[verifier::spinoff_prover]
proof fn lemma_written_shaped(y: SpecYAdr)
    requires
        plain_fields(y),
        plain_rest(y),
    ensures
        statement_shaped(written_pieces(y), statement_template().connectors),
        shaped_close(written_pieces(y), written_pieces(y).len() as int),
{
    let wp = written_pieces(y);
    let bp = body_pieces(y);
    let c = statement_template().connectors;
    lemma_body_shaped(y);
    lemma_written_pieces(y);
    if rest_text(y).len() > 0 {
        reveal(statement_shaped);
        assert(statement_shaped(wp, c));
        reveal_strlit("\n\n");
        assert(wp[16] == rest_text(y));
        match y.tail {
            Some(t) => {
                lemma_tail_breaks(t);
                assert(rest_text(y) == ("\n\n"@ + t) + log_text(y.changes));
                assert(rest_text(y)[2] == ("\n\n"@ + t)[2]);
            },
            None => {
                lemma_log_breaks(y.changes);
                assert(rest_text(y) =~= log_text(y.changes));
            },
        }
        assert(!is_space(wp[16][2]));
    }
}

/// Where the tail of a statement's written body starts, as the statement's shape reads it:
/// after the empty line that follows the paragraphs, if anything follows them.
pub open spec fn written_tail_start(y: SpecYAdr) -> Option<int> {
    if rest_text(y).len() > 0 {
        Some(offset(written_pieces(y), 16) + 2)
    } else {
        None
    }
}

/// The written body of a statement with plain fields, and a plain tail and change log, is read
/// as its fields, with what follows them as its tail.
proof fn lemma_written_read(y: SpecYAdr)
    requires
        plain_fields(y),
        plain_rest(y),
    ensures
        spec_read(statement_template(), "\n"@ + paragraphs_text(y) + rest_text(y)) == Some(
            (shaped_fields(written_pieces(y)), written_tail_start(y)),
        ),
{
    let wp = written_pieces(y);
    let n = wp.len() as int;
    let c = statement_template().connectors;
    lemma_written_pieces(y);
    lemma_written_shaped(y);
    lemma_statement_template_shape();
    assert(statement_template() == SpecTemplate { connectors: c, open_ending: true });
    lemma_shaped_read(wp, c, n);
}

/// Each field of a statement's written body is cut back out as written.
proof fn lemma_written_fields(y: SpecYAdr)
    ensures
        ({
            let t = "\n"@ + paragraphs_text(y) + rest_text(y);
            let f = shaped_fields(written_pieces(y));
            &&& field(t, f, 0) == y.in_context
            &&& field(t, f, 1) == y.facing_concern
            &&& field(t, f, 2) == y.chosen_option
            &&& field(t, f, 3) == y.neglected_options
            &&& field(t, f, 4) == y.to_achieve
            &&& field(t, f, 5) == y.accepted_downsides
            &&& field(t, f, 6) == y.because
        }),
{
    let wp = written_pieces(y);
    let n = wp.len() as int;
    lemma_written_pieces(y);
    lemma_cut_piece(wp, n, 2);
    lemma_cut_piece(wp, n, 4);
    lemma_cut_piece(wp, n, 6);
    lemma_cut_piece(wp, n, 8);
    lemma_cut_piece(wp, n, 10);
    lemma_cut_piece(wp, n, 12);
    lemma_cut_piece(wp, n, 14);
}

/// The tail of a statement's written body, where what follows its paragraphs is plain and can
/// be counted in bytes, holds its tail and its change log.
proof fn lemma_written_tail(y: SpecYAdr)
    requires
        plain_rest(y),
        utf8_len(rest_text(y)) <= usize::MAX,
    ensures
        tail_and_changes("\n"@ + paragraphs_text(y) + rest_text(y), written_tail_start(y))
            == Ok::<(Option<Seq<char>>, Seq<(crate::date::CivilDate, Seq<char>)>), SpecError>(
            (y.tail, y.changes),
        ),
{
    let wp = written_pieces(y);
    let n = wp.len() as int;
    let t = cat(wp, n);
    let cs = y.changes;
    lemma_written_pieces(y);
    if n == 17 {
        let r = rest_text(y);
        let after = r.subrange(2, r.len() as int);
        reveal_strlit("\n\n");
        lemma_cat_piece(wp, 17, 16);
        let ts = offset(wp, 16) + 2;
        assert(wp[16] == r);
        assert(t.subrange(ts, t.len() as int) =~= after) by {
            assert forall|m: int| 0 <= m < after.len() implies t.subrange(ts, t.len() as int)[m] == after[m] by {
                assert(t[offset(wp, 16) + (m + 2)] == wp[16][m + 2]);
            }
        }
        match y.tail {
            Some(tx) => {
                assert(after =~= tx + log_text(cs));
                assert(r =~= "\n\n"@ + (tx + log_text(cs)));
                lemma_utf8_len_add("\n\n"@, tx + log_text(cs));
                lemma_tail_read(tx, cs, t, ts);
            },
            None => {
                assert(after =~= entries_text(cs));
                lemma_utf8_len_add("\n\n"@, entries_text(cs));
                lemma_log_read(cs, t, ts);
            },
        }
    } else {
        assert(y.changes =~= Seq::<(crate::date::CivilDate, Seq<char>)>::empty());
        assert(y.tail is None);
    }
}

/// The paragraphs of a statement with plain fields, written out after the line feed that
/// ends its title line and followed by its tail and change log as written (see
/// [`rest_text`]), are read back as that statement, where what follows the paragraphs is plain
/// (see [`plain_rest`]) and can be counted in bytes.
pub proof fn lemma_read_back_body(y: SpecYAdr)
    requires
        plain_fields(y),
        plain_rest(y),
        utf8_len(rest_text(y)) <= usize::MAX,
    ensures
        spec_parse_block(y.date, y.title, "\n"@ + paragraphs_text(y) + rest_text(y))
            == Ok::<SpecYAdr, SpecError>(y),
{
    lemma_written_read(y);
    lemma_written_fields(y);
    lemma_written_tail(y);
}

/// Where in the pieces written one after the other the character at `j` comes from.
pub proof fn lemma_cat_locate(ps: Seq<Seq<char>>, n: int, j: int) -> (k: int)
    requires
        0 <= n <= ps.len(),
        0 <= j < cat(ps, n).len(),
    ensures
        0 <= k < n,
        offset(ps, k) <= j < offset(ps, k + 1),
    decreases n,
{
    if n == 0 {
        assert(false);
        0
    } else if j < cat(ps, n - 1).len() {
        lemma_cat_locate(ps, n - 1, j)
    } else {
        n - 1
    }
}

/// Whether a line can open at `j` of `t` as the lines of a written statement do: past any
/// spaces and tabs, with a character that is not whitespace, and not with the word `YADR` or
/// with three dashes.
pub open spec fn opens_line(t: Seq<char>, j: int) -> bool {
    let q = run_end(t, j, CharClass::Blank);
    &&& 0 <= j
    &&& q < t.len()
    &&& !is_ws(t[q])
    &&& !has_at(t, q, yadr_word())
    &&& !has_at(t, q, seq!['-', '-', '-'])
}

/// Whether every line feed of `t` is followed by the opening of a line (see [`opens_line`]),
/// or by a line of nothing but spaces and tabs and then the opening of a line.
pub open spec fn breaks_open_lines(t: Seq<char>) -> bool {
    forall|j: int|
        0 <= j < t.len() && #[trigger] t[j] == '\n' ==> opens_line(t, j + 1) || blank_then_opens(
            t,
            j + 1,
        )
}

/// Whether the line at `j` of `t` holds nothing but spaces and tabs, and the next line opens
/// as the lines of a written statement do.
pub open spec fn blank_then_opens(t: Seq<char>, j: int) -> bool {
    let q = run_end(t, j, CharClass::Blank);
    &&& 0 <= j
    &&& q < t.len()
    &&& t[q] == '\n'
    &&& opens_line(t, q + 1)
}

/// A line opens at a character that is not whitespace, `Y` or a dash, or at a dash that is
/// not followed by another.
pub proof fn lemma_opens_line(t: Seq<char>, j: int)
    requires
        0 <= j < t.len(),
        !is_ws(t[j]),
        t[j] != 'Y',
        t[j] == '-' ==> j + 1 < t.len() && t[j + 1] != '-',
    ensures
        opens_line(t, j),
{
    lemma_run_end_unique(t, j, j, CharClass::Blank);
    if has_at(t, j, yadr_word()) {
        assert(t.subrange(j, j + 4)[0] == t[j]);
    }
    if has_at(t, j, seq!['-', '-', '-']) {
        assert(t.subrange(j, j + 3)[0] == t[j]);
        assert(t.subrange(j, j + 3)[1] == t[j + 1]);
    }
}

/// A line feed followed by another line feed and the opening of a line is followed by an
/// empty line and that opening.
pub proof fn lemma_empty_then_opens(t: Seq<char>, j: int)
    requires
        0 <= j < t.len(),
        t[j] == '\n',
        opens_line(t, j + 1),
    ensures
        blank_then_opens(t, j),
{
    lemma_run_end_unique(t, j, j, CharClass::Blank);
}

/// Where a line opens in `a`, it opens in `a` followed by a text that is empty or starts with a
/// line feed.
pub proof fn lemma_opens_before(a: Seq<char>, b: Seq<char>, j: int)
    requires
        opens_line(a, j),
        b.len() == 0 || b[0] == '\n',
    ensures
        opens_line(a + b, j),
{
    let t = a + b;
    lemma_run_end(a, j, CharClass::Blank);
    lemma_run_end_before(a, b, j, CharClass::Blank);
    let q = run_end(a, j, CharClass::Blank);
    assert(t[q] == a[q]);
    if has_at(t, q, yadr_word()) {
        if q + 4 <= a.len() {
            assert(a.subrange(q, q + 4) =~= t.subrange(q, q + 4));
        } else {
            assert(t.subrange(q, q + 4)[a.len() - q] == t[a.len() as int]);
        }
    }
    if has_at(t, q, seq!['-', '-', '-']) {
        if q + 3 <= a.len() {
            assert(a.subrange(q, q + 3) =~= t.subrange(q, q + 3));
        } else {
            assert(t.subrange(q, q + 3)[a.len() - q] == t[a.len() as int]);
        }
    }
}

/// Where a line opens in `b`, it opens in `b` after any text.
pub proof fn lemma_opens_after(a: Seq<char>, b: Seq<char>, j: int)
    requires
        opens_line(b, j),
    ensures
        opens_line(a + b, a.len() + j),
{
    let t = a + b;
    lemma_run_end(b, j, CharClass::Blank);
    lemma_run_end_after(a, b, j, CharClass::Blank);
    let q = run_end(b, j, CharClass::Blank);
    let i = a.len() + q;
    assert(t[i] == b[q]);
    if has_at(t, i, yadr_word()) {
        assert(b.subrange(q, q + 4) =~= t.subrange(i, i + 4));
    }
    if has_at(t, i, seq!['-', '-', '-']) {
        assert(b.subrange(q, q + 3) =~= t.subrange(i, i + 3));
    }
}

/// Where a blank line and an opening follow in `a`, they follow in `a` followed by a text that
/// is empty or starts with a line feed.
pub proof fn lemma_blank_opens_before(a: Seq<char>, b: Seq<char>, j: int)
    requires
        blank_then_opens(a, j),
        b.len() == 0 || b[0] == '\n',
    ensures
        blank_then_opens(a + b, j),
{
    lemma_run_end(a, j, CharClass::Blank);
    lemma_run_end_before(a, b, j, CharClass::Blank);
    let q = run_end(a, j, CharClass::Blank);
    assert((a + b)[q] == a[q]);
    lemma_opens_before(a, b, q + 1);
}

/// Where a blank line and an opening follow in `b`, they follow in `b` after any text.
pub proof fn lemma_blank_opens_after(a: Seq<char>, b: Seq<char>, j: int)
    requires
        blank_then_opens(b, j),
    ensures
        blank_then_opens(a + b, a.len() + j),
{
    lemma_run_end(b, j, CharClass::Blank);
    lemma_run_end_after(a, b, j, CharClass::Blank);
    let q = run_end(b, j, CharClass::Blank);
    assert((a + b)[a.len() + q] == b[q]);
    lemma_opens_after(a, b, q + 1);
    assert(a.len() + q + 1 == a.len() + (q + 1));
}

/// Two texts whose line feeds open lines keep doing so one after the other, where the second
/// starts with a line feed.
pub proof fn lemma_breaks_concat(a: Seq<char>, b: Seq<char>)
    requires
        breaks_open_lines(a),
        breaks_open_lines(b),
        b.len() > 0,
        b[0] == '\n',
    ensures
        breaks_open_lines(a + b),
{
    let t = a + b;
    assert forall|j: int| 0 <= j < t.len() && #[trigger] t[j] == '\n' implies opens_line(t, j + 1)
        || blank_then_opens(t, j + 1) by {
        if j < a.len() {
            assert(a[j] == '\n');
            if opens_line(a, j + 1) {
                lemma_opens_before(a, b, j + 1);
            } else {
                lemma_blank_opens_before(a, b, j + 1);
            }
        } else {
            let i = j - a.len();
            assert(b[i] == '\n');
            if opens_line(b, i + 1) {
                lemma_opens_after(a, b, i + 1);
            } else {
                lemma_blank_opens_after(a, b, i + 1);
            }
        }
    }
}

/// Where a line opens in a text that ends with a comma, it opens where that text stands in
/// another.
proof fn lemma_opens_embed(f: Seq<char>, t: Seq<char>, o: int, i: int)
    requires
        f.len() > 0,
        f.last() == ',' || f.last() == '.',
        0 <= o,
        o + f.len() <= t.len(),
        forall|m: int| 0 <= m < f.len() ==> t[o + m] == #[trigger] f[m],
        opens_line(f, i),
    ensures
        opens_line(t, o + i),
{
    let l = f.len() as int;
    lemma_run_end(f, i, CharClass::Blank);
    let q = run_end(f, i, CharClass::Blank);
    assert forall|m: int| o + i <= m < o + q implies CharClass::Blank.has(#[trigger] t[m]) by {
        assert(t[o + (m - o)] == f[m - o]);
    }
    assert(t[o + q] == f[q]);
    lemma_run_end_unique(t, o + i, o + q, CharClass::Blank);
    if has_at(t, o + q, yadr_word()) {
        if q + 4 <= l {
            assert(f.subrange(q, q + 4) =~= t.subrange(o + q, o + q + 4)) by {
                assert forall|m: int| 0 <= m < 4 implies #[trigger] f.subrange(q, q + 4)[m] == t.subrange(o + q, o + q + 4)[m] by {
                    assert(t[o + (q + m)] == f[q + m]);
                }
            }
        } else {
            assert(t[o + (l - 1)] == f[l - 1]);
            assert(t.subrange(o + q, o + q + 4)[l - 1 - q] == t[o + l - 1]);
        }
    }
    if has_at(t, o + q, seq!['-', '-', '-']) {
        if q + 3 <= l {
            assert(f.subrange(q, q + 3) =~= t.subrange(o + q, o + q + 3)) by {
                assert forall|m: int| 0 <= m < 3 implies #[trigger] f.subrange(q, q + 3)[m] == t.subrange(o + q, o + q + 3)[m] by {
                    assert(t[o + (q + m)] == f[q + m]);
                }
            }
        } else {
            assert(t[o + (l - 1)] == f[l - 1]);
            assert(t.subrange(o + q, o + q + 3)[l - 1 - q] == t[o + l - 1]);
        }
    }
}

/// Where a blank line and an opening follow in a text that ends with a comma, they follow
/// where that text stands in another.
proof fn lemma_blank_opens_embed(f: Seq<char>, t: Seq<char>, o: int, i: int)
    requires
        f.len() > 0,
        f.last() == ',' || f.last() == '.',
        0 <= o,
        o + f.len() <= t.len(),
        forall|m: int| 0 <= m < f.len() ==> t[o + m] == #[trigger] f[m],
        blank_then_opens(f, i),
    ensures
        blank_then_opens(t, o + i),
{
    lemma_run_end(f, i, CharClass::Blank);
    let q = run_end(f, i, CharClass::Blank);
    assert forall|m: int| o + i <= m < o + q implies CharClass::Blank.has(#[trigger] t[m]) by {
        assert(t[o + (m - o)] == f[m - o]);
    }
    assert(t[o + q] == f[q]);
    lemma_run_end_unique(t, o + i, o + q, CharClass::Blank);
    lemma_opens_embed(f, t, o, q + 1);
    assert(o + q + 1 == o + (q + 1));
}

/// A line feed within a field written as piece `k`, followed by a piece that starts with a
/// comma or a full stop, opens a line in the written pieces as it does in the field with that
/// character after it.
proof fn lemma_clause_break(ps: Seq<Seq<char>>, n: int, k: int, m: int)
    requires
        0 <= k,
        k + 1 < n <= ps.len(),
        ps[k + 1].len() > 0,
        ps[k + 1][0] == ',' || ps[k + 1][0] == '.',
        breaks_open_lines(ps[k] + seq![ps[k + 1][0]]),
        0 <= m < ps[k].len(),
        ps[k][m] == '\n',
    ensures
        opens_line(cat(ps, n), offset(ps, k) + m + 1) || blank_then_opens(
            cat(ps, n),
            offset(ps, k) + m + 1,
        ),
{
    let t = cat(ps, n);
    let f = ps[k] + seq![ps[k + 1][0]];
    let o = offset(ps, k);
    lemma_cat_piece(ps, n, k);
    lemma_cat_piece(ps, n, k + 1);
    assert forall|i: int| 0 <= i < f.len() implies t[o + i] == #[trigger] f[i] by {
        if i == ps[k].len() {
            assert(t[offset(ps, k + 1) + 0] == ps[k + 1][0]);
        }
    }
    assert(f[m] == '\n');
    if opens_line(f, m + 1) {
        lemma_opens_embed(f, t, o, m + 1);
    } else {
        lemma_blank_opens_embed(f, t, o, m + 1);
    }
    assert(o + (m + 1) == o + m + 1);
}

/// Whether the pieces of written paragraphs hold their line feeds only where paragraphs
/// break: a line feed first, then the opening `I`, and two line feeds after the full stop that
/// ends each of the first three paragraphs, before the `W` that opens the next.
pub open spec fn breaks_shaped(ps: Seq<Seq<char>>) -> bool {
    &&& ps.len() == 16
    &&& ps[0] == seq!['\n']
    &&& ps[1].len() > 0 && ps[1][0] == 'I'
    &&& forall|k: int|
        (k == 1 || k == 3 || k == 7 || k == 11 || k == 15) ==> !(#[trigger] ps[k]).contains('\n')
    &&& forall|k: int|
        (k == 2 || k == 6 || k == 10) ==> breaks_open_lines((#[trigger] ps[k]) + seq![','])
            && ps[k + 1].len() > 0 && ps[k + 1][0] == ','
    &&& forall|k: int|
        (k == 4 || k == 8 || k == 12 || k == 14) ==> breaks_open_lines(
            (#[trigger] ps[k]) + seq!['.'],
        ) && ps[k + 1].len() > 0 && ps[k + 1][0] == '.'

    &&& forall|k: int|
        (k == 5 || k == 9 || k == 13) ==> {
            &&& (#[trigger] ps[k]).len() >= 4
            &&& ps[k][0] == '.'
            &&& ps[k][1] == '\n'
            &&& ps[k][2] == '\n'
            &&& ps[k][3] == 'W'
            &&& forall|m: int| 3 <= m < ps[k].len() ==> ps[k][m] != '\n'
        }
}

/// The line feeds of pieces shaped so lead to words.
#[verifier::spinoff_prover]
proof fn lemma_breaks_lead(ps: Seq<Seq<char>>)
    requires
        breaks_shaped(ps),
    ensures
        breaks_open_lines(cat(ps, 16)),
        cat(ps, 16).len() > 1,
        cat(ps, 16)[0] == '\n',
        cat(ps, 16)[1] == 'I',
{
    let t = cat(ps, 16);
    lemma_cat_piece(ps, 16, 0);
    lemma_cat_piece(ps, 16, 1);
    assert(offset(ps, 1) == 1) by {
        reveal_with_fuel(cat, 2);
    }
    assert(t[offset(ps, 0) + 0] == ps[0][0]);
    assert(t[offset(ps, 1) + 0] == ps[1][0]);
    assert forall|j: int| 0 <= j < t.len() && #[trigger] t[j] == '\n' implies opens_line(t, j + 1)
        || blank_then_opens(t, j + 1) by {
        let k = lemma_cat_locate(ps, 16, j);
        lemma_cat_piece(ps, 16, k);
        let m = j - offset(ps, k);
        assert(t[offset(ps, k) + m] == ps[k][m]);
        assert(ps[k][m] == '\n');
            if k == 0 {
                assert(m == 0);
                assert(j + 1 == offset(ps, 1));
                assert(t[offset(ps, 1) + 0] == ps[1][0]);
                lemma_opens_line(t, j + 1);
            } else if k == 1 {
                assert(ps[1].contains('\n'));
            } else if k == 2 {
                lemma_clause_break(ps, 16, 2, m);
            } else if k == 3 {
                assert(ps[3].contains('\n'));
            } else if k == 4 {
                lemma_clause_break(ps, 16, 4, m);
            } else if k == 5 {
                if m == 0 {
                    assert(ps[5][0] == '.');
                } else if m == 1 {
                    assert(t[offset(ps, 5) + 2] == ps[5][2]);
                    assert(t[offset(ps, 5) + 3] == ps[5][3]);
                    lemma_opens_line(t, j + 2);
                    lemma_empty_then_opens(t, j + 1);
                } else if m == 2 {
                    assert(t[offset(ps, 5) + 3] == ps[5][3]);
                    lemma_opens_line(t, j + 1);
                } else {
                    assert(ps[5][m] != '\n');
                }
            } else if k == 6 {
                lemma_clause_break(ps, 16, 6, m);
            } else if k == 7 {
                assert(ps[7].contains('\n'));
            } else if k == 8 {
                lemma_clause_break(ps, 16, 8, m);
            } else if k == 9 {
                if m == 0 {
                    assert(ps[9][0] == '.');
                } else if m == 1 {
                    assert(t[offset(ps, 9) + 2] == ps[9][2]);
                    assert(t[offset(ps, 9) + 3] == ps[9][3]);
                    lemma_opens_line(t, j + 2);
                    lemma_empty_then_opens(t, j + 1);
                } else if m == 2 {
                    assert(t[offset(ps, 9) + 3] == ps[9][3]);
                    lemma_opens_line(t, j + 1);
                } else {
                    assert(ps[9][m] != '\n');
                }
            } else if k == 10 {
                lemma_clause_break(ps, 16, 10, m);
            } else if k == 11 {
                assert(ps[11].contains('\n'));
            } else if k == 12 {
                lemma_clause_break(ps, 16, 12, m);
            } else if k == 13 {
                if m == 0 {
                    assert(ps[13][0] == '.');
                } else if m == 1 {
                    assert(t[offset(ps, 13) + 2] == ps[13][2]);
                    assert(t[offset(ps, 13) + 3] == ps[13][3]);
                    lemma_opens_line(t, j + 2);
                    lemma_empty_then_opens(t, j + 1);
                } else if m == 2 {
                    assert(t[offset(ps, 13) + 3] == ps[13][3]);
                    lemma_opens_line(t, j + 1);
                } else {
                    assert(ps[13][m] != '\n');
                }
            } else if k == 14 {
                lemma_clause_break(ps, 16, 14, m);
            } else if k == 15 {
                assert(ps[15].contains('\n'));
            }
    }
}

/// The written paragraphs of a statement with plain fields hold their line feeds only where
/// paragraphs break.
proof fn lemma_body_breaks_shaped(y: SpecYAdr)
    requires
        plain_fields(y),
    ensures
        breaks_shaped(body_pieces(y)),
{
    let ps = body_pieces(y);
    reveal_strlit("\n");
    reveal_strlit("In the context of ");
    reveal_strlit(", we faced ");
    reveal_strlit(".\n\nWe decided for ");
    reveal_strlit(", and neglected ");
    reveal_strlit(".\n\nWe did this to achieve ");
    reveal_strlit(", accepting ");
    reveal_strlit(".\n\nWe think this is the right trade-off because ");
    reveal_strlit(".");
    assert(ps[0] =~= seq!['\n']);
    assert(ps[3][0] == ',' && ps[7][0] == ',' && ps[11][0] == ',');
    assert(ps[5][0] == '.' && ps[9][0] == '.' && ps[13][0] == '.' && ps[15][0] == '.');
    assert forall|k: int| (k == 1 || k == 3 || k == 7 || k == 11 || k == 15) implies !(#[trigger] ps[k]).contains('\n') by {
        if k == 1 || k == 3 || k == 7 || k == 11 || k == 15 {
            if ps[k].contains('\n') {
                let m = choose|m: int| 0 <= m < ps[k].len() && ps[k][m] == '\n';
                assert(false);
            }
        }
    }
}

/// A cut-off marker needs two empty lines or a line of dashes, which a text whose line feeds
/// open lines does not have.
proof fn lemma_no_cut(t: Seq<char>)
    requires
        breaks_open_lines(t),
        t.len() > 1,
        t[0] == '\n',
        t[1] == 'I',
    ensures
        next_cut(t, 0) == t.len(),
{
    assert forall|p: int| 0 <= p < t.len() implies !#[trigger] cut_at(t, p) by {
        if p == 0 {
            lemma_run_end_unique(t, p, p, CharClass::Blank);
            lemma_run_end_unique(t, 1, 1, CharClass::Blank);
        } else if line_start(t, p) {
            assert(t[p - 1] == '\n');
            let q = run_end(t, p, CharClass::Blank);
            lemma_run_end(t, p, CharClass::Blank);
            if opens_line(t, p) {
                if has_at(t, q, seq!['-', '-', '-']) {
                }
            } else {
                assert(blank_then_opens(t, p));
                assert(t[q] == '\n');
                if has_at(t, q, seq!['-', '-', '-']) {
                    assert(t.subrange(q, q + 3)[0] == t[q]);
                }
                lemma_run_end(t, q + 1, CharClass::Blank);
            }
        }
    }
    lemma_no_cut_from(t, 0);
}

/// Where no cut-off marker starts at or after `q`, the body runs to the end.
proof fn lemma_no_cut_from(t: Seq<char>, q: int)
    requires
        0 <= q,
        forall|p: int| q <= p < t.len() ==> !#[trigger] cut_at(t, p),
    ensures
        next_cut(t, q) == t.len(),
    decreases t.len() - q,
{
    if q < t.len() {
        lemma_no_cut_from(t, q + 1);
    }
}

/// The first word of `s`: its characters up to the first Unicode whitespace.
pub open spec fn first_word(s: Seq<char>) -> Seq<char> {
    s.subrange(0, run_end(s, 0, CharClass::NotWhitespace))
}

/// Whether a statement's title can be written on its `YADR:` line and read back: it is a single
/// line, without whitespace at either end, whose first word the date parser reads as the
/// statement's date.
pub open spec fn plain_title(y: SpecYAdr) -> bool {
    &&& y.title.len() > 0
    &&& !y.title.contains('\n')
    &&& !is_ws(y.title[0])
    &&& !is_ws(y.title.last())
    &&& jiff_date(first_word(y.title)) == Ok::<crate::date::CivilDate, (Seq<char>, Seq<char>)>(y.date)
}

/// Where no statement starts at or after `q`, none is found there.
proof fn lemma_no_yadr_from(t: Seq<char>, q: int)
    requires
        0 <= q,
        forall|p: int| q <= p <= t.len() ==> !#[trigger] yadr_at(t, p),
    ensures
        next_yadr(t, q) == t.len() + 1,
    decreases t.len() + 1 - q,
{
    if q <= t.len() {
        lemma_no_yadr_from(t, q + 1);
    }
}

/// A text with no whitespace at either end is its own trimmed form.
pub proof fn lemma_trim_untouched(x: Seq<char>)
    requires
        x.len() > 0,
        !is_ws(x[0]),
        !is_ws(x.last()),
    ensures
        trim(x) == x,
{
    lemma_run_end_unique(x, 0, 0, CharClass::Whitespace);
    assert(trim_start(x) =~= x);
    assert(run_start(x, x.len() as int, CharClass::Whitespace) == x.len());
    assert(trim_end(x) =~= x);
}

/// The title line of a written statement, without its colon, reads back as the title.
proof fn lemma_title_read(y: SpecYAdr)
    requires
        plain_title(y),
    ensures
        trim(": "@ + y.title) == ": "@ + y.title,
        trim_start((": "@ + y.title).drop_first()) == y.title,
{
    reveal_strlit(": ");
    let x = ": "@ + y.title;
    assert(x[0] == ':');
    assert(x.last() == y.title.last());
    lemma_trim_untouched(x);
    let z = x.drop_first();
    assert(z[0] == ' ');
    assert(z[1] == y.title[0]);
    lemma_run_end_unique(z, 0, 1, CharClass::Whitespace);
    assert(trim_start(z) =~= y.title);
}

/// The text of a statement written out: its title line, then the line feed that opens its
/// body, its paragraphs, and its tail and change log.
proof fn lemma_render_split(y: SpecYAdr)
    ensures
        render(y) == "YADR: "@ + y.title + "\n"@ + ("\n"@ + paragraphs_text(y) + rest_text(y)),
{
    reveal_strlit("\n\n");
    reveal_strlit("\n");
    if y.changes.len() > 0 {
        lemma_change_lines_joined(y.changes, y.changes.len() as int);
    }
    assert(render(y) =~= "YADR: "@ + y.title + "\n"@ + ("\n"@ + paragraphs_text(y) + rest_text(y)));
}

/// The body of a written statement with plain fields, and a plain tail and change log, opens
/// every line that follows a line feed as a statement's paragraphs and entries do.
proof fn lemma_written_breaks(y: SpecYAdr)
    requires
        plain_fields(y),
        plain_rest(y),
    ensures
        ({
            let post = "\n"@ + paragraphs_text(y) + rest_text(y);
            &&& breaks_open_lines(post)
            &&& post.len() > 1
            &&& post[0] == '\n'
            &&& post[1] == 'I'
        }),
{
    let ps = body_pieces(y);
    let a = "\n"@ + paragraphs_text(y);
    lemma_body_pieces(y);
    lemma_body_breaks_shaped(y);
    lemma_breaks_lead(ps);
    reveal_strlit("\n\n");
    let head = match y.tail {
        Some(t) => a + ("\n\n"@ + t),
        None => a,
    };
    match y.tail {
        Some(t) => {
            lemma_tail_breaks(t);
            lemma_breaks_concat(a, "\n\n"@ + t);
        },
        None => {},
    }
    assert(breaks_open_lines(head));
    assert(head.len() > 1 && head[0] == '\n' && head[1] == 'I');
    if y.changes.len() > 0 {
        lemma_log_breaks(y.changes);
        lemma_breaks_concat(head, log_text(y.changes));
    }
    assert(a + rest_text(y) =~= head + log_text(y.changes));
}

/// No statement starts on a line of a text whose line feeds open lines, written after a line
/// of its own.
proof fn lemma_no_yadr_in(a: Seq<char>, post: Seq<char>, q: int)
    requires
        breaks_open_lines(post),
        post.len() > 0,
        post[0] == '\n',
        a.len() <= q <= a.len() + post.len(),
    ensures
        !yadr_at(a + post, q),
{
    let t = a + post;
    if yadr_at(t, q) {
        if q == t.len() {
            assert(t.subrange(q, q + 4).len() == 4);
        } else {
            let qq = q - a.len();
            lemma_run_end_after(a, post, qq, CharClass::Blank);
            lemma_run_end(post, qq, CharClass::Blank);
            let e = run_end(post, qq, CharClass::Blank);
            assert(run_end(t, q, CharClass::Blank) == a.len() + e);
            if qq > 0 {
                assert(t[q - 1] == post[qq - 1]);
                if opens_line(post, qq) {
                    assert(post.subrange(e, e + 4) =~= t.subrange(a.len() + e, a.len() + e + 4));
                } else {
                    assert(blank_then_opens(post, qq));
                    assert(t.subrange(a.len() + e, a.len() + e + 4)[0] == t[a.len() + e]);
                }
            } else {
                lemma_run_end_unique(post, 0, 0, CharClass::Blank);
                assert(t.subrange(q, q + 4)[0] == t[q]);
            }
        }
    }
}

/// A statement with a plain title, plain fields, and a plain tail and change log, once written
/// out, begins with its `YADR:` line, holds no other, and holds no cut-off marker.
#[verifier::spinoff_prover]
proof fn lemma_written_lines(y: SpecYAdr)
    requires
        plain_title(y),
        plain_fields(y),
        plain_rest(y),
    ensures
        ({
            let a = "YADR: "@ + y.title + "\n"@;
            let post = "\n"@ + paragraphs_text(y) + rest_text(y);
            let t = render(y);
            &&& t == a + post
            &&& yadr_at(t, 0)
            &&& next_yadr(t, 4) == t.len() + 1
            &&& next_cut(post, 0) == post.len()
            &&& run_end(t, 0, CharClass::Blank) == 0
        }),
{
    let a = "YADR: "@ + y.title + "\n"@;
    let post = "\n"@ + paragraphs_text(y) + rest_text(y);
    let t = render(y);
    reveal_strlit("YADR: ");
    reveal_strlit("\n");
    lemma_render_split(y);
    lemma_written_breaks(y);
    lemma_no_cut(post);
    // the YADR word at the start
    assert(t[0] == 'Y' && t[1] == 'A' && t[2] == 'D' && t[3] == 'R' && t[4] == ':');
    lemma_run_end_unique(t, 0, 0, CharClass::Blank);
    assert(t.subrange(0, 4) =~= yadr_word());
    assert(!word_char(t[4]));
    // no other statement starts
    assert forall|q: int| 4 <= q <= t.len() implies !#[trigger] yadr_at(t, q) by {
        if yadr_at(t, q) {
            assert(line_start(t, q));
            assert(t[q - 1] == '\n');
            if q < a.len() {
                assert(t[q - 1] == a[q - 1]);
                assert(y.title[q - 7] == a[q - 1]);
                assert(y.title.contains('\n'));
            } else {
                lemma_no_yadr_in(a, post, q);
            }
        }
    }
    lemma_no_yadr_from(t, 4);
}

/// The part of a written statement after its `YADR` word is found to be that statement, with
/// the written paragraphs, tail and change log as its body.
proof fn lemma_written_part(y: SpecYAdr)
    requires
        plain_title(y),
        plain_fields(y),
        plain_rest(y),
    ensures
        part_outcome(": "@ + y.title + "\n"@ + ("\n"@ + paragraphs_text(y) + rest_text(y)), 1, true)
            == PartOutcome::Found(
            SpecSource {
                line: 1,
                date: y.date,
                title: y.title,
                body: "\n"@ + paragraphs_text(y) + rest_text(y),
            },
        ),
{
    let post = "\n"@ + paragraphs_text(y) + rest_text(y);
    let part = ": "@ + y.title + "\n"@ + post;
    reveal_strlit(": ");
    reveal_strlit("\n");
    lemma_written_lines(y);
    let n: int = 2 + y.title.len() as int;
    assert forall|k: int| 0 <= k < n implies CharClass::NotNewline.has(#[trigger] part[k]) by {
        if k >= 2 {
            assert(part[k] == y.title[k - 2]);
            if y.title[k - 2] == '\n' {
                assert(y.title.contains('\n'));
            }
        }
    }
    assert(part[n] == '\n');
    lemma_run_end_unique(part, 0, n, CharClass::NotNewline);
    assert(part.subrange(0, n) =~= ": "@ + y.title);
    assert(part.subrange(n + 1, part.len() as int) =~= post);
    lemma_title_read(y);
    assert(cut_body(post) =~= post);
}

/// A written statement that can be counted in bytes has a tail and change log that can be.
proof fn lemma_rest_bytes(y: SpecYAdr)
    requires
        utf8_len(render(y)) <= usize::MAX,
    ensures
        utf8_len(rest_text(y)) <= usize::MAX,
{
    let x = "YADR: "@ + y.title + "\n"@ + "\n"@ + paragraphs_text(y);
    lemma_render_split(y);
    assert(render(y) =~= x + rest_text(y));
    lemma_utf8_len_add(x, rest_text(y));
}

/// A written statement with a plain title, plain fields, and a plain tail and change log holds
/// that one statement, found on its first line with its written body.
proof fn lemma_written_found(y: SpecYAdr)
    requires
        plain_title(y),
        plain_fields(y),
        plain_rest(y),
    ensures
        spec_statements_in_comment(render(y), 1) == (
            seq![
                SpecSource {
                    line: 1,
                    date: y.date,
                    title: y.title,
                    body: "\n"@ + paragraphs_text(y) + rest_text(y),
                },
            ],
            None::<SpecError>,
        ),
{
    let post = "\n"@ + paragraphs_text(y) + rest_text(y);
    let t = render(y);
    lemma_written_lines(y);
    lemma_written_part(y);
    reveal_strlit("YADR: ");
    reveal_strlit(": ");
    reveal_strlit("\n");
    assert(next_yadr(t, 0) == 0);
    assert(t.subrange(0, 0) =~= Seq::<char>::empty());
    assert(count_char(t.subrange(0, 0), '\n') == 0);
    assert(t.subrange(4, t.len() as int) =~= ": "@ + y.title + "\n"@ + post);
    let src = SpecSource { line: 1, date: y.date, title: y.title, body: post };
    assert(statements_from(t, 0, 1, true) == (seq![src], None::<SpecError>)) by {
        assert(seq![src] + Seq::<SpecSource>::empty() =~= seq![src]);
    }
}

/// Whether a title, dated `date`, is one that a `YADR:` line can hold and give back: a single
/// line, without whitespace at either end, whose first word the date parser reads as `date`.
pub open spec fn title_reads_as(title: Seq<char>, date: crate::date::CivilDate) -> bool {
    &&& title.len() > 0
    &&& !title.contains('\n')
    &&& !is_ws(title[0])
    &&& !is_ws(title.last())
    &&& jiff_date(first_word(title)) == Ok::<crate::date::CivilDate, (Seq<char>, Seq<char>)>(date)
}

/// Trimming keeps no whitespace at either end, and adds no line feed.
proof fn lemma_trim_ends(x: Seq<char>)
    ensures
        trim(x).len() > 0 ==> !is_ws(trim(x)[0]) && !is_ws(trim(x).last()),
        !x.contains('\n') ==> !trim(x).contains('\n'),
        trim_start(x).len() > 0 ==> !is_ws(trim_start(x)[0]),
        trim_start(x).len() > 0 ==> trim_start(x).last() == x.last(),
        !x.contains('\n') ==> !trim_start(x).contains('\n'),
{
    lemma_run_end(x, 0, CharClass::Whitespace);
    let a = run_end(x, 0, CharClass::Whitespace);
    let y = trim_start(x);
    if y.len() > 0 {
        assert(y[0] == x[a]);
        assert(y.last() == x.last());
    }
    if y.contains('\n') {
        let k = choose|k: int| 0 <= k < y.len() && y[k] == '\n';
        assert(x[a + k] == '\n');
    }
    lemma_run_start(y, y.len() as int, CharClass::Whitespace);
    let b = run_start(y, y.len() as int, CharClass::Whitespace);
    let z = trim(x);
    assert(z == y.subrange(0, b));
    if z.len() > 0 {
        lemma_run_end(y, 0, CharClass::Whitespace);
        assert(z[0] == y[0]);
        assert(z.last() == y[b - 1]);
    }
    if z.contains('\n') {
        let k = choose|k: int| 0 <= k < z.len() && z[k] == '\n';
        assert(y[k] == '\n');
        assert(x[a + k] == '\n');
    }
}

/// A statement found after a `YADR` word has a title that its line can hold and give back.
proof fn lemma_outcome_title(part: Seq<char>, line: usize, pre: bool)
    ensures
        part_outcome(part, line, pre) matches PartOutcome::Found(src) ==> title_reads_as(
            src.title,
            src.date,
        ),
{
    if let PartOutcome::Found(src) = part_outcome(part, line, pre) {
        lemma_run_end(part, 0, CharClass::NotNewline);
        let nl = run_end(part, 0, CharClass::NotNewline);
        let title_line = part.subrange(0, nl);
        assert(!title_line.contains('\n')) by {
            if title_line.contains('\n') {
                let k = choose|k: int| 0 <= k < title_line.len() && title_line[k] == '\n';
                assert(part[k] == '\n');
            }
        }
        let title = trim(title_line);
        lemma_trim_ends(title_line);
        let d = title.drop_first();
        assert(!d.contains('\n')) by {
            if d.contains('\n') {
                let k = choose|k: int| 0 <= k < d.len() && d[k] == '\n';
                assert(title[k + 1] == '\n');
            }
        }
        assert(d.len() > 0 ==> d.last() == title.last());
        lemma_trim_ends(d);
    }
}

/// Every statement found from position `q` of a comment on has a title that its line can hold
/// and give back.
proof fn lemma_found_titles(t: Seq<char>, q: int, line: usize, pre: bool)
    ensures
        forall|i: int|
            0 <= i < statements_from(t, q, line, pre).0.len() ==> title_reads_as(
                (#[trigger] statements_from(t, q, line, pre).0[i]).title,
                statements_from(t, q, line, pre).0[i].date,
            ),
    decreases t.len() + 1 - q,
{
    let e = yadr_end(t, q);
    let p2 = next_yadr(t, e);
    let end = if p2 <= t.len() {
        p2
    } else {
        t.len() as int
    };
    let part = t.subrange(e, end);
    let next_line = sat_add(line as int, count_char(part, '\n') as int) as usize;
    lemma_outcome_title(part, line, pre);
    if q < p2 <= t.len() {
        lemma_found_titles(t, p2, next_line, pre);
    }
    let all = statements_from(t, q, line, pre).0;
    let rest = if q < p2 <= t.len() {
        statements_from(t, p2, next_line, pre)
    } else {
        (seq![], None)
    };
    if let PartOutcome::Found(src) = part_outcome(part, line, pre) {
        assert(all == seq![src] + rest.0);
        assert forall|i: int| 0 <= i < all.len() implies title_reads_as(
            (#[trigger] all[i]).title,
            all[i].date,
        ) by {
            if i > 0 {
                assert(all[i] == rest.0[i - 1]);
            }
        }
    }
}

/// A statement that `YAdr::parse` reads, tidied or not, has a plain title (see
/// [`plain_title`]).
pub proof fn lemma_parsed_title_plain(t: Seq<char>)
    requires
        spec_parse(t) is Ok,
    ensures
        plain_title(spec_parse(t)->Ok_0),
        plain_title(spec_tidy(spec_parse(t)->Ok_0)),
{
    let p0 = next_yadr(t, 0);
    if p0 <= t.len() {
        let pre = t.subrange(0, p0);
        lemma_found_titles(
            t,
            p0,
            sat_add(1, count_char(pre, '\n') as int) as usize,
            crate::statement::pre_blank(pre),
        );
    }
    let srcs = spec_statements_in_comment(t, 1).0;
    assert(title_reads_as(srcs[0].title, srcs[0].date));
}

/// A statement that `YAdr::parse` reads and `YAdr::tidy` tidies reads back, by `YAdr::parse`,
/// as itself once written out by `YAdr::to_string`, where its fields, tail and change log are
/// plain (see [`plain_fields`] and [`plain_rest`]) and the written text can be counted in
/// bytes; its title always is.
pub proof fn lemma_read_back_parsed(t: Seq<char>)
    requires
        spec_parse(t) is Ok,
        plain_fields(spec_tidy(spec_parse(t)->Ok_0)),
        plain_rest(spec_tidy(spec_parse(t)->Ok_0)),
        utf8_len(render(spec_tidy(spec_parse(t)->Ok_0))) <= usize::MAX,
    ensures
        spec_parse(render(spec_tidy(spec_parse(t)->Ok_0))) == Ok::<SpecYAdr, SpecError>(
            spec_tidy(spec_parse(t)->Ok_0),
        ),
{
    lemma_parsed_title_plain(t);
    lemma_read_back(spec_tidy(spec_parse(t)->Ok_0));
}

/// A statement with a plain title (see [`plain_title`]), plain fields (see [`plain_fields`]),
/// and a plain tail and change log (see [`plain_rest`]) reads back, by `YAdr::parse`, as
/// itself once written out by `YAdr::to_string`, where the written text can be counted in
/// bytes.
pub proof fn lemma_read_back(y: SpecYAdr)
    requires
        plain_title(y),
        plain_fields(y),
        plain_rest(y),
        utf8_len(render(y)) <= usize::MAX,
    ensures
        spec_parse(render(y)) == Ok::<SpecYAdr, SpecError>(y),
{
    lemma_written_found(y);
    lemma_rest_bytes(y);
    lemma_read_back_body(y);
}

} // verus!
