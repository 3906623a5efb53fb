//! The shape of a Y-Statement, and a matcher for it.
//!
//! A statement is four paragraphs of fixed wording with seven free-text fields:
//!
//! ```text
//! In the context of <F0>, we faced <F1>.
//!
//! We decided for <F2>, and neglected <F3>.
//!
//! We did this to achieve <F4>, accepting <F5>.
//!
//! We think this is the right trade-off because <F6>.
//! ```
//!
//! A [`Template`] describes such a shape: a list of *connectors* (the fixed wording between two
//! fields) with a field after every connector but the last, and a rule for what may follow the
//! last connector. Between words, one or more ASCII space characters may stand; before a field,
//! one or more; a paragraph break is two line feeds, each optionally preceded by spaces or tabs,
//! followed by optional spaces or tabs.
//!
//! Where a text can be read as an instance of a template in more than one way, the reading is
//! chosen field by field, from the first: each field is preceded by as many of the available
//! space characters as still allow the rest of the text to be read, and is then as short as
//! still allows the rest to be read. This is how a backtracking regular-expression engine
//! resolves greedy space runs and lazy fields.
use vstd::prelude::*;
use crate::text::{CharClass, run_end, has_at, lemma_run_end, skip_class, matches_at, is_space, is_blank, lemma_run_end_unique};

verus! {

/// A piece of fixed wording, as seen by the specification.
pub enum SpecTok {
    /// These exact characters.
    Lit(Seq<char>),
    /// Zero or more ASCII space characters, as many as there are.
    Spaces0,
    /// One or more ASCII space characters, as many as there are.
    Spaces1,
    /// A paragraph break: blanks, a line feed, blanks, a line feed, blanks.
    ParaBreak,
}

/// A piece of fixed wording.
pub enum Tok {
    /// These exact characters.
    Lit(Vec<char>),
    /// Zero or more ASCII space characters, as many as there are.
    Spaces0,
    /// One or more ASCII space characters, as many as there are.
    Spaces1,
    /// A paragraph break: blanks, a line feed, blanks, a line feed, blanks.
    ParaBreak,
}

impl View for Tok {
    type V = SpecTok;

    open spec fn view(&self) -> SpecTok {
        match self {
            Tok::Lit(w) => SpecTok::Lit(w@),
            Tok::Spaces0 => SpecTok::Spaces0,
            Tok::Spaces1 => SpecTok::Spaces1,
            Tok::ParaBreak => SpecTok::ParaBreak,
        }
    }
}

/// The shape of a statement or of one of its paragraphs, as seen by the specification.
pub struct SpecTemplate {
    /// The fixed wording; a field follows every connector but the last.
    pub connectors: Seq<Seq<SpecTok>>,
    /// Whether the text may go on after the last connector, as a statement may (see
    /// [`ending_tail`]); otherwise the text has to end there.
    pub open_ending: bool,
}

/// The shape of a statement or of one of its paragraphs.
pub struct Template {
    /// The fixed wording; a field follows every connector but the last.
    pub connectors: Vec<Vec<Tok>>,
    /// Whether the text may go on after the last connector.
    pub open_ending: bool,
}

/// The specification's view of a list of tokens.
pub open spec fn toks_view(v: Seq<Tok>) -> Seq<SpecTok> {
    v.map_values(|t: Tok| t@)
}

impl View for Template {
    type V = SpecTemplate;

    open spec fn view(&self) -> SpecTemplate {
        SpecTemplate {
            connectors: self.connectors@.map_values(|c: Vec<Tok>| toks_view(c@)),
            open_ending: self.open_ending,
        }
    }
}

impl SpecTemplate {
    /// The number of fields.
    pub open spec fn fields(self) -> int {
        self.connectors.len() - 1
    }

    /// A template has at least one connector.
    pub open spec fn wf(self) -> bool {
        self.connectors.len() >= 1
    }
}

/// Where a paragraph break starting at `p` ends.
pub open spec fn para_break_end(t: Seq<char>, p: int) -> Option<int> {
    let a = run_end(t, p, CharClass::Blank);
    if a < t.len() && t[a] == '\n' {
        let b = run_end(t, a + 1, CharClass::Blank);
        if b < t.len() && t[b] == '\n' {
            Some(run_end(t, b + 1, CharClass::Blank))
        } else {
            None
        }
    } else {
        None
    }
}

/// Where the token `tok` ends when matched at `p`, if it matches there.
pub open spec fn match_tok(t: Seq<char>, p: int, tok: SpecTok) -> Option<int> {
    match tok {
        SpecTok::Lit(w) => if has_at(t, p, w) {
            Some(p + w.len())
        } else {
            None
        },
        SpecTok::Spaces0 => Some(run_end(t, p, CharClass::AsciiSpace)),
        SpecTok::Spaces1 => {
            let e = run_end(t, p, CharClass::AsciiSpace);
            if e > p {
                Some(e)
            } else {
                None
            }
        },
        SpecTok::ParaBreak => para_break_end(t, p),
    }
}

/// Where the tokens `toks` end when matched one after the other from `p`, if they match.
pub open spec fn match_toks(t: Seq<char>, p: int, toks: Seq<SpecTok>) -> Option<int>
    decreases toks.len(),
{
    if toks.len() == 0 {
        Some(p)
    } else {
        match match_tok(t, p, toks[0]) {
            Some(q) => match_toks(t, q, toks.drop_first()),
            None => None,
        }
    }
}

/// Where a text that goes on after the end of a statement at `a` starts its tail: after blanks,
/// a line feed, blanks and a line feed, with at least one character left.
pub open spec fn ending_tail(t: Seq<char>, a: int) -> Option<int> {
    let x = run_end(t, a, CharClass::Blank);
    if x < t.len() && t[x] == '\n' {
        let y = run_end(t, x + 1, CharClass::Blank);
        if y < t.len() && t[y] == '\n' && y + 1 < t.len() {
            Some(y + 1)
        } else {
            None
        }
    } else {
        None
    }
}

/// Whether nothing but ASCII space characters follows `a`.
pub open spec fn only_spaces_after(t: Seq<char>, a: int) -> bool {
    run_end(t, a, CharClass::AsciiSpace) == t.len()
}

/// Whether the text may end at `a`, after the last connector.
pub open spec fn ending_ok(t: Seq<char>, a: int, open_ending: bool) -> bool {
    if open_ending {
        only_spaces_after(t, a) || ending_tail(t, a) is Some
    } else {
        a == t.len()
    }
}

/// Whether the part of the template from connector `i` on can be read from position `p` to the
/// end of `t`.
pub open spec fn feasible(tpl: SpecTemplate, t: Seq<char>, i: int, p: int) -> bool
    decreases tpl.connectors.len() - i, 0int, 0int,
{
    if i < 0 || i >= tpl.connectors.len() {
        false
    } else if i == tpl.connectors.len() - 1 {
        match match_toks(t, p, tpl.connectors[i]) {
            Some(a) => ending_ok(t, a, tpl.open_ending),
            None => false,
        }
    } else {
        match match_toks(t, p, tpl.connectors[i]) {
            Some(a) => run_end(t, a, CharClass::AsciiSpace) > a && some_feasible(
                tpl,
                t,
                i + 1,
                a + 2,
            ),
            None => false,
        }
    }
}

/// Whether connector `i` on can be read from some position in `[lo, len]`.
pub open spec fn some_feasible(tpl: SpecTemplate, t: Seq<char>, i: int, lo: int) -> bool
    decreases tpl.connectors.len() - i, 1int, t.len() + 1 - lo,
{
    if lo > t.len() || lo < 0 {
        false
    } else {
        feasible(tpl, t, i, lo) || some_feasible(tpl, t, i, lo + 1)
    }
}

/// `some_feasible` holds exactly when a position in range is feasible.
pub proof fn lemma_some_feasible(tpl: SpecTemplate, t: Seq<char>, i: int, lo: int)
    requires
        0 <= lo,
    ensures
        some_feasible(tpl, t, i, lo) <==> exists|q: int|
            lo <= q <= t.len() && #[trigger] feasible(tpl, t, i, q),
    decreases t.len() + 1 - lo,
{
    assert(lo <= t.len() ==> (some_feasible(tpl, t, i, lo) == (feasible(tpl, t, i, lo)
        || some_feasible(tpl, t, i, lo + 1))));
    if lo <= t.len() {
        lemma_some_feasible(tpl, t, i, lo + 1);
        if some_feasible(tpl, t, i, lo + 1) {
            let q = choose|q: int| lo + 1 <= q <= t.len() && #[trigger] feasible(tpl, t, i, q);
            assert(lo <= q <= t.len() && feasible(tpl, t, i, q));
        }
        if exists|q: int| lo <= q <= t.len() && #[trigger] feasible(tpl, t, i, q) {
            let q = choose|q: int| lo <= q <= t.len() && #[trigger] feasible(tpl, t, i, q);
            if q != lo {
                assert(lo + 1 <= q <= t.len() && feasible(tpl, t, i, q));
            }
        }
    }
}

/// The first `q` in `[q0, len]` from which connector `i` on can be read, or `len + 1`.
pub open spec fn first_feasible(tpl: SpecTemplate, t: Seq<char>, i: int, q0: int) -> int
    decreases t.len() + 1 - q0,
{
    if q0 > t.len() {
        t.len() + 1int
    } else if feasible(tpl, t, i, q0) {
        q0
    } else {
        first_feasible(tpl, t, i, q0 + 1)
    }
}

/// The last `q` in `[0, q0]` from which connector `i` on can be read, or `-1`.
pub open spec fn last_feasible(tpl: SpecTemplate, t: Seq<char>, i: int, q0: int) -> int
    decreases q0 + 1,
{
    if q0 < 0 {
        -1
    } else if feasible(tpl, t, i, q0) {
        q0
    } else {
        last_feasible(tpl, t, i, q0 - 1)
    }
}

/// The field that follows connector `i` when that connector ends at `a`: it is preceded by as
/// many of the space characters at `a` as leave the rest readable, and is as short as leaves
/// the rest readable.
pub open spec fn chosen_field(tpl: SpecTemplate, t: Seq<char>, i: int, a: int) -> (int, int) {
    let m = run_end(t, a, CharClass::AsciiSpace) - a;
    let qmax = last_feasible(tpl, t, i + 1, t.len() as int);
    let k = if m < qmax - a - 1 {
        m
    } else {
        qmax - a - 1
    };
    (a + k, first_feasible(tpl, t, i + 1, a + k + 1))
}

/// The fields chosen for connectors `i` on, read from `p`, and where the last connector ends.
pub open spec fn chosen_from(tpl: SpecTemplate, t: Seq<char>, i: int, p: int) -> (
    Seq<(int, int)>,
    int,
)
    decreases tpl.connectors.len() - i,
{
    if i < 0 || i >= tpl.connectors.len() - 1 {
        (seq![], match_toks(t, p, tpl.connectors[tpl.connectors.len() - 1]).unwrap_or(p))
    } else {
        let a = match_toks(t, p, tpl.connectors[i]).unwrap_or(p);
        let f = chosen_field(tpl, t, i, a);
        let rest = chosen_from(tpl, t, i + 1, f.1);
        (seq![f] + rest.0, rest.1)
    }
}

/// How `t` is read as an instance of `tpl`, if it can be: the span of every field and, for an
/// open ending, where the tail starts (if the text goes on with more than space characters).
pub open spec fn spec_read(tpl: SpecTemplate, t: Seq<char>) -> Option<(Seq<(int, int)>, Option<int>)> {
    if feasible(tpl, t, 0, 0) {
        let (fields, end) = chosen_from(tpl, t, 0, 0);
        let tail = if tpl.open_ending && !only_spaces_after(t, end) {
            ending_tail(t, end)
        } else {
            None
        };
        Some((fields, tail))
    } else {
        None
    }
}

/// An optional position, seen as an integer.
pub open spec fn opt_int(o: Option<usize>) -> Option<int> {
    match o {
        Some(x) => Some(x as int),
        None => None,
    }
}

/// A token that matches at `p` ends at or after `p`, within the text.
pub proof fn lemma_match_tok_bounds(t: Seq<char>, p: int, tok: SpecTok)
    requires
        0 <= p <= t.len(),
    ensures
        match_tok(t, p, tok) matches Some(q) ==> p <= q <= t.len(),
{
    lemma_run_end(t, p, CharClass::AsciiSpace);
    lemma_run_end(t, p, CharClass::Blank);
    let a = run_end(t, p, CharClass::Blank);
    if a < t.len() {
        lemma_run_end(t, a + 1, CharClass::Blank);
        let b = run_end(t, a + 1, CharClass::Blank);
        if b < t.len() {
            lemma_run_end(t, b + 1, CharClass::Blank);
        }
    }
}

/// Tokens that match from `p` end at or after `p`, within the text.
pub proof fn lemma_match_toks_bounds(t: Seq<char>, p: int, toks: Seq<SpecTok>)
    requires
        0 <= p <= t.len(),
    ensures
        match_toks(t, p, toks) matches Some(q) ==> p <= q <= t.len(),
    decreases toks.len(),
{
    if toks.len() > 0 {
        lemma_match_tok_bounds(t, p, toks[0]);
        if let Some(q) = match_tok(t, p, toks[0]) {
            lemma_match_toks_bounds(t, q, toks.drop_first());
        }
    }
}

/// Where a paragraph break starting at `p` ends, if one starts there.
pub fn para_break_exec(t: &[char], p: usize) -> (res: Option<usize>)
    requires
        p <= t@.len(),
    ensures
        opt_int(res) == para_break_end(t@, p as int),
        res matches Some(e) ==> p < e <= t@.len(),
{
    let a = skip_class(t, p, CharClass::Blank);
    if a < t.len() && t[a] == '\n' {
        let b = skip_class(t, a + 1, CharClass::Blank);
        if b < t.len() && t[b] == '\n' {
            Some(skip_class(t, b + 1, CharClass::Blank))
        } else {
            None
        }
    } else {
        None
    }
}

fn match_tok_exec(t: &[char], p: usize, tok: &Tok) -> (res: Option<usize>)
    requires
        p <= t@.len(),
    ensures
        opt_int(res) == match_tok(t@, p as int, tok@),
{
    match tok {
        Tok::Lit(w) => {
            if matches_at(t, p, w.as_slice()) {
                let n = t.len();
                assert(p + w@.len() <= n);
                Some(p + w.len())
            } else {
                None
            }
        },
        Tok::Spaces0 => Some(skip_class(t, p, CharClass::AsciiSpace)),
        Tok::Spaces1 => {
            let e = skip_class(t, p, CharClass::AsciiSpace);
            if e > p {
                Some(e)
            } else {
                None
            }
        },
        Tok::ParaBreak => para_break_exec(t, p),
    }
}

/// Matches the tokens `toks` one after the other from `p`.
pub fn match_toks_exec(t: &[char], p: usize, toks: &Vec<Tok>) -> (res: Option<usize>)
    requires
        p <= t@.len(),
    ensures
        opt_int(res) == match_toks(t@, p as int, toks_view(toks@)),
{
    let ghost all = toks_view(toks@);
    let mut cur = p;
    let mut k: usize = 0;
    assert(all.skip(0) =~= all);
    while k < toks.len()
        invariant
            all == toks_view(toks@),
            k <= toks@.len(),
            p <= cur <= t@.len(),
            match_toks(t@, p as int, all) == match_toks(t@, cur as int, all.skip(k as int)),
        decreases toks@.len() - k,
    {
        proof {
            lemma_match_tok_bounds(t@, cur as int, all[k as int]);
            assert(all.skip(k as int)[0] == all[k as int]);
            assert(all.skip(k as int).drop_first() =~= all.skip(k + 1));
        }
        match match_tok_exec(t, cur, &toks[k]) {
            Some(q) => {
                cur = q;
            },
            None => {
                return None;
            },
        }
        k = k + 1;
    }
    assert(all.skip(k as int) =~= Seq::<SpecTok>::empty());
    Some(cur)
}

fn ending_tail_exec(t: &[char], a: usize) -> (res: Option<usize>)
    requires
        a <= t@.len(),
    ensures
        opt_int(res) == ending_tail(t@, a as int),
        res matches Some(x) ==> x <= t@.len(),
{
    let x = skip_class(t, a, CharClass::Blank);
    if x < t.len() && t[x] == '\n' {
        let y = skip_class(t, x + 1, CharClass::Blank);
        if y < t.len() && t[y] == '\n' && y + 1 < t.len() {
            Some(y + 1)
        } else {
            None
        }
    } else {
        None
    }
}

fn only_spaces_exec(t: &[char], a: usize) -> (res: bool)
    requires
        a <= t@.len(),
    ensures
        res == only_spaces_after(t@, a as int),
{
    skip_class(t, a, CharClass::AsciiSpace) == t.len()
}

fn ending_ok_exec(t: &[char], a: usize, open_ending: bool) -> (res: bool)
    requires
        a <= t@.len(),
    ensures
        res == ending_ok(t@, a as int, open_ending),
{
    if open_ending {
        only_spaces_exec(t, a) || ending_tail_exec(t, a).is_some()
    } else {
        a == t.len()
    }
}

/// Whether a text of `n` characters is short enough for the tables the reader keeps.
pub open spec fn fits(n: int) -> bool {
    n + 2 < usize::MAX
}

/// Whether `table` records, for every position of `t`, whether connector `i` on can be read
/// from there.
pub open spec fn is_table(tpl: SpecTemplate, t: Seq<char>, i: int, table: Seq<bool>) -> bool {
    &&& table.len() == t.len() + 1
    &&& forall|q: int| 0 <= q <= t.len() ==> table[q] == feasible(tpl, t, i, q)
}

/// Builds the table for the last connector.
fn last_table(tpl: &Template, t: &[char]) -> (res: Vec<bool>)
    requires
        tpl@.wf(),
        fits(t@.len() as int),
    ensures
        is_table(tpl@, t@, tpl@.connectors.len() - 1, res@),
{
    let last = tpl.connectors.len() - 1;
    let ghost i = last as int;
    let mut table: Vec<bool> = Vec::new();
    let mut q: usize = 0;
    while q <= t.len()
        invariant
            fits(t@.len() as int),
            tpl@.wf(),
            last == tpl@.connectors.len() - 1,
            i == last,
            q <= t@.len() + 1,
            table@.len() == q,
            forall|r: int| 0 <= r < q ==> table@[r] == feasible(tpl@, t@, i, r),
        decreases t@.len() + 1 - q,
    {
        assert(toks_view(tpl.connectors@[last as int]@) == tpl@.connectors[i]);
        let ok = match match_toks_exec(t, q, &tpl.connectors[last]) {
            Some(a) => {
                proof {
                    lemma_match_toks_bounds(t@, q as int, tpl@.connectors[i]);
                }
                ending_ok_exec(t, a, tpl.open_ending)
            },
            None => false,
        };
        table.push(ok);
        q = q + 1;
    }
    table
}

/// For every `x` in `[0, len + 1]`, whether connector `i` on can be read from some position at
/// or after `x`.
fn any_table(Ghost(tpl): Ghost<SpecTemplate>, t: &[char], Ghost(i): Ghost<int>, next: &Vec<bool>) -> (res: Vec<bool>)
    requires
        fits(t@.len() as int),
        is_table(tpl, t@, i, next@),
    ensures
        res@.len() == t@.len() + 2,
        forall|x: int|
            0 <= x <= t@.len() + 1 ==> (#[trigger] res@[x] <==> exists|q: int|
                x <= q <= t@.len() && feasible(tpl, t@, i, q)),
{
    let n = t.len();
    let mut any: Vec<bool> = vec![false; n + 2];
    let mut x: usize = n + 1;
    while x > 0
        invariant
            n == t@.len(),
            fits(n as int),
            is_table(tpl, t@, i, next@),
            any@.len() == n + 2,
            x <= n + 1,
            forall|y: int|
                x <= y <= n + 1 ==> (#[trigger] any@[y] <==> exists|q: int|
                    y <= q <= n && feasible(tpl, t@, i, q)),
        decreases x,
    {
        let y = x - 1;
        let v = next[y] || any[x];
        any.set(y, v);
        proof {
            assert forall|z: int| y <= z <= n + 1 implies (#[trigger] any@[z] <==> exists|q: int|
                z <= q <= n && feasible(tpl, t@, i, q)) by {
                if z == y {
                    if v {
                        if next@[y as int] {
                            assert(feasible(tpl, t@, i, y as int));
                        } else {
                            let w = choose|q: int| x <= q <= n && feasible(tpl, t@, i, q);
                            assert(y <= w <= n && feasible(tpl, t@, i, w));
                        }
                    } else {
                        if exists|q: int| z <= q <= n && feasible(tpl, t@, i, q) {
                            let w = choose|q: int| z <= q <= n && feasible(tpl, t@, i, q);
                            if w == y {
                                assert(next@[y as int]);
                            } else {
                                assert(x <= w <= n && feasible(tpl, t@, i, w));
                            }
                        }
                    }
                }
            }
        }
        x = y;
    }
    any
}

/// Builds the table for connector `i` from the table for connector `i + 1`.
fn inner_table(tpl: &Template, t: &[char], i: usize, next: &Vec<bool>) -> (res: Vec<bool>)
    requires
        fits(t@.len() as int),
        i + 1 < tpl@.connectors.len(),
        is_table(tpl@, t@, i + 1, next@),
    ensures
        is_table(tpl@, t@, i as int, res@),
{
    let ghost j: int = i + 1;
    let any = any_table(Ghost(tpl@), t, Ghost(j), next);
    let mut table: Vec<bool> = Vec::new();
    let mut p: usize = 0;
    while p <= t.len()
        invariant
            fits(t@.len() as int),
            i + 1 < tpl@.connectors.len(),
            j == i + 1,
            any@.len() == t@.len() + 2,
            forall|x: int|
                0 <= x <= t@.len() + 1 ==> (#[trigger] any@[x] <==> exists|q: int|
                    x <= q <= t@.len() && feasible(tpl@, t@, j, q)),
            p <= t@.len() + 1,
            table@.len() == p,
            forall|r: int| 0 <= r < p ==> table@[r] == feasible(tpl@, t@, i as int, r),
        decreases t@.len() + 1 - p,
    {
        assert(toks_view(tpl.connectors@[i as int]@) == tpl@.connectors[i as int]);
        let ok = match match_toks_exec(t, p, &tpl.connectors[i]) {
            Some(a) => {
                proof {
                    lemma_match_toks_bounds(t@, p as int, tpl@.connectors[i as int]);
                }
                let e = skip_class(t, a, CharClass::AsciiSpace);
                if e > a && a + 2 <= t.len() {
                    let r = any[a + 2];
                    proof {
                        lemma_some_feasible(tpl@, t@, j, a + 2);
                    }
                    r
                } else {
                    proof {
                        if e > a {
                            assert forall|q: int|
                                a + 2 <= q <= t@.len() implies !#[trigger] feasible(tpl@, t@, j, q) by {}
                        }
                    }
                    false
                }
            },
            None => {
                assert(!feasible(tpl@, t@, i as int, p as int));
                false
            },
        };
        table.push(ok);
        p = p + 1;
    }
    table
}

/// `last_feasible` finds the last feasible position at or before `q0`.
pub proof fn lemma_last_feasible(tpl: SpecTemplate, t: Seq<char>, i: int, q0: int)
    requires
        q0 >= -1,
    ensures
        -1 <= last_feasible(tpl, t, i, q0) <= q0,
        last_feasible(tpl, t, i, q0) >= 0 ==> feasible(tpl, t, i, last_feasible(tpl, t, i, q0)),
        forall|q: int|
            last_feasible(tpl, t, i, q0) < q <= q0 ==> !#[trigger] feasible(tpl, t, i, q),
    decreases q0 + 1,
{
    if q0 >= 0 && !feasible(tpl, t, i, q0) {
        lemma_last_feasible(tpl, t, i, q0 - 1);
    }
}

/// `first_feasible` finds the first feasible position at or after `q0`.
pub proof fn lemma_first_feasible(tpl: SpecTemplate, t: Seq<char>, i: int, q0: int)
    requires
        q0 <= t.len() + 1,
    ensures
        q0 <= first_feasible(tpl, t, i, q0) <= t.len() + 1,
        first_feasible(tpl, t, i, q0) <= t.len() ==> feasible(
            tpl,
            t,
            i,
            first_feasible(tpl, t, i, q0),
        ),
        forall|q: int|
            q0 <= q < first_feasible(tpl, t, i, q0) ==> !#[trigger] feasible(tpl, t, i, q),
    decreases t.len() + 1 - q0,
{
    if q0 <= t.len() && !feasible(tpl, t, i, q0) {
        lemma_first_feasible(tpl, t, i, q0 + 1);
    }
}

/// The last feasible position of a table, if there is one.
fn last_true(Ghost(tpl): Ghost<SpecTemplate>, t: &[char], Ghost(i): Ghost<int>, table: &Vec<bool>) -> (res: Option<usize>)
    requires
        is_table(tpl, t@, i, table@),
    ensures
        match res {
            Some(q) => q as int == last_feasible(tpl, t@, i, t@.len() as int),
            None => last_feasible(tpl, t@, i, t@.len() as int) == -1,
        },
{
    let mut q = table.len();
    while q > 0
        invariant
            is_table(tpl, t@, i, table@),
            q <= table@.len(),
            last_feasible(tpl, t@, i, t@.len() as int) == last_feasible(tpl, t@, i, q - 1),
        decreases q,
    {
        if table[q - 1] {
            return Some(q - 1);
        }
        q = q - 1;
    }
    None
}

/// The first feasible position of a table at or after `lo`, if there is one.
fn first_true(Ghost(tpl): Ghost<SpecTemplate>, t: &[char], Ghost(i): Ghost<int>, table: &Vec<bool>, lo: usize) -> (res: Option<usize>)
    requires
        is_table(tpl, t@, i, table@),
        lo <= t@.len() + 1,
    ensures
        match res {
            Some(q) => q as int == first_feasible(tpl, t@, i, lo as int) && q <= t@.len(),
            None => first_feasible(tpl, t@, i, lo as int) == t@.len() + 1,
        },
{
    let mut q = lo;
    while q < table.len()
        invariant
            is_table(tpl, t@, i, table@),
            lo <= q <= table@.len(),
            first_feasible(tpl, t@, i, lo as int) == first_feasible(tpl, t@, i, q as int),
        decreases table@.len() - q,
    {
        if table[q] {
            return Some(q);
        }
        q = q + 1;
    }
    None
}

/// Whether connector `i` can be read from `p`, when the table for `i + 1` is at hand.
fn feasible_at(tpl: &Template, t: &[char], i: usize, p: usize, next: &Vec<bool>) -> (res: Option<(usize, usize)>)
    requires
        fits(t@.len() as int),
        i + 1 < tpl@.connectors.len(),
        p <= t@.len(),
        is_table(tpl@, t@, i + 1, next@),
    ensures
        res is Some <==> feasible(tpl@, t@, i as int, p as int),
        res matches Some((a, e)) ==> {
            &&& match_toks(t@, p as int, tpl@.connectors[i as int]) == Some(a as int)
            &&& e == run_end(t@, a as int, CharClass::AsciiSpace)
            &&& p <= a < e <= t@.len()
        },
{
    let ghost j: int = i + 1;
    assert(toks_view(tpl.connectors@[i as int]@) == tpl@.connectors[i as int]);
    match match_toks_exec(t, p, &tpl.connectors[i]) {
        Some(a) => {
            proof {
                lemma_match_toks_bounds(t@, p as int, tpl@.connectors[i as int]);
                lemma_some_feasible(tpl@, t@, j, a + 2);
                lemma_last_feasible(tpl@, t@, j, t@.len() as int);
            }
            let e = skip_class(t, a, CharClass::AsciiSpace);
            if e > a {
                match last_true(Ghost(tpl@), t, Ghost(j), next) {
                    Some(qmax) => {
                        if qmax >= a + 2 {
                            return Some((a, e));
                        }
                    },
                    None => {},
                }
            }
            None
        },
        None => None,
    }
}

/// The form in which `read` reports its result, seen as integers.
pub open spec fn read_view(r: Option<(Vec<(usize, usize)>, Option<usize>)>) -> Option<(Seq<(int, int)>, Option<int>)> {
    match r {
        Some((fields, tail)) => Some((
            fields@.map_values(|f: (usize, usize)| (f.0 as int, f.1 as int)),
            opt_int(tail),
        )),
        None => None,
    }
}

/// Whether every span lies within a text of `len` characters and is not empty.
pub open spec fn spans_within(fields: Seq<(usize, usize)>, len: int) -> bool {
    forall|k: int| 0 <= k < fields.len() ==> #[trigger] fields[k].0 < fields[k].1 <= len
}

/// Whether the position, if any, lies within a text of `len` characters.
pub open spec fn opt_within(x: Option<usize>, len: int) -> bool {
    match x {
        Some(x) => x <= len,
        None => true,
    }
}

/// The fields `read` reports, one for each connector but the last, lie within the text and
/// are not empty; so does the tail.
pub open spec fn read_bounds(tpl: SpecTemplate, t: Seq<char>, res: Option<(Vec<(usize, usize)>, Option<usize>)>) -> bool {
    match res {
        Some(r) => r.0@.len() == tpl.connectors.len() - 1 && spans_within(r.0@, t.len() as int)
            && opt_within(r.1, t.len() as int),
        None => true,
    }
}

/// Reads `t` as an instance of `tpl`: the span of every field and where the tail starts, chosen
/// as described at the top of this module, or `None` when `t` is no instance of `tpl`.
pub fn read(tpl: &Template, t: &[char]) -> (res: Option<(Vec<(usize, usize)>, Option<usize>)>)
    requires
        tpl@.wf(),
        fits(t@.len() as int),
    ensures
        read_view(res) == spec_read(tpl@, t@),
        read_bounds(tpl@, t@, res),
{
    let nconn = tpl.connectors.len();
    let last = nconn - 1;
    // tables[k] is the table for connector `last - k`
    let mut tables: Vec<Vec<bool>> = Vec::new();
    tables.push(last_table(tpl, t));
    let mut k: usize = 0;
    while k + 1 < last
        invariant
            nconn == tpl@.connectors.len(),
            last == nconn - 1,
            tpl@.wf(),
            fits(t@.len() as int),
            k + 1 <= last || (k == 0 && last <= 1),
            tables@.len() == k + 1,
            forall|m: int| 0 <= m <= k ==> is_table(tpl@, t@, last - m, #[trigger] tables@[m]@),
        decreases last - k,
    {
        let stage = last - k - 1;
        let next_table = inner_table(tpl, t, stage, &tables[k]);
        tables.push(next_table);
        k = k + 1;
    }
    // The table for connector `i`, 1 <= i <= last, is tables[last - i].
    assert(forall|i: int| 1 <= i <= last ==> is_table(tpl@, t@, i, #[trigger] tables@[last - i]@));
    let mut fields: Vec<(usize, usize)> = Vec::new();
    let mut p: usize = 0;
    let mut i: usize = 0;
    if last == 0 {
        assert(toks_view(tpl.connectors@[0]@) == tpl@.connectors[0]);
        match match_toks_exec(t, 0, &tpl.connectors[0]) {
            Some(a) => {
                proof {
                    lemma_match_toks_bounds(t@, 0, tpl@.connectors[0]);
                }
                if !ending_ok_exec(t, a, tpl.open_ending) {
                    return None;
                }
            },
            None => {
                return None;
            },
        }
    } else {
        if feasible_at(tpl, t, 0, 0, &tables[last - 1]).is_none() {
            return None;
        }
    }
    assert(feasible(tpl@, t@, 0, 0));
    let ghost whole = chosen_from(tpl@, t@, 0, 0);
    assert(fields@.map_values(|f: (usize, usize)| (f.0 as int, f.1 as int)) =~= Seq::<(int, int)>::empty());
    while i < last
        invariant
            nconn == tpl@.connectors.len(),
            last == nconn - 1,
            tpl@.wf(),
            fits(t@.len() as int),
            tables@.len() == (if last <= 1 { 1 } else { last as int }),
            forall|i: int| 1 <= i <= last ==> is_table(tpl@, t@, i, #[trigger] tables@[last - i]@),
            i <= last,
            p <= t@.len(),
            fields@.len() == i,
            spans_within(fields@, t@.len() as int),
            feasible(tpl@, t@, i as int, p as int),
            whole == chosen_from(tpl@, t@, 0, 0),
            whole.0 == fields@.map_values(|f: (usize, usize)| (f.0 as int, f.1 as int)) + chosen_from(tpl@, t@, i as int, p as int).0,
            whole.1 == chosen_from(tpl@, t@, i as int, p as int).1,
        decreases last - i,
    {
        let ghost j: int = i + 1;
        let next = &tables[last - i - 1];
        assert(is_table(tpl@, t@, j, tables@[last - j]@));
        assert(last - j == (last - i - 1) as int);
        assert(is_table(tpl@, t@, j, next@));
        let (a, e) = match feasible_at(tpl, t, i, p, next) {
            Some(x) => x,
            None => {
                assert(false);
                return None;
            },
        };
        proof {
            lemma_last_feasible(tpl@, t@, j, t@.len() as int);
            lemma_some_feasible(tpl@, t@, j, a + 2);
            let w = choose|q: int| a + 2 <= q <= t@.len() && #[trigger] feasible(tpl@, t@, j, q);
            assert(feasible(tpl@, t@, j, w));
        }
        let qmax = match last_true(Ghost(tpl@), t, Ghost(j), next) {
            Some(q) => q,
            None => {
                assert(false);
                return None;
            },
        };
        let m = e - a;
        let spaces = if m < qmax - a - 1 {
            m
        } else {
            qmax - a - 1
        };
        proof {
            lemma_first_feasible(tpl@, t@, j, a + spaces + 1);
        }
        let q = match first_true(Ghost(tpl@), t, Ghost(j), next, a + spaces + 1) {
            Some(q) => q,
            None => {
                assert(false);
                return None;
            },
        };
        let ghost before = fields@.map_values(|f: (usize, usize)| (f.0 as int, f.1 as int));
        fields.push((a + spaces, q));
        proof {
            let f = chosen_field(tpl@, t@, i as int, a as int);
            assert(f == (a + spaces, q as int));
            let rest = chosen_from(tpl@, t@, j, q as int);
            assert(chosen_from(tpl@, t@, i as int, p as int) == (seq![f] + rest.0, rest.1));
            assert(fields@.map_values(|f: (usize, usize)| (f.0 as int, f.1 as int)) =~= before.push(f));
            assert(before + (seq![f] + rest.0) =~= before.push(f) + rest.0);
        }
        p = q;
        i = i + 1;
    }
    assert(toks_view(tpl.connectors@[last as int]@) == tpl@.connectors[last as int]);
    let a = match match_toks_exec(t, p, &tpl.connectors[last]) {
        Some(a) => a,
        None => {
            assert(false);
            return None;
        },
    };
    proof {
        lemma_match_toks_bounds(t@, p as int, tpl@.connectors[last as int]);
        assert(chosen_from(tpl@, t@, last as int, p as int).0 =~= Seq::<(int, int)>::empty());
        assert(whole.0 =~= fields@.map_values(|f: (usize, usize)| (f.0 as int, f.1 as int)));
    }
    let tail = if tpl.open_ending && !only_spaces_exec(t, a) {
        ending_tail_exec(t, a)
    } else {
        None
    };
    assert(opt_within(tail, t@.len() as int));
    let res = Some((fields, tail));
    assert(read_bounds(tpl@, t@, res));
    res
}

/// The opening words of a statement: `In the context of`, after optional spaces.
pub open spec fn spec_conn_in_context() -> Seq<SpecTok> {
    seq![
        SpecTok::Spaces0,
        SpecTok::Lit(seq!['I', 'n']),
        SpecTok::Spaces1,
        SpecTok::Lit(seq!['t', 'h', 'e']),
        SpecTok::Spaces1,
        SpecTok::Lit(seq!['c', 'o', 'n', 't', 'e', 'x', 't']),
        SpecTok::Spaces1,
        SpecTok::Lit(seq!['o', 'f']),
    ]
}

fn conn_in_context() -> (res: Vec<Tok>)
    ensures
        toks_view(res@) == spec_conn_in_context(),
{
    let l0: Vec<char> = vec!['I', 'n'];
    assert(l0@ =~= seq!['I', 'n']);
    let l1: Vec<char> = vec!['t', 'h', 'e'];
    assert(l1@ =~= seq!['t', 'h', 'e']);
    let l2: Vec<char> = vec!['c', 'o', 'n', 't', 'e', 'x', 't'];
    assert(l2@ =~= seq!['c', 'o', 'n', 't', 'e', 'x', 't']);
    let l3: Vec<char> = vec!['o', 'f'];
    assert(l3@ =~= seq!['o', 'f']);
    let v: Vec<Tok> = vec![
        Tok::Spaces0,
        Tok::Lit(l0),
        Tok::Spaces1,
        Tok::Lit(l1),
        Tok::Spaces1,
        Tok::Lit(l2),
        Tok::Spaces1,
        Tok::Lit(l3),
    ];
    assert(toks_view(v@) =~~= spec_conn_in_context());
    v
}

/// The words after the use case: `, we faced`.
pub open spec fn spec_conn_we_faced() -> Seq<SpecTok> {
    seq![
        SpecTok::Lit(seq![',']),
        SpecTok::Spaces1,
        SpecTok::Lit(seq!['w', 'e']),
        SpecTok::Spaces1,
        SpecTok::Lit(seq!['f', 'a', 'c', 'e', 'd']),
    ]
}

fn conn_we_faced() -> (res: Vec<Tok>)
    ensures
        toks_view(res@) == spec_conn_we_faced(),
{
    let l0: Vec<char> = vec![','];
    assert(l0@ =~= seq![',']);
    let l1: Vec<char> = vec!['w', 'e'];
    assert(l1@ =~= seq!['w', 'e']);
    let l2: Vec<char> = vec!['f', 'a', 'c', 'e', 'd'];
    assert(l2@ =~= seq!['f', 'a', 'c', 'e', 'd']);
    let v: Vec<Tok> = vec![
        Tok::Lit(l0),
        Tok::Spaces1,
        Tok::Lit(l1),
        Tok::Spaces1,
        Tok::Lit(l2),
    ];
    assert(toks_view(v@) =~~= spec_conn_we_faced());
    v
}

/// The end of the first paragraph and the opening of the second: `.`, a paragraph break, `We decided for`.
pub open spec fn spec_conn_we_decided() -> Seq<SpecTok> {
    seq![
        SpecTok::Lit(seq!['.']),
        SpecTok::ParaBreak,
        SpecTok::Lit(seq!['W', 'e']),
        SpecTok::Spaces1,
        SpecTok::Lit(seq!['d', 'e', 'c', 'i', 'd', 'e', 'd']),
        SpecTok::Spaces1,
        SpecTok::Lit(seq!['f', 'o', 'r']),
    ]
}

fn conn_we_decided() -> (res: Vec<Tok>)
    ensures
        toks_view(res@) == spec_conn_we_decided(),
{
    let l0: Vec<char> = vec!['.'];
    assert(l0@ =~= seq!['.']);
    let l1: Vec<char> = vec!['W', 'e'];
    assert(l1@ =~= seq!['W', 'e']);
    let l2: Vec<char> = vec!['d', 'e', 'c', 'i', 'd', 'e', 'd'];
    assert(l2@ =~= seq!['d', 'e', 'c', 'i', 'd', 'e', 'd']);
    let l3: Vec<char> = vec!['f', 'o', 'r'];
    assert(l3@ =~= seq!['f', 'o', 'r']);
    let v: Vec<Tok> = vec![
        Tok::Lit(l0),
        Tok::ParaBreak,
        Tok::Lit(l1),
        Tok::Spaces1,
        Tok::Lit(l2),
        Tok::Spaces1,
        Tok::Lit(l3),
    ];
    assert(toks_view(v@) =~~= spec_conn_we_decided());
    v
}

/// The words after the chosen option: `, and neglected`.
pub open spec fn spec_conn_and_neglected() -> Seq<SpecTok> {
    seq![
        SpecTok::Lit(seq![',']),
        SpecTok::Spaces1,
        SpecTok::Lit(seq!['a', 'n', 'd']),
        SpecTok::Spaces1,
        SpecTok::Lit(seq!['n', 'e', 'g', 'l', 'e', 'c', 't', 'e', 'd']),
    ]
}

fn conn_and_neglected() -> (res: Vec<Tok>)
    ensures
        toks_view(res@) == spec_conn_and_neglected(),
{
    let l0: Vec<char> = vec![','];
    assert(l0@ =~= seq![',']);
    let l1: Vec<char> = vec!['a', 'n', 'd'];
    assert(l1@ =~= seq!['a', 'n', 'd']);
    let l2: Vec<char> = vec!['n', 'e', 'g', 'l', 'e', 'c', 't', 'e', 'd'];
    assert(l2@ =~= seq!['n', 'e', 'g', 'l', 'e', 'c', 't', 'e', 'd']);
    let v: Vec<Tok> = vec![
        Tok::Lit(l0),
        Tok::Spaces1,
        Tok::Lit(l1),
        Tok::Spaces1,
        Tok::Lit(l2),
    ];
    assert(toks_view(v@) =~~= spec_conn_and_neglected());
    v
}

/// The end of the second paragraph and the opening of the third: `.`, a paragraph break, `We did this to achieve`.
pub open spec fn spec_conn_we_did() -> Seq<SpecTok> {
    seq![
        SpecTok::Lit(seq!['.']),
        SpecTok::ParaBreak,
        SpecTok::Lit(seq!['W', 'e']),
        SpecTok::Spaces1,
        SpecTok::Lit(seq!['d', 'i', 'd']),
        SpecTok::Spaces1,
        SpecTok::Lit(seq!['t', 'h', 'i', 's']),
        SpecTok::Spaces1,
        SpecTok::Lit(seq!['t', 'o']),
        SpecTok::Spaces1,
        SpecTok::Lit(seq!['a', 'c', 'h', 'i', 'e', 'v', 'e']),
    ]
}

fn conn_we_did() -> (res: Vec<Tok>)
    ensures
        toks_view(res@) == spec_conn_we_did(),
{
    let l0: Vec<char> = vec!['.'];
    assert(l0@ =~= seq!['.']);
    let l1: Vec<char> = vec!['W', 'e'];
    assert(l1@ =~= seq!['W', 'e']);
    let l2: Vec<char> = vec!['d', 'i', 'd'];
    assert(l2@ =~= seq!['d', 'i', 'd']);
    let l3: Vec<char> = vec!['t', 'h', 'i', 's'];
    assert(l3@ =~= seq!['t', 'h', 'i', 's']);
    let l4: Vec<char> = vec!['t', 'o'];
    assert(l4@ =~= seq!['t', 'o']);
    let l5: Vec<char> = vec!['a', 'c', 'h', 'i', 'e', 'v', 'e'];
    assert(l5@ =~= seq!['a', 'c', 'h', 'i', 'e', 'v', 'e']);
    let v: Vec<Tok> = vec![
        Tok::Lit(l0),
        Tok::ParaBreak,
        Tok::Lit(l1),
        Tok::Spaces1,
        Tok::Lit(l2),
        Tok::Spaces1,
        Tok::Lit(l3),
        Tok::Spaces1,
        Tok::Lit(l4),
        Tok::Spaces1,
        Tok::Lit(l5),
    ];
    assert(toks_view(v@) =~~= spec_conn_we_did());
    v
}

/// The words after the qualities achieved: `, accepting`.
pub open spec fn spec_conn_accepting() -> Seq<SpecTok> {
    seq![
        SpecTok::Lit(seq![',']),
        SpecTok::Spaces1,
        SpecTok::Lit(seq!['a', 'c', 'c', 'e', 'p', 't', 'i', 'n', 'g']),
    ]
}

fn conn_accepting() -> (res: Vec<Tok>)
    ensures
        toks_view(res@) == spec_conn_accepting(),
{
    let l0: Vec<char> = vec![','];
    assert(l0@ =~= seq![',']);
    let l1: Vec<char> = vec!['a', 'c', 'c', 'e', 'p', 't', 'i', 'n', 'g'];
    assert(l1@ =~= seq!['a', 'c', 'c', 'e', 'p', 't', 'i', 'n', 'g']);
    let v: Vec<Tok> = vec![
        Tok::Lit(l0),
        Tok::Spaces1,
        Tok::Lit(l1),
    ];
    assert(toks_view(v@) =~~= spec_conn_accepting());
    v
}

/// The end of the third paragraph and the opening of the fourth: `.`, a paragraph break, `We think this is the right trade-off because`.
pub open spec fn spec_conn_we_think() -> Seq<SpecTok> {
    seq![
        SpecTok::Lit(seq!['.']),
        SpecTok::ParaBreak,
        SpecTok::Lit(seq!['W', 'e']),
        SpecTok::Spaces1,
        SpecTok::Lit(seq!['t', 'h', 'i', 'n', 'k']),
        SpecTok::Spaces1,
        SpecTok::Lit(seq!['t', 'h', 'i', 's']),
        SpecTok::Spaces1,
        SpecTok::Lit(seq!['i', 's']),
        SpecTok::Spaces1,
        SpecTok::Lit(seq!['t', 'h', 'e']),
        SpecTok::Spaces1,
        SpecTok::Lit(seq!['r', 'i', 'g', 'h', 't']),
        SpecTok::Spaces1,
        SpecTok::Lit(seq!['t', 'r', 'a', 'd', 'e', '-', 'o', 'f', 'f']),
        SpecTok::Spaces1,
        SpecTok::Lit(seq!['b', 'e', 'c', 'a', 'u', 's', 'e']),
    ]
}

fn conn_we_think() -> (res: Vec<Tok>)
    ensures
        toks_view(res@) == spec_conn_we_think(),
{
    let l0: Vec<char> = vec!['.'];
    assert(l0@ =~= seq!['.']);
    let l1: Vec<char> = vec!['W', 'e'];
    assert(l1@ =~= seq!['W', 'e']);
    let l2: Vec<char> = vec!['t', 'h', 'i', 'n', 'k'];
    assert(l2@ =~= seq!['t', 'h', 'i', 'n', 'k']);
    let l3: Vec<char> = vec!['t', 'h', 'i', 's'];
    assert(l3@ =~= seq!['t', 'h', 'i', 's']);
    let l4: Vec<char> = vec!['i', 's'];
    assert(l4@ =~= seq!['i', 's']);
    let l5: Vec<char> = vec!['t', 'h', 'e'];
    assert(l5@ =~= seq!['t', 'h', 'e']);
    let l6: Vec<char> = vec!['r', 'i', 'g', 'h', 't'];
    assert(l6@ =~= seq!['r', 'i', 'g', 'h', 't']);
    let l7: Vec<char> = vec!['t', 'r', 'a', 'd', 'e', '-', 'o', 'f', 'f'];
    assert(l7@ =~= seq!['t', 'r', 'a', 'd', 'e', '-', 'o', 'f', 'f']);
    let l8: Vec<char> = vec!['b', 'e', 'c', 'a', 'u', 's', 'e'];
    assert(l8@ =~= seq!['b', 'e', 'c', 'a', 'u', 's', 'e']);
    let v: Vec<Tok> = vec![
        Tok::Lit(l0),
        Tok::ParaBreak,
        Tok::Lit(l1),
        Tok::Spaces1,
        Tok::Lit(l2),
        Tok::Spaces1,
        Tok::Lit(l3),
        Tok::Spaces1,
        Tok::Lit(l4),
        Tok::Spaces1,
        Tok::Lit(l5),
        Tok::Spaces1,
        Tok::Lit(l6),
        Tok::Spaces1,
        Tok::Lit(l7),
        Tok::Spaces1,
        Tok::Lit(l8),
    ];
    assert(toks_view(v@) =~~= spec_conn_we_think());
    v
}

/// The full stop that ends a paragraph.
pub open spec fn spec_conn_full_stop() -> Seq<SpecTok> {
    seq![
        SpecTok::Lit(seq!['.']),
    ]
}

fn conn_full_stop() -> (res: Vec<Tok>)
    ensures
        toks_view(res@) == spec_conn_full_stop(),
{
    let l0: Vec<char> = vec!['.'];
    assert(l0@ =~= seq!['.']);
    let v: Vec<Tok> = vec![
        Tok::Lit(l0),
    ];
    assert(toks_view(v@) =~~= spec_conn_full_stop());
    v
}

/// The opening words of the first paragraph on their own.
pub open spec fn spec_para_in_context() -> Seq<SpecTok> {
    seq![
        SpecTok::Lit(seq!['I', 'n']),
        SpecTok::Spaces1,
        SpecTok::Lit(seq!['t', 'h', 'e']),
        SpecTok::Spaces1,
        SpecTok::Lit(seq!['c', 'o', 'n', 't', 'e', 'x', 't']),
        SpecTok::Spaces1,
        SpecTok::Lit(seq!['o', 'f']),
    ]
}

fn para_in_context() -> (res: Vec<Tok>)
    ensures
        toks_view(res@) == spec_para_in_context(),
{
    let l0: Vec<char> = vec!['I', 'n'];
    assert(l0@ =~= seq!['I', 'n']);
    let l1: Vec<char> = vec!['t', 'h', 'e'];
    assert(l1@ =~= seq!['t', 'h', 'e']);
    let l2: Vec<char> = vec!['c', 'o', 'n', 't', 'e', 'x', 't'];
    assert(l2@ =~= seq!['c', 'o', 'n', 't', 'e', 'x', 't']);
    let l3: Vec<char> = vec!['o', 'f'];
    assert(l3@ =~= seq!['o', 'f']);
    let v: Vec<Tok> = vec![
        Tok::Lit(l0),
        Tok::Spaces1,
        Tok::Lit(l1),
        Tok::Spaces1,
        Tok::Lit(l2),
        Tok::Spaces1,
        Tok::Lit(l3),
    ];
    assert(toks_view(v@) =~~= spec_para_in_context());
    v
}

/// The opening words of the second paragraph on their own.
pub open spec fn spec_para_we_decided() -> Seq<SpecTok> {
    seq![
        SpecTok::Lit(seq!['W', 'e']),
        SpecTok::Spaces1,
        SpecTok::Lit(seq!['d', 'e', 'c', 'i', 'd', 'e', 'd']),
        SpecTok::Spaces1,
        SpecTok::Lit(seq!['f', 'o', 'r']),
    ]
}

fn para_we_decided() -> (res: Vec<Tok>)
    ensures
        toks_view(res@) == spec_para_we_decided(),
{
    let l0: Vec<char> = vec!['W', 'e'];
    assert(l0@ =~= seq!['W', 'e']);
    let l1: Vec<char> = vec!['d', 'e', 'c', 'i', 'd', 'e', 'd'];
    assert(l1@ =~= seq!['d', 'e', 'c', 'i', 'd', 'e', 'd']);
    let l2: Vec<char> = vec!['f', 'o', 'r'];
    assert(l2@ =~= seq!['f', 'o', 'r']);
    let v: Vec<Tok> = vec![
        Tok::Lit(l0),
        Tok::Spaces1,
        Tok::Lit(l1),
        Tok::Spaces1,
        Tok::Lit(l2),
    ];
    assert(toks_view(v@) =~~= spec_para_we_decided());
    v
}

/// The opening words of the third paragraph on their own.
pub open spec fn spec_para_we_did() -> Seq<SpecTok> {
    seq![
        SpecTok::Lit(seq!['W', 'e']),
        SpecTok::Spaces1,
        SpecTok::Lit(seq!['d', 'i', 'd']),
        SpecTok::Spaces1,
        SpecTok::Lit(seq!['t', 'h', 'i', 's']),
        SpecTok::Spaces1,
        SpecTok::Lit(seq!['t', 'o']),
        SpecTok::Spaces1,
        SpecTok::Lit(seq!['a', 'c', 'h', 'i', 'e', 'v', 'e']),
    ]
}

fn para_we_did() -> (res: Vec<Tok>)
    ensures
        toks_view(res@) == spec_para_we_did(),
{
    let l0: Vec<char> = vec!['W', 'e'];
    assert(l0@ =~= seq!['W', 'e']);
    let l1: Vec<char> = vec!['d', 'i', 'd'];
    assert(l1@ =~= seq!['d', 'i', 'd']);
    let l2: Vec<char> = vec!['t', 'h', 'i', 's'];
    assert(l2@ =~= seq!['t', 'h', 'i', 's']);
    let l3: Vec<char> = vec!['t', 'o'];
    assert(l3@ =~= seq!['t', 'o']);
    let l4: Vec<char> = vec!['a', 'c', 'h', 'i', 'e', 'v', 'e'];
    assert(l4@ =~= seq!['a', 'c', 'h', 'i', 'e', 'v', 'e']);
    let v: Vec<Tok> = vec![
        Tok::Lit(l0),
        Tok::Spaces1,
        Tok::Lit(l1),
        Tok::Spaces1,
        Tok::Lit(l2),
        Tok::Spaces1,
        Tok::Lit(l3),
        Tok::Spaces1,
        Tok::Lit(l4),
    ];
    assert(toks_view(v@) =~~= spec_para_we_did());
    v
}

/// The opening words of the fourth paragraph on their own.
pub open spec fn spec_para_we_think() -> Seq<SpecTok> {
    seq![
        SpecTok::Lit(seq!['W', 'e']),
        SpecTok::Spaces1,
        SpecTok::Lit(seq!['t', 'h', 'i', 'n', 'k']),
        SpecTok::Spaces1,
        SpecTok::Lit(seq!['t', 'h', 'i', 's']),
        SpecTok::Spaces1,
        SpecTok::Lit(seq!['i', 's']),
        SpecTok::Spaces1,
        SpecTok::Lit(seq!['t', 'h', 'e']),
        SpecTok::Spaces1,
        SpecTok::Lit(seq!['r', 'i', 'g', 'h', 't']),
        SpecTok::Spaces1,
        SpecTok::Lit(seq!['t', 'r', 'a', 'd', 'e', '-', 'o', 'f', 'f']),
        SpecTok::Spaces1,
        SpecTok::Lit(seq!['b', 'e', 'c', 'a', 'u', 's', 'e']),
    ]
}

fn para_we_think() -> (res: Vec<Tok>)
    ensures
        toks_view(res@) == spec_para_we_think(),
{
    let l0: Vec<char> = vec!['W', 'e'];
    assert(l0@ =~= seq!['W', 'e']);
    let l1: Vec<char> = vec!['t', 'h', 'i', 'n', 'k'];
    assert(l1@ =~= seq!['t', 'h', 'i', 'n', 'k']);
    let l2: Vec<char> = vec!['t', 'h', 'i', 's'];
    assert(l2@ =~= seq!['t', 'h', 'i', 's']);
    let l3: Vec<char> = vec!['i', 's'];
    assert(l3@ =~= seq!['i', 's']);
    let l4: Vec<char> = vec!['t', 'h', 'e'];
    assert(l4@ =~= seq!['t', 'h', 'e']);
    let l5: Vec<char> = vec!['r', 'i', 'g', 'h', 't'];
    assert(l5@ =~= seq!['r', 'i', 'g', 'h', 't']);
    let l6: Vec<char> = vec!['t', 'r', 'a', 'd', 'e', '-', 'o', 'f', 'f'];
    assert(l6@ =~= seq!['t', 'r', 'a', 'd', 'e', '-', 'o', 'f', 'f']);
    let l7: Vec<char> = vec!['b', 'e', 'c', 'a', 'u', 's', 'e'];
    assert(l7@ =~= seq!['b', 'e', 'c', 'a', 'u', 's', 'e']);
    let v: Vec<Tok> = vec![
        Tok::Lit(l0),
        Tok::Spaces1,
        Tok::Lit(l1),
        Tok::Spaces1,
        Tok::Lit(l2),
        Tok::Spaces1,
        Tok::Lit(l3),
        Tok::Spaces1,
        Tok::Lit(l4),
        Tok::Spaces1,
        Tok::Lit(l5),
        Tok::Spaces1,
        Tok::Lit(l6),
        Tok::Spaces1,
        Tok::Lit(l7),
    ];
    assert(toks_view(v@) =~~= spec_para_we_think());
    v
}

/// The shape of a whole statement: four paragraphs with seven fields, optionally followed by a
/// tail.
#[verifier::opaque]
pub open spec fn statement_template() -> SpecTemplate {
    SpecTemplate {
        connectors: seq![
            spec_conn_in_context(),
            spec_conn_we_faced(),
            spec_conn_we_decided(),
            spec_conn_and_neglected(),
            spec_conn_we_did(),
            spec_conn_accepting(),
            spec_conn_we_think(),
            spec_conn_full_stop(),
        ],
        open_ending: true,
    }
}

/// A statement's shape has eight connectors, hence seven fields, and may be followed by a tail.
pub proof fn lemma_statement_template_shape()
    ensures
        statement_template().wf(),
        statement_template().connectors.len() == 8,
        statement_template().open_ending,
{
    reveal(statement_template);
}

/// The shape of paragraph `n` (from 0) of a statement, read on its own.
pub open spec fn paragraph_template(n: int) -> SpecTemplate {
    if n == 0 {
        SpecTemplate {
            connectors: seq![spec_para_in_context(), spec_conn_we_faced(), spec_conn_full_stop()],
            open_ending: false,
        }
    } else if n == 1 {
        SpecTemplate {
            connectors: seq![spec_para_we_decided(), spec_conn_and_neglected(), spec_conn_full_stop()],
            open_ending: false,
        }
    } else if n == 2 {
        SpecTemplate {
            connectors: seq![spec_para_we_did(), spec_conn_accepting(), spec_conn_full_stop()],
            open_ending: false,
        }
    } else {
        SpecTemplate {
            connectors: seq![spec_para_we_think(), spec_conn_full_stop()],
            open_ending: true,
        }
    }
}

fn template_of(connectors: Vec<Vec<Tok>>, open_ending: bool, Ghost(spec): Ghost<Seq<Seq<SpecTok>>>) -> (res: Template)
    requires
        connectors@.len() == spec.len(),
        forall|i: int| 0 <= i < spec.len() ==> toks_view(#[trigger] connectors@[i]@) == spec[i],
    ensures
        res@ == (SpecTemplate { connectors: spec, open_ending }),
{
    let res = Template { connectors, open_ending };
    assert(res@.connectors =~= spec);
    res
}

/// The shape of a whole statement.
pub fn make_statement_template() -> (res: Template)
    ensures
        res@ == statement_template(),
{
    reveal(statement_template);
    let v = vec![
        conn_in_context(),
        conn_we_faced(),
        conn_we_decided(),
        conn_and_neglected(),
        conn_we_did(),
        conn_accepting(),
        conn_we_think(),
        conn_full_stop(),
    ];
    template_of(v, true, Ghost(statement_template().connectors))
}

/// The shape of paragraph `n` (from 0) of a statement, read on its own.
pub fn make_paragraph_template(n: usize) -> (res: Template)
    ensures
        res@ == paragraph_template(n as int),
{
    if n == 0 {
        let v = vec![para_in_context(), conn_we_faced(), conn_full_stop()];
        template_of(v, false, Ghost(paragraph_template(0).connectors))
    } else if n == 1 {
        let v = vec![para_we_decided(), conn_and_neglected(), conn_full_stop()];
        template_of(v, false, Ghost(paragraph_template(1).connectors))
    } else if n == 2 {
        let v = vec![para_we_did(), conn_accepting(), conn_full_stop()];
        template_of(v, false, Ghost(paragraph_template(2).connectors))
    } else {
        let v = vec![para_we_think(), conn_full_stop()];
        template_of(v, true, Ghost(paragraph_template(3).connectors))
    }
}

/// A gap between two words: one or more ASCII space characters, line feeds among them.
pub open spec fn word_gap(g: Seq<char>) -> bool {
    &&& g.len() > 0
    &&& forall|k: int| 0 <= k < g.len() ==> is_space(#[trigger] g[k])
}

/// The words `words`, each after the first preceded by the gap of the same index less one.
pub open spec fn gapped(words: Seq<Seq<char>>, gaps: Seq<Seq<char>>) -> Seq<char>
    decreases words.len(),
{
    if words.len() == 0 {
        seq![]
    } else if words.len() == 1 {
        words[0]
    } else {
        words[0] + gaps[0] + gapped(words.drop_first(), gaps.drop_first())
    }
}

/// The tokens that read the words `words` with a gap between each two.
pub open spec fn word_toks(words: Seq<Seq<char>>) -> Seq<SpecTok>
    decreases words.len(),
{
    if words.len() == 0 {
        seq![]
    } else if words.len() == 1 {
        seq![SpecTok::Lit(words[0])]
    } else {
        seq![SpecTok::Lit(words[0]), SpecTok::Spaces1] + word_toks(words.drop_first())
    }
}

/// Words that start with a character other than a space, joined by any gaps, are read by the
/// word tokens to their very end.
proof fn lemma_match_gapped(t: Seq<char>, p: int, words: Seq<Seq<char>>, gaps: Seq<Seq<char>>)
    requires
        words.len() >= 1,
        gaps.len() + 1 >= words.len(),
        forall|i: int| 0 <= i < words.len() ==> (#[trigger] words[i]).len() > 0 && !is_space(words[i][0]),
        forall|i: int| 0 <= i < words.len() - 1 ==> word_gap(#[trigger] gaps[i]),
        has_at(t, p, gapped(words, gaps)),
    ensures
        match_toks(t, p, word_toks(words)) == Some(p + gapped(words, gaps).len()),
    decreases words.len(),
{
    let w0 = words[0];
    assert(t.subrange(p, p + w0.len()) =~= gapped(words, gaps).subrange(0, w0.len() as int));
    if words.len() == 1 {
        let toks = word_toks(words);
        assert(toks[0] == SpecTok::Lit(w0));
        assert(toks.drop_first() =~= seq![]);
        assert(has_at(t, p, w0));
        assert(match_tok(t, p, toks[0]) == Some(p + w0.len()));
        assert(match_toks(t, p + w0.len(), toks.drop_first()) == Some(p + w0.len()));
        assert(gapped(words, gaps) == w0);
    } else {
        let g0 = gaps[0];
        let rw = words.drop_first();
        let rg = gaps.drop_first();
        let rest = gapped(rw, rg);
        let all = gapped(words, gaps);
        assert(all == w0 + g0 + rest);
        assert(t.subrange(p, p + w0.len()) =~= w0);
        assert(has_at(t, p, w0));
        let q = p + w0.len();
        let r = q + g0.len();
        assert forall|k: int| q <= k < r implies CharClass::AsciiSpace.has(#[trigger] t[k]) by {
            assert(t[k] == all[k - p]);
            assert(all[k - p] == g0[k - q]);
        }
        assert(forall|i: int| 0 <= i < rw.len() ==> #[trigger] rw[i] == words[i + 1]);
        assert(rw[0] == words[1]);
        assert(words[1].len() > 0);
        assert(rest.len() >= rw[0].len()) by {
            if rw.len() == 1 {
            } else {
                assert(rest == rw[0] + rg[0] + gapped(rw.drop_first(), rg.drop_first()));
            }
        }
        assert(rest[0] == rw[0][0]) by {
            if rw.len() > 1 {
                assert(rest == rw[0] + rg[0] + gapped(rw.drop_first(), rg.drop_first()));
            }
        }
        assert(t[r] == all[r - p]);
        assert(all[r - p] == rest[0]);
        assert(word_gap(gaps[0]));
        lemma_run_end_unique(t, q, r, CharClass::AsciiSpace);
        assert(t.subrange(r, r + rest.len()) =~= all.subrange(w0.len() + g0.len() as int, all.len() as int));
        assert(all.subrange(w0.len() + g0.len() as int, all.len() as int) =~= rest);
        assert forall|i: int| 0 <= i < rw.len() - 1 implies word_gap(#[trigger] rg[i]) by {
            assert(rg[i] == gaps[i + 1]);
        }
        lemma_match_gapped(t, r, rw, rg);
        let toks = word_toks(words);
        let rt = word_toks(rw);
        assert(toks == seq![SpecTok::Lit(w0), SpecTok::Spaces1] + rt);
        assert(toks[0] == SpecTok::Lit(w0));
        assert(toks.drop_first() =~= seq![SpecTok::Spaces1] + rt);
        assert((seq![SpecTok::Spaces1] + rt)[0] == SpecTok::Spaces1);
        assert((seq![SpecTok::Spaces1] + rt).drop_first() =~= rt);
        assert(match_tok(t, p, toks[0]) == Some(q));
        assert(match_tok(t, q, SpecTok::Spaces1) == Some(r));
        assert(match_toks(t, q, seq![SpecTok::Spaces1] + rt) == match_toks(t, r, rt));
        assert(match_toks(t, p, toks) == match_toks(t, q, toks.drop_first()));
        assert(all.len() == w0.len() + g0.len() + rest.len());
    }
}

/// Between `,` and `and`, and between `and` and `neglected`, any gap of ASCII space characters
/// stands, a line break too: the connector reads it whole, in the statement and in the second
/// paragraph alike.
pub proof fn lemma_and_neglected_gaps(t: Seq<char>, p: int, g1: Seq<char>, g2: Seq<char>)
    requires
        word_gap(g1),
        word_gap(g2),
        has_at(t, p, seq![','] + g1 + seq!['a', 'n', 'd'] + g2 + seq!['n', 'e', 'g', 'l', 'e', 'c', 't', 'e', 'd']),
    ensures
        match_toks(t, p, statement_template().connectors[3]) == Some(p + 13 + g1.len() + g2.len()),
        match_toks(t, p, paragraph_template(1).connectors[1]) == Some(p + 13 + g1.len() + g2.len()),
{
    reveal(statement_template);
    let words = seq![seq![','], seq!['a', 'n', 'd'], seq!['n', 'e', 'g', 'l', 'e', 'c', 't', 'e', 'd']];
    let gaps = seq![g1, g2];
    reveal_with_fuel(gapped, 4);
    reveal_with_fuel(word_toks, 4);
    assert(words.drop_first().drop_first() =~= seq![seq!['n', 'e', 'g', 'l', 'e', 'c', 't', 'e', 'd']]);
    assert(gapped(words, gaps) =~= seq![','] + g1 + seq!['a', 'n', 'd'] + g2 + seq!['n', 'e', 'g', 'l', 'e', 'c', 't', 'e', 'd']);
    assert(word_toks(words) =~= spec_conn_and_neglected());
    lemma_match_gapped(t, p, words, gaps);
}

/// Spaces and tabs only, possibly none.
pub open spec fn blank_run(b: Seq<char>) -> bool {
    forall|k: int| 0 <= k < b.len() ==> is_blank(#[trigger] b[k])
}

/// ASCII space characters only, possibly none.
pub open spec fn space_run(s: Seq<char>) -> bool {
    forall|k: int| 0 <= k < s.len() ==> is_space(#[trigger] s[k])
}

/// A paragraph break: the blank runs `b1`, `b2` and `b3` with a line feed after each of the
/// first two.
pub open spec fn para_gap(b1: Seq<char>, b2: Seq<char>, b3: Seq<char>) -> Seq<char> {
    b1 + seq!['\n'] + b2 + seq!['\n'] + b3
}

/// `n` gaps between words.
pub open spec fn word_gaps(gaps: Seq<Seq<char>>, n: int) -> bool {
    &&& gaps.len() == n
    &&& forall|i: int| 0 <= i < n ==> word_gap(#[trigger] gaps[i])
}

/// The words of `In the context of`.
pub open spec fn in_context_words() -> Seq<Seq<char>> {
    seq![seq!['I', 'n'], seq!['t', 'h', 'e'], seq!['c', 'o', 'n', 't', 'e', 'x', 't'], seq!['o', 'f']]
}

/// The words of `, we faced`.
pub open spec fn we_faced_words() -> Seq<Seq<char>> {
    seq![seq![','], seq!['w', 'e'], seq!['f', 'a', 'c', 'e', 'd']]
}

/// The words of `We decided for`.
pub open spec fn we_decided_words() -> Seq<Seq<char>> {
    seq![seq!['W', 'e'], seq!['d', 'e', 'c', 'i', 'd', 'e', 'd'], seq!['f', 'o', 'r']]
}

/// The words of `We did this to achieve`.
pub open spec fn we_did_words() -> Seq<Seq<char>> {
    seq![
        seq!['W', 'e'],
        seq!['d', 'i', 'd'],
        seq!['t', 'h', 'i', 's'],
        seq!['t', 'o'],
        seq!['a', 'c', 'h', 'i', 'e', 'v', 'e'],
    ]
}

/// The words of `, accepting`.
pub open spec fn accepting_words() -> Seq<Seq<char>> {
    seq![seq![','], seq!['a', 'c', 'c', 'e', 'p', 't', 'i', 'n', 'g']]
}

/// The words of `We think this is the right trade-off because`.
pub open spec fn we_think_words() -> Seq<Seq<char>> {
    seq![
        seq!['W', 'e'],
        seq!['t', 'h', 'i', 'n', 'k'],
        seq!['t', 'h', 'i', 's'],
        seq!['i', 's'],
        seq!['t', 'h', 'e'],
        seq!['r', 'i', 'g', 'h', 't'],
        seq!['t', 'r', 'a', 'd', 'e', '-', 'o', 'f', 'f'],
        seq!['b', 'e', 'c', 'a', 'u', 's', 'e'],
    ]
}

/// Words that each start with a character other than a space.
spec fn firm_words(words: Seq<Seq<char>>) -> bool {
    forall|i: int| 0 <= i < words.len() ==> (#[trigger] words[i]).len() > 0 && !is_space(words[i][0])
}

/// Tokens read one after the other: the second list is read from where the first ends.
proof fn lemma_match_toks_append(t: Seq<char>, p: int, a: Seq<SpecTok>, b: Seq<SpecTok>)
    ensures
        match_toks(t, p, a + b) == match match_toks(t, p, a) {
            Some(q) => match_toks(t, q, b),
            None => None,
        },
    decreases a.len(),
{
    if a.len() == 0 {
        assert(a + b =~= b);
    } else {
        assert((a + b)[0] == a[0]);
        assert((a + b).drop_first() =~= a.drop_first() + b);
        match match_tok(t, p, a[0]) {
            Some(q) => lemma_match_toks_append(t, q, a.drop_first(), b),
            None => {},
        }
    }
}

/// A text that holds two texts one after the other holds each where it stands.
proof fn lemma_has_at_split(t: Seq<char>, p: int, a: Seq<char>, b: Seq<char>)
    requires
        has_at(t, p, a + b),
    ensures
        has_at(t, p, a),
        has_at(t, p + a.len(), b),
{
    let w = a + b;
    let whole = t.subrange(p, p + w.len());
    assert(whole == w);
    assert(t.subrange(p, p + a.len()) =~= whole.subrange(0, a.len() as int));
    assert(w.subrange(0, a.len() as int) =~= a);
    assert(t.subrange(p + a.len(), p + a.len() + b.len()) =~= whole.subrange(a.len() as int, w.len() as int));
    assert(w.subrange(a.len() as int, w.len() as int) =~= b);
}

/// Joined words start with the first word's first character.
proof fn lemma_gapped_head(words: Seq<Seq<char>>, gaps: Seq<Seq<char>>)
    requires
        words.len() >= 1,
        words[0].len() > 0,
    ensures
        gapped(words, gaps).len() >= words[0].len(),
        gapped(words, gaps)[0] == words[0][0],
{
    if words.len() > 1 {
        assert(gapped(words, gaps) == words[0] + gaps[0] + gapped(words.drop_first(), gaps.drop_first()));
    }
}

/// A full stop and a paragraph break are read to the end of the break, where a character other
/// than a space or a tab follows.
proof fn lemma_match_stop_break(t: Seq<char>, p: int, b1: Seq<char>, b2: Seq<char>, b3: Seq<char>)
    requires
        blank_run(b1),
        blank_run(b2),
        blank_run(b3),
        has_at(t, p, seq!['.'] + para_gap(b1, b2, b3)),
        p + 1 + para_gap(b1, b2, b3).len() < t.len(),
        !is_blank(t[p + 1 + para_gap(b1, b2, b3).len()]),
    ensures
        match_toks(t, p, seq![SpecTok::Lit(seq!['.']), SpecTok::ParaBreak]) == Some(
            p + 1 + para_gap(b1, b2, b3).len(),
        ),
{
    let w = seq!['.'] + para_gap(b1, b2, b3);
    let q = p + 1;
    let a = q + b1.len();
    let b = a + 1 + b2.len();
    let e = b + 1 + b3.len();
    assert(forall|k: int| p <= k < p + w.len() ==> t[k] == #[trigger] w[k - p]);
    assert(t.subrange(p, p + 1) =~= seq!['.']) by {
        assert(t[p] == w[0]);
    }
    assert forall|k: int| q <= k < a implies CharClass::Blank.has(#[trigger] t[k]) by {
        assert(t[k] == w[k - p]);
        assert(w[k - p] == b1[k - q]);
    }
    assert(t[a] == w[a - p]);
    assert(t[a] == '\n');
    lemma_run_end_unique(t, q, a, CharClass::Blank);
    assert forall|k: int| a + 1 <= k < b implies CharClass::Blank.has(#[trigger] t[k]) by {
        assert(t[k] == w[k - p]);
        assert(w[k - p] == b2[k - a - 1]);
    }
    assert(t[b] == w[b - p]);
    assert(t[b] == '\n');
    lemma_run_end_unique(t, a + 1, b, CharClass::Blank);
    assert forall|k: int| b + 1 <= k < e implies CharClass::Blank.has(#[trigger] t[k]) by {
        assert(t[k] == w[k - p]);
        assert(w[k - p] == b3[k - b - 1]);
    }
    lemma_run_end_unique(t, b + 1, e, CharClass::Blank);
    assert(para_break_end(t, q) == Some(e));
    let toks = seq![SpecTok::Lit(seq!['.']), SpecTok::ParaBreak];
    assert(toks[0] == SpecTok::Lit(seq!['.']));
    assert(has_at(t, p, seq!['.']));
    assert(match_tok(t, p, toks[0]) == Some(q));
    let rest = toks.drop_first();
    assert(rest =~= seq![SpecTok::ParaBreak]);
    assert(rest[0] == SpecTok::ParaBreak);
    assert(match_tok(t, q, rest[0]) == Some(e));
    assert(rest.drop_first() =~= seq![]);
    assert(match_toks(t, e, rest.drop_first()) == Some(e));
    assert(match_toks(t, q, rest) == Some(e));
}

/// A full stop, a paragraph break and words joined by any gaps are read to their end by the
/// tokens of the full stop, the break and the words; the words alone by the words' tokens.
proof fn lemma_match_stop_words(
    t: Seq<char>,
    p: int,
    b1: Seq<char>,
    b2: Seq<char>,
    b3: Seq<char>,
    words: Seq<Seq<char>>,
    gaps: Seq<Seq<char>>,
)
    requires
        blank_run(b1),
        blank_run(b2),
        blank_run(b3),
        words.len() >= 1,
        firm_words(words),
        word_gaps(gaps, words.len() - 1),
        words[0][0] != '\t',
        has_at(t, p, seq!['.'] + para_gap(b1, b2, b3) + gapped(words, gaps)),
    ensures
        match_toks(t, p + 1 + para_gap(b1, b2, b3).len(), word_toks(words)) == Some(
            p + 1 + para_gap(b1, b2, b3).len() + gapped(words, gaps).len(),
        ),
        match_toks(t, p, seq![SpecTok::Lit(seq!['.']), SpecTok::ParaBreak] + word_toks(words)) == Some(
            p + 1 + para_gap(b1, b2, b3).len() + gapped(words, gaps).len(),
        ),
{
    let head = seq!['.'] + para_gap(b1, b2, b3);
    let e = p + head.len();
    lemma_has_at_split(t, p, head, gapped(words, gaps));
    lemma_gapped_head(words, gaps);
    assert(t[e] == t.subrange(e, e + gapped(words, gaps).len())[0]);
    assert(words[0][0] != ' ');
    lemma_match_stop_break(t, p, b1, b2, b3);
    lemma_match_gapped(t, e, words, gaps);
    lemma_match_toks_append(t, p, seq![SpecTok::Lit(seq!['.']), SpecTok::ParaBreak], word_toks(words));
}

/// Between the words of `In the context of`, any gap of ASCII space characters stands, a line
/// break too, and any run of them before: the statement's first connector reads it whole, and
/// so does the first paragraph's opening.
pub proof fn lemma_in_context_gaps(t: Seq<char>, p: int, s0: Seq<char>, gaps: Seq<Seq<char>>)
    requires
        space_run(s0),
        word_gaps(gaps, 3),
        has_at(t, p, s0 + gapped(in_context_words(), gaps)),
    ensures
        match_toks(t, p, statement_template().connectors[0]) == Some(
            p + s0.len() + gapped(in_context_words(), gaps).len(),
        ),
        match_toks(t, p + s0.len(), paragraph_template(0).connectors[0]) == Some(
            p + s0.len() + gapped(in_context_words(), gaps).len(),
        ),
{
    reveal(statement_template);
    let words = in_context_words();
    reveal_with_fuel(word_toks, 5);
    assert(word_toks(words) =~= spec_para_in_context());
    assert(seq![SpecTok::Spaces0] + word_toks(words) =~= spec_conn_in_context());
    let e = p + s0.len();
    lemma_has_at_split(t, p, s0, gapped(words, gaps));
    lemma_gapped_head(words, gaps);
    assert(t[e] == t.subrange(e, e + gapped(words, gaps).len())[0]);
    assert forall|k: int| p <= k < e implies CharClass::AsciiSpace.has(#[trigger] t[k]) by {
        assert(t[k] == t.subrange(p, e)[k - p]);
    }
    lemma_run_end_unique(t, p, e, CharClass::AsciiSpace);
    assert(seq![SpecTok::Spaces0][0] == SpecTok::Spaces0);
    assert(match_tok(t, p, SpecTok::Spaces0) == Some(e));
    assert(seq![SpecTok::Spaces0].drop_first() =~= seq![]);
    assert(match_toks(t, e, seq![SpecTok::Spaces0].drop_first()) == Some(e));
    assert(match_toks(t, p, seq![SpecTok::Spaces0]) == Some(e));
    lemma_match_gapped(t, e, words, gaps);
    lemma_match_toks_append(t, p, seq![SpecTok::Spaces0], word_toks(words));
}

/// Between `,` and `we`, and between `we` and `faced`, any gap of ASCII space characters
/// stands, a line break too: the connector reads it whole, in the statement and in the first
/// paragraph alike.
pub proof fn lemma_we_faced_gaps(t: Seq<char>, p: int, gaps: Seq<Seq<char>>)
    requires
        word_gaps(gaps, 2),
        has_at(t, p, gapped(we_faced_words(), gaps)),
    ensures
        match_toks(t, p, statement_template().connectors[1]) == Some(p + gapped(we_faced_words(), gaps).len()),
        match_toks(t, p, paragraph_template(0).connectors[1]) == Some(p + gapped(we_faced_words(), gaps).len()),
{
    reveal(statement_template);
    reveal_with_fuel(word_toks, 4);
    assert(word_toks(we_faced_words()) =~= spec_conn_we_faced());
    lemma_match_gapped(t, p, we_faced_words(), gaps);
}

/// After `.`, a paragraph break, then the words of `We decided for` with any gaps of ASCII
/// space characters between them, line breaks too: the statement's third connector reads it
/// whole, and the second paragraph's opening reads the words.
pub proof fn lemma_we_decided_gaps(
    t: Seq<char>,
    p: int,
    b1: Seq<char>,
    b2: Seq<char>,
    b3: Seq<char>,
    gaps: Seq<Seq<char>>,
)
    requires
        blank_run(b1),
        blank_run(b2),
        blank_run(b3),
        word_gaps(gaps, 2),
        has_at(t, p, seq!['.'] + para_gap(b1, b2, b3) + gapped(we_decided_words(), gaps)),
    ensures
        match_toks(t, p, statement_template().connectors[2]) == Some(
            p + 1 + para_gap(b1, b2, b3).len() + gapped(we_decided_words(), gaps).len(),
        ),
        match_toks(t, p + 1 + para_gap(b1, b2, b3).len(), paragraph_template(1).connectors[0]) == Some(
            p + 1 + para_gap(b1, b2, b3).len() + gapped(we_decided_words(), gaps).len(),
        ),
{
    reveal(statement_template);
    reveal_with_fuel(word_toks, 4);
    let words = we_decided_words();
    assert(word_toks(words) =~= spec_para_we_decided());
    assert(seq![SpecTok::Lit(seq!['.']), SpecTok::ParaBreak] + word_toks(words) =~= spec_conn_we_decided());
    lemma_match_stop_words(t, p, b1, b2, b3, words, gaps);
}

/// After `.`, a paragraph break, then the words of `We did this to achieve` with any gaps of
/// ASCII space characters between them, line breaks too: the statement's fifth connector reads
/// it whole, and the third paragraph's opening reads the words.
pub proof fn lemma_we_did_gaps(
    t: Seq<char>,
    p: int,
    b1: Seq<char>,
    b2: Seq<char>,
    b3: Seq<char>,
    gaps: Seq<Seq<char>>,
)
    requires
        blank_run(b1),
        blank_run(b2),
        blank_run(b3),
        word_gaps(gaps, 4),
        has_at(t, p, seq!['.'] + para_gap(b1, b2, b3) + gapped(we_did_words(), gaps)),
    ensures
        match_toks(t, p, statement_template().connectors[4]) == Some(
            p + 1 + para_gap(b1, b2, b3).len() + gapped(we_did_words(), gaps).len(),
        ),
        match_toks(t, p + 1 + para_gap(b1, b2, b3).len(), paragraph_template(2).connectors[0]) == Some(
            p + 1 + para_gap(b1, b2, b3).len() + gapped(we_did_words(), gaps).len(),
        ),
{
    reveal(statement_template);
    reveal_with_fuel(word_toks, 6);
    let words = we_did_words();
    assert(word_toks(words) =~= spec_para_we_did());
    assert(seq![SpecTok::Lit(seq!['.']), SpecTok::ParaBreak] + word_toks(words) =~= spec_conn_we_did());
    lemma_match_stop_words(t, p, b1, b2, b3, words, gaps);
}

/// Between `,` and `accepting`, any gap of ASCII space characters stands, a line break too:
/// the connector reads it whole, in the statement and in the third paragraph alike.
pub proof fn lemma_accepting_gaps(t: Seq<char>, p: int, gaps: Seq<Seq<char>>)
    requires
        word_gaps(gaps, 1),
        has_at(t, p, gapped(accepting_words(), gaps)),
    ensures
        match_toks(t, p, statement_template().connectors[5]) == Some(p + gapped(accepting_words(), gaps).len()),
        match_toks(t, p, paragraph_template(2).connectors[1]) == Some(p + gapped(accepting_words(), gaps).len()),
{
    reveal(statement_template);
    reveal_with_fuel(word_toks, 3);
    assert(word_toks(accepting_words()) =~= spec_conn_accepting());
    lemma_match_gapped(t, p, accepting_words(), gaps);
}

/// After `.`, a paragraph break, then the words of `We think this is the right trade-off
/// because` with any gaps of ASCII space characters between them, line breaks too: the
/// statement's seventh connector reads it whole, and the fourth paragraph's opening reads the
/// words.
pub proof fn lemma_we_think_gaps(
    t: Seq<char>,
    p: int,
    b1: Seq<char>,
    b2: Seq<char>,
    b3: Seq<char>,
    gaps: Seq<Seq<char>>,
)
    requires
        blank_run(b1),
        blank_run(b2),
        blank_run(b3),
        word_gaps(gaps, 7),
        has_at(t, p, seq!['.'] + para_gap(b1, b2, b3) + gapped(we_think_words(), gaps)),
    ensures
        match_toks(t, p, statement_template().connectors[6]) == Some(
            p + 1 + para_gap(b1, b2, b3).len() + gapped(we_think_words(), gaps).len(),
        ),
        match_toks(t, p + 1 + para_gap(b1, b2, b3).len(), paragraph_template(3).connectors[0]) == Some(
            p + 1 + para_gap(b1, b2, b3).len() + gapped(we_think_words(), gaps).len(),
        ),
{
    reveal(statement_template);
    reveal_with_fuel(word_toks, 9);
    let words = we_think_words();
    assert(word_toks(words) =~= spec_para_we_think());
    assert(seq![SpecTok::Lit(seq!['.']), SpecTok::ParaBreak] + word_toks(words) =~= spec_conn_we_think());
    lemma_match_stop_words(t, p, b1, b2, b3, words, gaps);
}

} // verus!
