//! Finding the comment blocks of a Python, Nix or TypeScript source file.
//!
//! The file is parsed by `tree-sitter` with the language's grammar, and a query picks out runs
//! of comments (and, for Python, strings that stand as statements, such as docstrings). This
//! module turns what the query captures into comment blocks: consecutive line comments are
//! joined, every block comment and every docstring is a block of its own.
use vstd::prelude::*;
use crate::text::{
    CharClass, run_end, run_start, has_at, skip_class, skip_class_back, trim_start,
    copy_range, trim_start_chars, matches_at, chars_of, push_all,
};
use crate::error::{ErrorKind, YadrError, SpecError, SpecErrorKind, bare};
use crate::rust_comments::{trim_newlines_end, trim_newlines_end_exec, blocks_view, pending_view};
use crate::statement::{line_start, opt_err_view};
use streaming_iterator::StreamingIterator;

verus! {

/// A node captured by the comment query.
#[derive(Debug, Clone, PartialEq, Eq)]
pub struct TsCapture {
    /// Which capture of the query: 0 for comments, 1 for strings.
    pub index: u32,
    /// The node's text.
    pub text: String,
    /// The row (from 0) the node starts on.
    pub start_row: usize,
    /// The row (from 0) the node ends on.
    pub end_row: usize,
}

/// A captured node, as seen by the specification.
pub struct SpecTsCapture {
    pub index: u32,
    pub text: Seq<char>,
    pub start_row: usize,
    pub end_row: usize,
}

impl View for TsCapture {
    type V = SpecTsCapture;

    open spec fn view(&self) -> SpecTsCapture {
        SpecTsCapture {
            index: self.index,
            text: self.text@,
            start_row: self.start_row,
            end_row: self.end_row,
        }
    }
}

/// The specification's view of the matches of a query.
pub open spec fn matches_view(v: Seq<Vec<TsCapture>>) -> Seq<Seq<SpecTsCapture>> {
    v.map_values(|m: Vec<TsCapture>| m@.map_values(|c: TsCapture| c@))
}

/// `s` with the decoration removed from the start of its lines: wherever a line starts with
/// Unicode whitespace (which may span line breaks) followed by `*`, those characters are
/// dropped. Read from position `i`.
pub open spec fn strip_stars_from(s: Seq<char>, i: int) -> Seq<char>
    decreases s.len() - i,
{
    if i < 0 || i >= s.len() {
        seq![]
    } else {
        let j = run_end(s, i, CharClass::Whitespace);
        if line_start(s, i) && j < s.len() && s[j] == '*' && j >= i {
            strip_stars_from(s, j + 1)
        } else {
            seq![s[i]] + strip_stars_from(s, i + 1)
        }
    }
}

/// The text of a comment node, without its markers, or `None` if it starts with neither `#`,
/// `//` nor `/*`.
pub open spec fn ts_comment_text(text: Seq<char>) -> Option<Seq<char>> {
    if has_at(text, 0, seq!['#']) {
        Some(trim_start(text.subrange(1, text.len() as int)))
    } else if has_at(text, 0, seq!['/', '/']) {
        Some(trim_start(text.subrange(2, text.len() as int)))
    } else if has_at(text, 0, seq!['/', '*']) {
        let inner = text.subrange(2, text.len() as int);
        let body = if inner.len() >= 2 && inner.subrange(inner.len() - 2, inner.len() as int) == seq!['*', '/'] {
            inner.subrange(0, inner.len() - 2)
        } else {
            inner
        };
        let body2 = body.subrange(0, run_start(body, body.len() as int, CharClass::Star));
        Some(strip_stars_from(body2, 0))
    } else {
        None
    }
}

/// `text` without the `quote` delimiters at both ends (the closing one only where present).
pub open spec fn unquoted(text: Seq<char>, quote: Seq<char>) -> Seq<char> {
    let inner = text.subrange(3, text.len() as int);
    if inner.len() >= 3 && inner.subrange(inner.len() - 3, inner.len() as int) == quote {
        inner.subrange(0, inner.len() - 3)
    } else {
        inner
    }
}

/// The text of a Python docstring, read from position `i` of the string literal `text`: after
/// any `r` and `u` prefixes, a triple-quoted string's contents; anything else is not a
/// docstring and gives the empty text.
pub open spec fn docstring_from(text: Seq<char>, i: int) -> Seq<char>
    decreases text.len() - i,
{
    if i < 0 || i >= text.len() {
        seq![]
    } else if text[i] == '"' {
        if has_at(text, i, seq!['"', '"', '"']) {
            unquoted(text.subrange(i, text.len() as int), seq!['"', '"', '"'])
        } else {
            seq![]
        }
    } else if text[i] == '\'' {
        if has_at(text, i, seq!['\'', '\'', '\'']) {
            unquoted(text.subrange(i, text.len() as int), seq!['\'', '\'', '\''])
        } else {
            seq![]
        }
    } else if text[i] == 'r' || text[i] == 'u' {
        docstring_from(text, i + 1)
    } else {
        seq![]
    }
}

/// The line (from 1) of a row (from 0).
pub open spec fn row_line(row: usize) -> usize {
    if row < usize::MAX {
        (row + 1) as usize
    } else {
        row
    }
}

/// Where the grouping of captured comments stands.
pub struct TsScan {
    /// The comment block being gathered, with its first line.
    pub pending: Option<(usize, Seq<char>)>,
    /// The blocks completed so far.
    pub blocks: Seq<(usize, Seq<char>)>,
    /// The line the last captured comment of the current match ended on, or 0.
    pub last_line: usize,
    /// The mistake that stopped the grouping, if any.
    pub error: Option<SpecError>,
}

/// Completes the pending block, if any.
pub open spec fn ts_flush(st: TsScan) -> TsScan {
    match st.pending {
        Some((l, c)) => TsScan {
            pending: None,
            blocks: st.blocks.push((l, trim_newlines_end(c))),
            ..st
        },
        None => st,
    }
}

/// Reads one captured node.
pub open spec fn ts_capture_step(st: TsScan, cap: SpecTsCapture) -> TsScan {
    if st.error is Some {
        st
    } else {
        let text = if cap.index == 0 {
            ts_comment_text(cap.text)
        } else {
            Some(docstring_from(cap.text, 0))
        };
        match text {
            None => TsScan {
                error: Some(bare(SpecErrorKind::UnexpectedPrefix { text: cap.text })),
                ..st
            },
            Some(text) => {
                let start_line = row_line(cap.start_row);
                let st1 = if cap.index != 0 || st.last_line + 1 != start_line {
                    ts_flush(st)
                } else {
                    st
                };
                let st2 = TsScan { last_line: row_line(cap.end_row), ..st1 };
                if cap.index != 0 {
                    ts_flush(TsScan { pending: Some((start_line, text)), ..st2 })
                } else {
                    match st2.pending {
                        Some((l, c)) => TsScan {
                            pending: Some((l, c + text + seq!['\n'])),
                            ..st2
                        },
                        None => TsScan { pending: Some((start_line, text + seq!['\n'])), ..st2 },
                    }
                }
            },
        }
    }
}

/// Where the grouping stands after the captures `caps` of one match.
pub open spec fn ts_match_run(st: TsScan, caps: Seq<SpecTsCapture>) -> TsScan
    decreases caps.len(),
{
    if caps.len() == 0 {
        st
    } else {
        ts_capture_step(ts_match_run(st, caps.drop_last()), caps.last())
    }
}

/// Where the grouping stands after the matches `ms`.
pub open spec fn ts_run(ms: Seq<Seq<SpecTsCapture>>) -> TsScan
    decreases ms.len(),
{
    if ms.len() == 0 {
        TsScan { pending: None, blocks: seq![], last_line: 0, error: None }
    } else {
        let st = ts_run(ms.drop_last());
        let st2 = ts_match_run(TsScan { last_line: 0, ..st }, ms.last());
        if st2.error is Some {
            st2
        } else {
            ts_flush(st2)
        }
    }
}

/// The comment blocks of a file from the matches of the comment query, each with its first
/// line and its text without comment markers and trailing line feeds, and the mistake that
/// stopped the reading, if any.
pub open spec fn spec_ts_comment_blocks(ms: Seq<Seq<SpecTsCapture>>) -> (Seq<(usize, Seq<char>)>, Option<SpecError>) {
    let st = ts_run(ms);
    if st.error is Some {
        (st.blocks, st.error)
    } else {
        (ts_flush(st).blocks, None)
    }
}

/// Removes the decoration from the start of the lines of `s`; see [`strip_stars_from`].
pub fn strip_stars(s: &[char]) -> (res: Vec<char>)
    ensures
        res@ == strip_stars_from(s@, 0),
{
    let mut out: Vec<char> = Vec::new();
    let mut i: usize = 0;
    assert(out@ + strip_stars_from(s@, 0) =~= strip_stars_from(s@, 0));
    while i < s.len()
        invariant
            i <= s@.len(),
            out@ + strip_stars_from(s@, i as int) == strip_stars_from(s@, 0),
        decreases s@.len() - i,
    {
        let ghost before = out@;
        let j = skip_class(s, i, CharClass::Whitespace);
        if (i == 0 || s[i - 1] == '\n') && j < s.len() && s[j] == '*' {
            i = j + 1;
        } else {
            out.push(s[i]);
            assert(before + strip_stars_from(s@, i as int) =~= out@ + strip_stars_from(s@, i + 1));
            i = i + 1;
        }
    }
    assert(out@ =~= out@ + strip_stars_from(s@, i as int));
    out
}

fn lit3(a: char, b: char, c: char) -> (res: Vec<char>)
    ensures
        res@ == seq![a, b, c],
{
    let v = vec![a, b, c];
    assert(v@ =~= seq![a, b, c]);
    v
}

/// The text of a comment node without its markers; see [`ts_comment_text`].
pub fn ts_comment_text_exec(text: &[char]) -> (res: Option<Vec<char>>)
    ensures
        match (res, ts_comment_text(text@)) {
            (Some(a), Some(b)) => a@ == b,
            (None, None) => true,
            _ => false,
        },
{
    let hash: Vec<char> = vec!['#'];
    assert(hash@ =~= seq!['#']);
    let line: Vec<char> = vec!['/', '/'];
    assert(line@ =~= seq!['/', '/']);
    let open: Vec<char> = vec!['/', '*'];
    assert(open@ =~= seq!['/', '*']);
    let close: Vec<char> = vec!['*', '/'];
    assert(close@ =~= seq!['*', '/']);
    if matches_at(text, 0, hash.as_slice()) {
        let rest = copy_range(text, 1, text.len());
        Some(trim_start_chars(rest.as_slice()))
    } else if matches_at(text, 0, line.as_slice()) {
        let rest = copy_range(text, 2, text.len());
        Some(trim_start_chars(rest.as_slice()))
    } else if matches_at(text, 0, open.as_slice()) {
        let inner = copy_range(text, 2, text.len());
        let body = if inner.len() >= 2 && matches_at(inner.as_slice(), inner.len() - 2, close.as_slice()) {
            copy_range(inner.as_slice(), 0, inner.len() - 2)
        } else {
            inner
        };
        let e = skip_class_back(body.as_slice(), body.len(), CharClass::Star);
        let body2 = copy_range(body.as_slice(), 0, e);
        Some(strip_stars(body2.as_slice()))
    } else {
        None
    }
}

fn unquoted_exec(text: &[char], quote: &[char]) -> (res: Vec<char>)
    requires
        text@.len() >= 3,
    ensures
        res@ == unquoted(text@, quote@),
{
    let inner = copy_range(text, 3, text.len());
    if inner.len() >= 3 && quote.len() == 3 && matches_at(inner.as_slice(), inner.len() - 3, quote) {
        copy_range(inner.as_slice(), 0, inner.len() - 3)
    } else {
        proof {
            if inner@.len() >= 3 && inner@.subrange(inner@.len() - 3, inner@.len() as int) == quote@ {
                assert(quote@.len() == 3);
            }
        }
        inner
    }
}

/// The text of a Python docstring; see [`docstring_from`].
pub fn docstring_exec(text: &[char]) -> (res: Vec<char>)
    ensures
        res@ == docstring_from(text@, 0),
{
    let dq = lit3('"', '"', '"');
    let sq = lit3('\'', '\'', '\'');
    let mut i: usize = 0;
    while i < text.len()
        invariant
            i <= text@.len(),
            dq@ == seq!['"', '"', '"'],
            sq@ == seq!['\'', '\'', '\''],
            docstring_from(text@, 0) == docstring_from(text@, i as int),
        decreases text@.len() - i,
    {
        let c = text[i];
        if c == '"' {
            if matches_at(text, i, dq.as_slice()) {
                let rest = copy_range(text, i, text.len());
                return unquoted_exec(rest.as_slice(), dq.as_slice());
            }
            return Vec::new();
        } else if c == '\'' {
            if matches_at(text, i, sq.as_slice()) {
                let rest = copy_range(text, i, text.len());
                return unquoted_exec(rest.as_slice(), sq.as_slice());
            }
            return Vec::new();
        } else if c == 'r' || c == 'u' {
            i = i + 1;
        } else {
            return Vec::new();
        }
    }
    Vec::new()
}

/// Where the grouping of captured comments stands, in executable form.
pub struct TsScanState {
    /// The comment block being gathered, with its first line.
    pub pending: Option<(usize, Vec<char>)>,
    /// The blocks completed so far.
    pub blocks: Vec<(usize, Vec<char>)>,
    /// The line the last captured comment of the current match ended on, or 0.
    pub last_line: usize,
    /// The mistake that stopped the grouping, if any.
    pub error: Option<YadrError>,
}


impl View for TsScanState {
    type V = TsScan;

    open spec fn view(&self) -> TsScan {
        TsScan {
            pending: pending_view(self.pending),
            blocks: blocks_view(self.blocks@),
            last_line: self.last_line,
            error: opt_err_view(self.error),
        }
    }
}

fn ts_flush_exec(st: TsScanState) -> (res: TsScanState)
    ensures
        res@ == ts_flush(st@),
{
    let TsScanState { pending, mut blocks, last_line, error } = st;
    match pending {
        Some((l, c)) => {
            let ghost before = blocks_view(blocks@);
            let t = trim_newlines_end_exec(c.as_slice());
            blocks.push((l, t));
            assert(blocks_view(blocks@) =~= before.push((l, t@)));
            TsScanState { pending: None, blocks, last_line, error }
        },
        None => TsScanState { pending: None, blocks, last_line, error },
    }
}

fn row_line_exec(row: usize) -> (res: usize)
    ensures
        res == row_line(row),
{
    if row < usize::MAX {
        row + 1
    } else {
        row
    }
}

fn ts_capture_step_exec(st: TsScanState, cap: &TsCapture) -> (res: TsScanState)
    ensures
        res@ == ts_capture_step(st@, cap@),
{
    if st.error.is_some() {
        return st;
    }
    let chars = chars_of(cap.text.as_str());
    let text = if cap.index == 0 {
        ts_comment_text_exec(chars.as_slice())
    } else {
        Some(docstring_exec(chars.as_slice()))
    };
    let mut text = match text {
        None => {
            return TsScanState {
                error: Some(YadrError::new(ErrorKind::UnexpectedPrefix { text: cap.text.clone() })),
                ..st
            };
        },
        Some(t) => t,
    };
    let start_line = row_line_exec(cap.start_row);
    let st1 = if cap.index != 0 || st.last_line >= usize::MAX || st.last_line + 1 != start_line {
        ts_flush_exec(st)
    } else {
        st
    };
    let st2 = TsScanState { last_line: row_line_exec(cap.end_row), ..st1 };
    if cap.index != 0 {
        ts_flush_exec(TsScanState { pending: Some((start_line, text)), ..st2 })
    } else {
        let ghost tv = text@;
        text.push('\n');
        assert(text@ =~= tv + seq!['\n']);
        let TsScanState { pending, blocks, last_line, error } = st2;
        match pending {
            Some((l, mut c)) => {
                let ghost cv = c@;
                push_all(&mut c, text.as_slice());
                assert(c@ =~= cv + tv + seq!['\n']);
                TsScanState { pending: Some((l, c)), blocks, last_line, error }
            },
            None => TsScanState { pending: Some((start_line, text)), blocks, last_line, error },
        }
    }
}

/// The comment blocks of a file from the matches of the comment query; see
/// [`spec_ts_comment_blocks`].
pub fn ts_comment_blocks(matches: &Vec<Vec<TsCapture>>) -> (res: (Vec<(usize, Vec<char>)>, Option<YadrError>))
    ensures
        (blocks_view(res.0@), opt_err_view(res.1)) == spec_ts_comment_blocks(matches_view(matches@)),
{
    let ghost ms = matches_view(matches@);
    let mut st = TsScanState { pending: None, blocks: Vec::new(), last_line: 0, error: None };
    assert(st@.blocks =~= Seq::<(usize, Seq<char>)>::empty());
    assert(ms.take(0) =~= Seq::<Seq<SpecTsCapture>>::empty());
    let mut i: usize = 0;
    while i < matches.len()
        invariant
            i <= matches@.len(),
            ms == matches_view(matches@),
            st@ == ts_run(ms.take(i as int)),
        decreases matches@.len() - i,
    {
        assert(ms.take(i + 1).drop_last() =~= ms.take(i as int));
        let m = &matches[i];
        let ghost caps = m@.map_values(|c: TsCapture| c@);
        assert(ms.take(i + 1).last() == caps);
        let ghost start = TsScan { last_line: 0, ..st@ };
        st = TsScanState { last_line: 0, ..st };
        assert(st@ == start);
        assert(caps.take(0) =~= Seq::<SpecTsCapture>::empty());
        let mut j: usize = 0;
        while j < m.len()
            invariant
                j <= m@.len(),
                caps == m@.map_values(|c: TsCapture| c@),
                st@ == ts_match_run(start, caps.take(j as int)),
            decreases m@.len() - j,
        {
            assert(caps.take(j + 1).drop_last() =~= caps.take(j as int));
            assert(caps.take(j + 1).last() == m@[j as int]@);
            st = ts_capture_step_exec(st, &m[j]);
            j = j + 1;
        }
        assert(caps.take(j as int) =~= caps);
        if st.error.is_none() {
            st = ts_flush_exec(st);
        }
        i = i + 1;
    }
    assert(ms.take(i as int) =~= ms);
    if st.error.is_some() {
        (st.blocks, st.error)
    } else {
        let st = ts_flush_exec(st);
        (st.blocks, None)
    }
}

} // verus!
