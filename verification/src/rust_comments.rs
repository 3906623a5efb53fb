//! Finding the comment blocks of a Rust source file.
//!
//! The file is tokenized by `ra_ap_syntax`; this module walks the tokens and groups comments
//! into blocks: every `/* */` comment is a block of its own, and a run of `//` or `//!` line
//! comments is a block until something other than a single line break separates two of them.
//! Documentation comments (`///` and `/** */`) are never part of a block.
use vstd::prelude::*;
use crate::text::{
    CharClass, run_end, run_start, has_at, skip_class, skip_class_back, count_char,
    lemma_run_end_unique, lemma_run_start, lemma_run_end, is_ws,
    count_newlines, sat_add, trim_start, copy_range, trim_start_chars, matches_at, chars_of,
    push_all, utf8_len,
};
use crate::block::{line_spans, lines_of};
use ra_ap_syntax::{NodeOrToken, SyntaxKind, WalkEvent};

verus! {

/// The kind of a token.
#[derive(Debug, Clone, Copy, PartialEq, Eq, Structural)]
pub enum TokenKind {
    /// A comment.
    Comment,
    /// Whitespace.
    Whitespace,
    /// Anything else.
    Other,
}

/// One step of a preorder walk over a Rust syntax tree.
#[derive(Debug, Clone, PartialEq, Eq)]
pub enum RsEvent {
    /// The walk enters a node.
    NodeStart,
    /// The walk leaves a node or a token.
    Leave,
    /// The walk enters a token.
    Token { kind: TokenKind, text: String },
}

/// One step of a preorder walk over a Rust syntax tree, as seen by the specification.
pub enum SpecRsEvent {
    NodeStart,
    Leave,
    Token { kind: TokenKind, text: Seq<char> },
}

impl View for RsEvent {
    type V = SpecRsEvent;

    open spec fn view(&self) -> SpecRsEvent {
        match self {
            RsEvent::NodeStart => SpecRsEvent::NodeStart,
            RsEvent::Leave => SpecRsEvent::Leave,
            RsEvent::Token { kind, text } => SpecRsEvent::Token { kind: *kind, text: text@ },
        }
    }
}

/// The specification's view of a list of walk events.
pub open spec fn events_view(v: Seq<RsEvent>) -> Seq<SpecRsEvent> {
    v.map_values(|e: RsEvent| e@)
}

/// The preorder walk, with tokens, over the syntax tree that `ra_ap_syntax` builds for a Rust
/// source file (parsed with the current edition).
pub uninterp spec fn rust_syntax_events(input: Seq<char>) -> Seq<SpecRsEvent>;

/// The texts of the tokens of a walk, one after the other.
pub open spec fn tokens_text(ev: Seq<SpecRsEvent>) -> Seq<char>
    decreases ev.len(),
{
    if ev.len() == 0 {
        seq![]
    } else {
        tokens_text(ev.drop_last()) + match ev.last() {
            SpecRsEvent::Token { text, .. } => text,
            _ => seq![],
        }
    }
}

/// Whether a source text takes fewer than 2^32 bytes in UTF-8: `ra_ap_syntax` and
/// `tree-sitter` hold byte offsets in 32 bits.
pub open spec fn small_source(s: Seq<char>) -> bool {
    utf8_len(s) < 0x1_0000_0000
}

/// Parses a Rust source file with `ra_ap_syntax::SourceFile::parse` and lists the preorder walk
/// over its syntax tree, with tokens.
///
/// The contract names the walk `rust_syntax_events(input)`, and states that the syntax tree is
/// lossless: the texts of its tokens, in the order of the walk, make up the input. What the
/// tokens are, and how the nodes group them, is not restated. The input is bounded below 2^32
/// bytes, because the lexer keeps offsets in 32 bits and the conversion of a longer text's
/// length panics.
#[verifier::external_body]
pub(crate) fn rust_events(input: &str) -> (res: Vec<RsEvent>)
    requires
        small_source(input@),
    ensures
        events_view(res@) == rust_syntax_events(input@),
        tokens_text(events_view(res@)) == input@,
{
    let parse = ra_ap_syntax::SourceFile::parse(input, ra_ap_syntax::Edition::CURRENT);
    parse.syntax_node().preorder_with_tokens().map(|event| match event {
        WalkEvent::Enter(NodeOrToken::Node(_)) => RsEvent::NodeStart,
        WalkEvent::Leave(_) => RsEvent::Leave,
        WalkEvent::Enter(NodeOrToken::Token(t)) => RsEvent::Token {
            kind: match t.kind() {
                SyntaxKind::COMMENT => TokenKind::Comment,
                SyntaxKind::WHITESPACE => TokenKind::Whitespace,
                _ => TokenKind::Other,
            },
            text: t.text().to_string(),
        },
    }).collect()
}

/// `s` without its trailing line feeds.
pub open spec fn trim_newlines_end(s: Seq<char>) -> Seq<char> {
    s.subrange(0, run_start(s, s.len() as int, CharClass::Newline))
}

/// A line of a block comment without the decoration in front of it: leading whitespace, then
/// one `*`, then more leading whitespace.
pub open spec fn undecorated(line: Seq<char>) -> Seq<char> {
    let a = trim_start(line);
    trim_start(if a.len() > 0 && a[0] == '*' {
        a.drop_first()
    } else {
        a
    })
}

/// The lines `spans[k..]` of `body`, each undecorated and followed by a line feed.
pub open spec fn block_lines(body: Seq<char>, spans: Seq<(int, int)>, k: int) -> Seq<char>
    decreases spans.len() - k,
{
    if k < 0 || k >= spans.len() {
        seq![]
    } else {
        undecorated(body.subrange(spans[k].0, spans[k].1)) + seq!['\n'] + block_lines(
            body,
            spans,
            k + 1,
        )
    }
}

/// The text of the block comment `text` (which starts with `/*`): its lines without the
/// markers and the decoration in front of each line, each followed by a line feed.
pub open spec fn block_comment_text(text: Seq<char>) -> Seq<char> {
    let inner = text.subrange(2, text.len() as int);
    let body = if inner.len() >= 2 && inner.subrange(inner.len() - 2, inner.len() as int) == seq!['*', '/'] {
        inner.subrange(0, inner.len() - 2)
    } else {
        inner
    };
    block_lines(body, line_spans(body, 0), 0)
}

/// Where the grouping of comments stands.
pub struct RsScan {
    /// The comment block being gathered, with its first line.
    pub pending: Option<(usize, Seq<char>)>,
    /// Whether the last token read was whitespace.
    pub was_ws: bool,
    /// The line that the next token starts on.
    pub line: usize,
    /// The blocks completed so far, each with its first line.
    pub blocks: Seq<(usize, Seq<char>)>,
}

/// Completes the pending block, if any.
pub open spec fn rs_flush(st: RsScan) -> RsScan {
    match st.pending {
        Some((l, c)) => RsScan {
            pending: None,
            blocks: st.blocks.push((l, trim_newlines_end(c))),
            ..st
        },
        None => st,
    }
}

/// Appends `more` to the pending block, or starts one on line `line`.
pub open spec fn rs_append(st: RsScan, line: usize, more: Seq<char>) -> RsScan {
    match st.pending {
        Some((l, c)) => RsScan { pending: Some((l, c + more)), ..st },
        None => RsScan { pending: Some((line, more)), ..st },
    }
}

/// Reads one comment token.
pub open spec fn rs_comment(st: RsScan, text: Seq<char>) -> RsScan {
    if has_at(text, 0, seq!['/', '/', '/']) || has_at(text, 0, seq!['/', '*', '*']) {
        rs_flush(st)
    } else {
        let st1 = RsScan { was_ws: false, ..st };
        if has_at(text, 0, seq!['/', '*']) {
            let st2 = rs_flush(st1);
            rs_flush(RsScan { pending: Some((st.line, block_comment_text(text))), ..st2 })
        } else if has_at(text, 0, seq!['/', '/', '!']) {
            rs_append(st1, st.line, trim_start(text.subrange(3, text.len() as int)))
        } else if has_at(text, 0, seq!['/', '/']) {
            rs_append(st1, st.line, trim_start(text.subrange(2, text.len() as int)))
        } else {
            rs_flush(st1)
        }
    }
}

/// Reads one whitespace token.
pub open spec fn rs_whitespace(st: RsScan, text: Seq<char>) -> RsScan {
    if st.pending is Some {
        if st.was_ws {
            rs_flush(st)
        } else {
            let nl = run_end(text, 0, CharClass::NotNewline);
            let (just, trailing) = if nl < text.len() {
                (text.subrange(0, nl), text.subrange(nl + 1, text.len() as int))
            } else {
                (seq![], seq![])
            };
            let st1 = RsScan { was_ws: true, ..rs_append(st, st.line, just + seq!['\n']) };
            if count_char(trailing, '\n') > 0 {
                rs_flush(st1)
            } else {
                st1
            }
        }
    } else {
        RsScan { was_ws: true, ..st }
    }
}

/// Reads one walk event.
pub open spec fn rs_step(st: RsScan, ev: SpecRsEvent) -> RsScan {
    match ev {
        SpecRsEvent::Leave => st,
        SpecRsEvent::NodeStart => rs_flush(st),
        SpecRsEvent::Token { kind, text } => {
            let st1 = match kind {
                TokenKind::Comment => rs_comment(st, text),
                TokenKind::Whitespace => rs_whitespace(st, text),
                TokenKind::Other => RsScan { was_ws: false, ..rs_flush(st) },
            };
            RsScan { line: sat_add(st.line as int, count_char(text, '\n') as int) as usize, ..st1 }
        },
    }
}

/// Where the grouping stands after the walk events `evs`.
pub open spec fn rs_run(evs: Seq<SpecRsEvent>) -> RsScan
    decreases evs.len(),
{
    if evs.len() == 0 {
        RsScan { pending: None, was_ws: false, line: 1, blocks: seq![] }
    } else {
        rs_step(rs_run(evs.drop_last()), evs.last())
    }
}

/// The comment blocks of a Rust file, from its walk events, each with its first line and its
/// text without comment markers and without trailing line feeds.
pub open spec fn spec_rust_comment_blocks(evs: Seq<SpecRsEvent>) -> Seq<(usize, Seq<char>)> {
    rs_flush(rs_run(evs)).blocks
}

/// A character of a text is counted among its occurrences.
proof fn lemma_count_char_pos(s: Seq<char>, c: char, k: int)
    requires
        0 <= k < s.len(),
        s[k] == c,
    ensures
        count_char(s, c) > 0,
    decreases s.len(),
{
    if k < s.len() - 1 {
        lemma_count_char_pos(s.drop_last(), c, k);
    }
}

/// A run that ends before the last character of a text ends alike without that character.
proof fn lemma_run_start_push(s: Seq<char>, c: char, j: int, class: CharClass)
    requires
        0 <= j <= s.len(),
    ensures
        run_start(s.push(c), j, class) == run_start(s, j, class),
    decreases j,
{
    if j > 0 {
        assert(s.push(c)[j - 1] == s[j - 1]);
        lemma_run_start_push(s, c, j - 1, class);
    }
}

/// A line feed added at the end of a text is dropped again with its other trailing line feeds.
proof fn lemma_trim_newlines_push(c: Seq<char>)
    ensures
        trim_newlines_end(c.push('\n')) == trim_newlines_end(c),
{
    let d = c.push('\n');
    assert(d[d.len() - 1] == '\n');
    lemma_run_start(c, c.len() as int, CharClass::Newline);
    lemma_run_start_push(c, '\n', c.len() as int, CharClass::Newline);
    assert(run_start(d, d.len() as int, CharClass::Newline) == run_start(d, c.len() as int, CharClass::Newline));
    assert(d.subrange(0, run_start(c, c.len() as int, CharClass::Newline)) =~= c.subrange(
        0,
        run_start(c, c.len() as int, CharClass::Newline),
    ));
}

/// Reading a walk event keeps every block completed before it.
proof fn lemma_step_keeps_blocks(st: RsScan, ev: SpecRsEvent)
    ensures
        st.blocks.is_prefix_of(rs_step(st, ev).blocks),
{
    let f1 = rs_flush(st);
    assert(st.blocks.is_prefix_of(f1.blocks));
    let st0 = RsScan { was_ws: false, ..st };
    let f2 = rs_flush(st0);
    assert(st.blocks.is_prefix_of(f2.blocks));
    assert(st.blocks.is_prefix_of(rs_flush(RsScan { pending: f2.pending, ..f2 }).blocks));
    let f3 = rs_flush(RsScan { pending: Some((st.line, seq![])), ..f2 });
    assert(f2.blocks.is_prefix_of(f3.blocks));
}

/// Reading more walk events keeps every block completed before them.
proof fn lemma_run_keeps_blocks(e: Seq<SpecRsEvent>, f: Seq<SpecRsEvent>)
    ensures
        rs_run(e).blocks.is_prefix_of(rs_run(e + f).blocks),
    decreases f.len(),
{
    if f.len() == 0 {
        assert(e + f =~= e);
    } else {
        let g = f.drop_last();
        lemma_run_keeps_blocks(e, g);
        assert((e + f).drop_last() =~= e + g);
        assert((e + f).last() == f.last());
        lemma_step_keeps_blocks(rs_run(e + g), f.last());
    }
}

/// A whitespace token in a walk.
pub open spec fn whitespace_token(text: Seq<char>) -> SpecRsEvent {
    SpecRsEvent::Token { kind: TokenKind::Whitespace, text }
}

/// An empty line ends a run of comments: where the walk of a Rust file has, after the events
/// `e`, a whitespace token that starts a new line and holds another line feed (so that an
/// empty line follows), the comment blocks found in `e` alone come first, unchanged, among the
/// blocks of the whole file, whatever follows. No block joins comments from both sides of the
/// empty line.
pub proof fn lemma_empty_line_ends_block(
    e: Seq<SpecRsEvent>,
    w: Seq<char>,
    j: int,
    f: Seq<SpecRsEvent>,
)
    requires
        0 < j < w.len(),
        w[0] == '\n',
        w[j] == '\n',
    ensures
        spec_rust_comment_blocks(e).is_prefix_of(
            spec_rust_comment_blocks(e + seq![whitespace_token(w)] + f),
        ),
{
    let st0 = rs_run(e);
    let e1 = e.push(whitespace_token(w));
    assert(e1.drop_last() =~= e);
    let st1 = rs_run(e1);
    assert(st1 == rs_step(st0, whitespace_token(w)));
    // the whitespace token completes the pending block
    assert(st1.pending is None && st1.blocks == rs_flush(st0).blocks) by {
        if st0.pending is Some && !st0.was_ws {
            lemma_run_end_unique(w, 0, 0, CharClass::NotNewline);
            let trailing = w.subrange(1, w.len() as int);
            assert(trailing[j - 1] == '\n');
            lemma_count_char_pos(trailing, '\n', j - 1);
            let (l, c) = st0.pending.unwrap();
            assert(seq![] + seq!['\n'] =~= seq!['\n']);
            assert(c + seq!['\n'] =~= c.push('\n'));
            lemma_trim_newlines_push(c);
        }
    }
    assert(e + seq![whitespace_token(w)] + f =~= e1 + f);
    lemma_run_keeps_blocks(e1, f);
    let st2 = rs_run(e1 + f);
    assert(st2.blocks.is_prefix_of(rs_flush(st2).blocks));
}

/// A comment token in a walk.
pub open spec fn comment_token(text: Seq<char>) -> SpecRsEvent {
    SpecRsEvent::Token { kind: TokenKind::Comment, text }
}

/// A token in a walk that is neither a comment nor whitespace.
pub open spec fn other_token(text: Seq<char>) -> SpecRsEvent {
    SpecRsEvent::Token { kind: TokenKind::Other, text }
}

/// A text without a line feed is counted to hold none.
proof fn lemma_count_char_absent(s: Seq<char>, c: char)
    requires
        !s.contains(c),
    ensures
        count_char(s, c) == 0,
    decreases s.len(),
{
    if s.len() > 0 {
        assert(s.last() == s[s.len() - 1]);
        assert(!s.drop_last().contains(c)) by {
            if s.drop_last().contains(c) {
                let k = choose|k: int| 0 <= k < s.drop_last().len() && s.drop_last()[k] == c;
                assert(s[k] == c);
            }
        }
        lemma_count_char_absent(s.drop_last(), c);
    }
}

/// Line comments on adjacent lines join: where the walk of a Rust file has, after the events
/// `e` and a token that is neither a comment nor whitespace, a `//` comment, a whitespace token
/// that only ends its line, and another `//` comment that ends in a visible character, the
/// blocks of the whole walk are those of `e`, then a single block that holds the two comments'
/// texts, one line each.
pub proof fn lemma_adjacent_comments_join(
    e: Seq<SpecRsEvent>,
    o: Seq<char>,
    x1: Seq<char>,
    x2: Seq<char>,
    b: Seq<char>,
)
    requires
        !x1.contains('\n'),
        !x2.contains('\n'),
        !b.contains('\n'),
        x1.len() == 0 || (x1[0] != '/' && x1[0] != '!'),
        x2.len() > 0,
        x2[0] != '/' && x2[0] != '!',
        !is_ws(x2.last()),
    ensures
        spec_rust_comment_blocks(
            e + seq![
                other_token(o),
                comment_token(seq!['/', '/'] + x1),
                whitespace_token(seq!['\n'] + b),
                comment_token(seq!['/', '/'] + x2),
            ],
        ).drop_last() == spec_rust_comment_blocks(e),
        spec_rust_comment_blocks(
            e + seq![
                other_token(o),
                comment_token(seq!['/', '/'] + x1),
                whitespace_token(seq!['\n'] + b),
                comment_token(seq!['/', '/'] + x2),
            ],
        ).last().1 == trim_start(x1) + seq!['\n'] + trim_start(x2),
{
    let c1 = seq!['/', '/'] + x1;
    let c2 = seq!['/', '/'] + x2;
    let w = seq!['\n'] + b;
    let evs = e + seq![other_token(o), comment_token(c1), whitespace_token(w), comment_token(c2)];
    let e1 = e.push(other_token(o));
    let e2 = e1.push(comment_token(c1));
    let e3 = e2.push(whitespace_token(w));
    assert(evs =~= e3.push(comment_token(c2)));
    assert(evs.drop_last() =~= e3);
    assert(e3.drop_last() =~= e2);
    assert(e2.drop_last() =~= e1);
    assert(e1.drop_last() =~= e);
    let s0 = rs_run(e);
    let s1 = rs_run(e1);
    let s2 = rs_run(e2);
    let s3 = rs_run(e3);
    let s4 = rs_run(evs);
    assert(s1.pending is None && !s1.was_ws && s1.blocks == spec_rust_comment_blocks(e));
    // the first comment starts a block
    let t1 = trim_start(x1);
    assert(!has_at(c1, 0, seq!['/', '/', '/']) && !has_at(c1, 0, seq!['/', '/', '!'])) by {
        if x1.len() > 0 {
            assert(c1[2] == x1[0]);
            if has_at(c1, 0, seq!['/', '/', '/']) || has_at(c1, 0, seq!['/', '/', '!']) {
                assert(c1.subrange(0, 3)[2] == c1[2]);
            }
        }
    }
    assert(!has_at(c1, 0, seq!['/', '*', '*']) && !has_at(c1, 0, seq!['/', '*'])) by {
        assert(c1[1] == '/');
        if has_at(c1, 0, seq!['/', '*', '*']) {
            assert(c1.subrange(0, 3)[1] == c1[1]);
        }
        if has_at(c1, 0, seq!['/', '*']) {
            assert(c1.subrange(0, 2)[1] == c1[1]);
        }
    }
    assert(c1.subrange(0, 2) =~= seq!['/', '/']);
    assert(c1.subrange(2, c1.len() as int) =~= x1);
    assert(s2.pending == Some((s1.line, t1)) && !s2.was_ws && s2.blocks == s1.blocks);
    // the whitespace only ends the line
    lemma_run_end_unique(w, 0, 0, CharClass::NotNewline);
    assert(w.subrange(0, 0) + seq!['\n'] =~= seq!['\n']);
    assert(w.subrange(1, w.len() as int) =~= b);
    lemma_count_char_absent(b, '\n');
    assert(s3.pending == Some((s1.line, t1 + seq!['\n'])) && s3.was_ws && s3.blocks == s1.blocks);
    // the second comment joins the block
    assert(!has_at(c2, 0, seq!['/', '/', '/']) && !has_at(c2, 0, seq!['/', '/', '!'])) by {
        assert(c2[2] == x2[0]);
        if has_at(c2, 0, seq!['/', '/', '/']) || has_at(c2, 0, seq!['/', '/', '!']) {
            assert(c2.subrange(0, 3)[2] == c2[2]);
        }
    }
    assert(!has_at(c2, 0, seq!['/', '*', '*']) && !has_at(c2, 0, seq!['/', '*'])) by {
        assert(c2[1] == '/');
        if has_at(c2, 0, seq!['/', '*', '*']) {
            assert(c2.subrange(0, 3)[1] == c2[1]);
        }
        if has_at(c2, 0, seq!['/', '*']) {
            assert(c2.subrange(0, 2)[1] == c2[1]);
        }
    }
    assert(c2.subrange(0, 2) =~= seq!['/', '/']);
    assert(c2.subrange(2, c2.len() as int) =~= x2);
    let t2 = trim_start(x2);
    let u = t1 + seq!['\n'] + t2;
    assert(s4.pending == Some((s1.line, u)) && s4.blocks == s1.blocks);
    // the block keeps its last line
    let k = run_end(x2, 0, CharClass::Whitespace);
    lemma_run_end(x2, 0, CharClass::Whitespace);
    if k == x2.len() {
        assert(CharClass::Whitespace.has(x2[x2.len() - 1]));
    }
    assert(t2.len() > 0 && t2.last() == x2.last());
    assert(u.last() == t2.last());
    assert(u[u.len() - 1] != '\n') by {
        if u[u.len() - 1] == '\n' {
            assert(x2[x2.len() - 1] == '\n');
            assert(x2.contains('\n'));
        }
    }
    assert(run_start(u, u.len() as int, CharClass::Newline) == u.len());
    assert(trim_newlines_end(u) =~= u);
    let blocks = spec_rust_comment_blocks(evs);
    assert(blocks == s1.blocks.push((s1.line, u)));
    assert(blocks.drop_last() =~= s1.blocks);
}

/// The specification's view of a list of comment blocks.
pub open spec fn blocks_view(v: Seq<(usize, Vec<char>)>) -> Seq<(usize, Seq<char>)> {
    v.map_values(|b: (usize, Vec<char>)| (b.0, b.1@))
}

/// The specification's view of a pending block.
pub open spec fn pending_view(p: Option<(usize, Vec<char>)>) -> Option<(usize, Seq<char>)> {
    match p {
        Some((l, c)) => Some((l, c@)),
        None => None,
    }
}

/// Where the grouping of comments stands, in executable form.
pub struct RsScanState {
    /// The comment block being gathered, with its first line.
    pub pending: Option<(usize, Vec<char>)>,
    /// Whether the last token read was whitespace.
    pub was_ws: bool,
    /// The line that the next token starts on.
    pub line: usize,
    /// The blocks completed so far.
    pub blocks: Vec<(usize, Vec<char>)>,
}

impl View for RsScanState {
    type V = RsScan;

    open spec fn view(&self) -> RsScan {
        RsScan {
            pending: pending_view(self.pending),
            was_ws: self.was_ws,
            line: self.line,
            blocks: blocks_view(self.blocks@),
        }
    }
}

/// `s` without its trailing line feeds.
pub fn trim_newlines_end_exec(s: &[char]) -> (res: Vec<char>)
    ensures
        res@ == trim_newlines_end(s@),
{
    let b = skip_class_back(s, s.len(), CharClass::Newline);
    copy_range(s, 0, b)
}

fn flush(st: RsScanState) -> (res: RsScanState)
    ensures
        res@ == rs_flush(st@),
{
    let RsScanState { pending, was_ws, line, mut blocks } = st;
    match pending {
        Some((l, c)) => {
            let ghost before = blocks_view(blocks@);
            let t = trim_newlines_end_exec(c.as_slice());
            blocks.push((l, t));
            assert(blocks_view(blocks@) =~= before.push((l, t@)));
            RsScanState { pending: None, was_ws, line, blocks }
        },
        None => RsScanState { pending: None, was_ws, line, blocks },
    }
}

fn append(st: RsScanState, line: usize, more: &[char]) -> (res: RsScanState)
    ensures
        res@ == rs_append(st@, line, more@),
{
    let RsScanState { pending, was_ws, line: cur, blocks } = st;
    match pending {
        Some((l, mut c)) => {
            push_all(&mut c, more);
            RsScanState { pending: Some((l, c)), was_ws, line: cur, blocks }
        },
        None => {
            let c = copy_range(more, 0, more.len());
            assert(c@ =~= more@);
            RsScanState { pending: Some((line, c)), was_ws, line: cur, blocks }
        },
    }
}

fn undecorated_exec(line: &[char]) -> (res: Vec<char>)
    ensures
        res@ == undecorated(line@),
{
    let a = trim_start_chars(line);
    if a.len() > 0 && a[0] == '*' {
        let b = copy_range(a.as_slice(), 1, a.len());
        assert(b@ =~= a@.drop_first());
        trim_start_chars(b.as_slice())
    } else {
        trim_start_chars(a.as_slice())
    }
}

/// The text of a block comment; see [`block_comment_text`].
pub fn block_comment_text_exec(text: &[char]) -> (res: Vec<char>)
    requires
        text@.len() >= 2,
    ensures
        res@ == block_comment_text(text@),
{
    let inner = copy_range(text, 2, text.len());
    let close: Vec<char> = vec!['*', '/'];
    assert(close@ =~= seq!['*', '/']);
    let body = if inner.len() >= 2 && matches_at(inner.as_slice(), inner.len() - 2, close.as_slice()) {
        copy_range(inner.as_slice(), 0, inner.len() - 2)
    } else {
        inner
    };
    let spans = lines_of(body.as_slice());
    let ghost sv = spans@.map_values(|p: (usize, usize)| (p.0 as int, p.1 as int));
    let mut out: Vec<char> = Vec::new();
    let mut k: usize = 0;
    assert(out@ + block_lines(body@, sv, 0) =~= block_lines(body@, sv, 0));
    while k < spans.len()
        invariant
            k <= spans@.len(),
            sv == spans@.map_values(|p: (usize, usize)| (p.0 as int, p.1 as int)),
            sv == line_spans(body@, 0),
            forall|m: int| 0 <= m < spans@.len() ==> #[trigger] spans@[m].0 <= spans@[m].1 <= body@.len(),
            out@ + block_lines(body@, sv, k as int) == block_lines(body@, sv, 0),
        decreases spans@.len() - k,
    {
        let (a, b) = spans[k];
        assert(sv[k as int] == (a as int, b as int));
        let line = copy_range(body.as_slice(), a, b);
        let u = undecorated_exec(line.as_slice());
        let ghost before = out@;
        push_all(&mut out, u.as_slice());
        out.push('\n');
        assert(before + block_lines(body@, sv, k as int) =~= out@ + block_lines(body@, sv, k + 1));
        k = k + 1;
    }
    assert(out@ =~= block_lines(body@, sv, 0));
    out
}

fn starts(text: &[char], p: &[char]) -> (res: bool)
    ensures
        res == has_at(text@, 0, p@),
{
    matches_at(text, 0, p)
}

fn comment_step(st: RsScanState, text: &[char]) -> (res: RsScanState)
    ensures
        res@ == rs_comment(st@, text@),
{
    let p3: Vec<char> = vec!['/', '/', '/'];
    assert(p3@ =~= seq!['/', '/', '/']);
    let b3: Vec<char> = vec!['/', '*', '*'];
    assert(b3@ =~= seq!['/', '*', '*']);
    let b2: Vec<char> = vec!['/', '*'];
    assert(b2@ =~= seq!['/', '*']);
    let i3: Vec<char> = vec!['/', '/', '!'];
    assert(i3@ =~= seq!['/', '/', '!']);
    let l2: Vec<char> = vec!['/', '/'];
    assert(l2@ =~= seq!['/', '/']);
    if starts(text, p3.as_slice()) || starts(text, b3.as_slice()) {
        return flush(st);
    }
    let line = st.line;
    let st1 = RsScanState { was_ws: false, ..st };
    if starts(text, b2.as_slice()) {
        let st2 = flush(st1);
        let body = block_comment_text_exec(text);
        flush(RsScanState { pending: Some((line, body)), ..st2 })
    } else if starts(text, i3.as_slice()) {
        let rest = copy_range(text, 3, text.len());
        let t = trim_start_chars(rest.as_slice());
        append(st1, line, t.as_slice())
    } else if starts(text, l2.as_slice()) {
        let rest = copy_range(text, 2, text.len());
        let t = trim_start_chars(rest.as_slice());
        append(st1, line, t.as_slice())
    } else {
        flush(st1)
    }
}

fn whitespace_step(st: RsScanState, text: &[char]) -> (res: RsScanState)
    ensures
        res@ == rs_whitespace(st@, text@),
{
    if st.pending.is_some() {
        if st.was_ws {
            flush(st)
        } else {
            let nl = skip_class(text, 0, CharClass::NotNewline);
            let (just, trailing) = if nl < text.len() {
                (copy_range(text, 0, nl), copy_range(text, nl + 1, text.len()))
            } else {
                (Vec::new(), Vec::new())
            };
            assert(nl >= text@.len() ==> just@ =~= Seq::<char>::empty() && trailing@ =~= Seq::<char>::empty());
            let mut more = just;
            more.push('\n');
            assert(more@ =~= just@ + seq!['\n']);
            let line = st.line;
            let st1 = append(st, line, more.as_slice());
            let st1 = RsScanState { was_ws: true, ..st1 };
            if count_newlines(trailing.as_slice(), 0, trailing.len(), 0) > 0 {
                assert(trailing@.subrange(0, trailing@.len() as int) =~= trailing@);
                flush(st1)
            } else {
                assert(trailing@.subrange(0, trailing@.len() as int) =~= trailing@);
                st1
            }
        }
    } else {
        RsScanState { was_ws: true, ..st }
    }
}

fn rs_step_exec(st: RsScanState, ev: &RsEvent) -> (res: RsScanState)
    ensures
        res@ == rs_step(st@, ev@),
{
    match ev {
        RsEvent::Leave => st,
        RsEvent::NodeStart => flush(st),
        RsEvent::Token { kind, text } => {
            let chars = chars_of(text.as_str());
            let line = st.line;
            let st1 = match kind {
                TokenKind::Comment => comment_step(st, chars.as_slice()),
                TokenKind::Whitespace => whitespace_step(st, chars.as_slice()),
                TokenKind::Other => RsScanState { was_ws: false, ..flush(st) },
            };
            let next = count_newlines(chars.as_slice(), 0, chars.len(), line);
            assert(chars@.subrange(0, chars@.len() as int) =~= chars@);
            RsScanState { line: next, ..st1 }
        },
    }
}

/// The comment blocks of a Rust file, from its walk events; see
/// [`spec_rust_comment_blocks`].
pub fn rust_comment_blocks(events: &Vec<RsEvent>) -> (res: Vec<(usize, Vec<char>)>)
    ensures
        blocks_view(res@) == spec_rust_comment_blocks(events_view(events@)),
{
    let ghost evs = events_view(events@);
    let mut st = RsScanState { pending: None, was_ws: false, line: 1, blocks: Vec::new() };
    assert(st@.blocks =~= Seq::<(usize, Seq<char>)>::empty());
    assert(evs.take(0) =~= Seq::<SpecRsEvent>::empty());
    let mut i: usize = 0;
    while i < events.len()
        invariant
            i <= events@.len(),
            evs == events_view(events@),
            st@ == rs_run(evs.take(i as int)),
        decreases events@.len() - i,
    {
        assert(evs.take(i + 1).drop_last() =~= evs.take(i as int));
        assert(evs.take(i + 1).last() == events@[i as int]@);
        st = rs_step_exec(st, &events[i]);
        i = i + 1;
    }
    assert(evs.take(i as int) =~= evs);
    flush(st).blocks
}

} // verus!
