//! Finding every Y-Statement in a source file.
use vstd::prelude::*;
use crate::language::Language;
use crate::error::{YadrError, SpecError};
use crate::grammar::fits;
use crate::statement::{
    spec_statements_in_comment, statements_in_comment, StatementSource, SpecSource, sources_view,
    opt_err_view,
};
use crate::yadr::{YAdr, SpecYAdr, spec_parse_block, parse_block, spec_parse, lemma_parsed_in_date_order};
use crate::block::in_date_order;
use crate::rust_comments::{
    rust_events, rust_comment_blocks, spec_rust_comment_blocks, rust_syntax_events, blocks_view,
    small_source,
};
use crate::ts_comments::{TsCapture, SpecTsCapture, ts_comment_blocks, spec_ts_comment_blocks, matches_view};
use crate::ts_query::{
    query_comments, is_setup_error, ts_captures, comment_query_text, ts_query_compiles,
};

verus! {

/// An error with the lines it is placed in.
pub open spec fn placed(e: SpecError, statement_line: Option<usize>, comment_line: Option<usize>) -> SpecError {
    SpecError {
        kind: e.kind,
        statement_line: match statement_line {
            Some(l) => Some(l),
            None => e.statement_line,
        },
        comment_line: match comment_line {
            Some(l) => Some(l),
            None => e.comment_line,
        },
    }
}

/// The statements parsed from the sources `srcs[k..]` of a comment on line `comment_line`, up
/// to the first that fails to parse, and its error, placed in its statement and comment.
pub open spec fn parse_sources(srcs: Seq<SpecSource>, k: int, comment_line: usize) -> (Seq<(usize, SpecYAdr)>, Option<SpecError>)
    decreases srcs.len() - k,
{
    if k < 0 || k >= srcs.len() {
        (seq![], None)
    } else {
        match spec_parse_block(srcs[k].date, srcs[k].title, srcs[k].body) {
            Err(e) => (seq![], Some(placed(e, Some(srcs[k].line), Some(comment_line)))),
            Ok(y) => {
                let rest = parse_sources(srcs, k + 1, comment_line);
                (seq![(srcs[k].line, y)] + rest.0, rest.1)
            },
        }
    }
}

/// The statements of the comment blocks `blocks[k..]`, each with the line of its `YADR:` line,
/// up to the first mistake, and that mistake. A block too long to be indexed (which no block
/// held in memory is) holds no statements.
pub open spec fn scan_blocks(blocks: Seq<(usize, Seq<char>)>, k: int) -> (Seq<(usize, SpecYAdr)>, Option<SpecError>)
    decreases blocks.len() - k,
{
    if k < 0 || k >= blocks.len() {
        (seq![], None)
    } else {
        let (line, text) = blocks[k];
        let (srcs, err) = if fits(text.len() as int) {
            spec_statements_in_comment(text, line)
        } else {
            (seq![], None)
        };
        let (ys, e1) = parse_sources(srcs, 0, line);
        if e1 is Some {
            (ys, e1)
        } else if err is Some {
            (ys, Some(placed(err.unwrap(), None, Some(line))))
        } else {
            let rest = scan_blocks(blocks, k + 1);
            (ys + rest.0, rest.1)
        }
    }
}

/// The statements of a file and the first mistake, if any, from its comment blocks and the
/// mistake (if any) that stopped the finding of comment blocks.
pub open spec fn spec_scan(blocks: Seq<(usize, Seq<char>)>, err: Option<SpecError>) -> (Seq<(usize, SpecYAdr)>, Option<SpecError>) {
    let r = scan_blocks(blocks, 0);
    if r.1 is Some {
        r
    } else {
        (r.0, err)
    }
}

/// Every statement parsed from the sources `srcs[k..]` has its change entries listed from oldest to newest.
proof fn lemma_parse_sources_in_date_order(srcs: Seq<SpecSource>, k: int, comment_line: usize)
    ensures
        forall|j: int| 0 <= j < parse_sources(srcs, k, comment_line).0.len()
            ==> in_date_order(#[trigger] parse_sources(srcs, k, comment_line).0[j].1.changes),
    decreases srcs.len() - k,
{
    if 0 <= k < srcs.len() {
        if let Ok(y) = spec_parse_block(srcs[k].date, srcs[k].title, srcs[k].body) {
            lemma_parsed_in_date_order(srcs[k].date, srcs[k].title, srcs[k].body);
            lemma_parse_sources_in_date_order(srcs, k + 1, comment_line);
            let rest = parse_sources(srcs, k + 1, comment_line).0;
            let all = parse_sources(srcs, k, comment_line).0;
            assert forall|j: int| 0 <= j < all.len() implies in_date_order(#[trigger] all[j].1.changes) by {
                if j > 0 {
                    assert(all[j] == rest[j - 1]);
                }
            }
        }
    }
}

/// Every statement found in the blocks `blocks[k..]` has its change entries listed from oldest to newest.
proof fn lemma_scan_blocks_in_date_order(blocks: Seq<(usize, Seq<char>)>, k: int)
    ensures
        forall|j: int| 0 <= j < scan_blocks(blocks, k).0.len()
            ==> in_date_order(#[trigger] scan_blocks(blocks, k).0[j].1.changes),
    decreases blocks.len() - k,
{
    if 0 <= k < blocks.len() {
        let (line, text) = blocks[k];
        let (srcs, err) = if fits(text.len() as int) {
            spec_statements_in_comment(text, line)
        } else {
            (seq![], None)
        };
        lemma_parse_sources_in_date_order(srcs, 0, line);
        lemma_scan_blocks_in_date_order(blocks, k + 1);
        let ys = parse_sources(srcs, 0, line).0;
        let rest = scan_blocks(blocks, k + 1).0;
        let all = scan_blocks(blocks, k).0;
        assert forall|j: int| 0 <= j < all.len() implies in_date_order(#[trigger] all[j].1.changes) by {
            if j < ys.len() {
                assert(all[j] == ys[j]);
            } else {
                assert(all[j] == rest[j - ys.len()]);
            }
        }
    }
}

/// Every statement found in a file has its change entries listed from oldest to newest, so
/// that the last entry of each tells when it was last changed.
pub proof fn lemma_found_in_date_order(blocks: Seq<(usize, Seq<char>)>, err: Option<SpecError>)
    ensures
        forall|j: int| 0 <= j < spec_scan(blocks, err).0.len()
            ==> in_date_order(#[trigger] spec_scan(blocks, err).0[j].1.changes),
{
    lemma_scan_blocks_in_date_order(blocks, 0);
}

/// Parsing a statement on its own with `YAdr::parse` gives what scanning a comment that holds
/// just that text, starting on line 1, finds: that one statement and no mistake.
pub proof fn lemma_parse_as_scanned(t: Seq<char>)
    requires
        fits(t.len() as int),
        spec_parse(t) is Ok,
    ensures
        spec_scan(seq![(1usize, t)], None)
            == (seq![(spec_statements_in_comment(t, 1).0[0].line, spec_parse(t)->Ok_0)], None::<SpecError>),
{
    let blocks = seq![(1usize, t)];
    let srcs = spec_statements_in_comment(t, 1).0;
    let y = spec_parse(t)->Ok_0;
    assert(parse_sources(srcs, 1, 1).0 =~= Seq::<(usize, SpecYAdr)>::empty());
    assert(parse_sources(srcs, 0, 1).0 =~= seq![(srcs[0].line, y)]);
    assert(scan_blocks(blocks, 1).0 =~= Seq::<(usize, SpecYAdr)>::empty());
    assert(scan_blocks(blocks, 0).0 =~= seq![(srcs[0].line, y)]);
}

/// What was found in a source file: every statement read before the first mistake, each with
/// the line of its `YADR:` line, and that mistake, if there is one.
#[derive(Debug, Clone, PartialEq, Eq)]
pub struct Scan {
    /// The statements found, in the order they appear.
    pub found: Vec<(usize, YAdr)>,
    /// The first mistake; nothing after it was read.
    pub error: Option<YadrError>,
}

/// The specification's view of a list of found statements.
pub open spec fn found_view(v: Seq<(usize, YAdr)>) -> Seq<(usize, SpecYAdr)> {
    v.map_values(|f: (usize, YAdr)| (f.0, f.1@))
}

impl View for Scan {
    type V = (Seq<(usize, SpecYAdr)>, Option<SpecError>);

    open spec fn view(&self) -> (Seq<(usize, SpecYAdr)>, Option<SpecError>) {
        (found_view(self.found@), opt_err_view(self.error))
    }
}

fn place(e: YadrError, statement_line: Option<usize>, comment_line: Option<usize>) -> (res: YadrError)
    ensures
        res@ == placed(e@, statement_line, comment_line),
{
    YadrError {
        kind: e.kind,
        statement_line: match statement_line {
            Some(l) => Some(l),
            None => e.statement_line,
        },
        comment_line: match comment_line {
            Some(l) => Some(l),
            None => e.comment_line,
        },
    }
}

/// Finds the statements of a file from its comment blocks (each with its first line and its
/// text without comment markers) and the mistake, if any, that stopped the finding of comment
/// blocks; see [`spec_scan`].
pub fn scan_comment_blocks(blocks: &Vec<(usize, Vec<char>)>, err: Option<YadrError>) -> (res: Scan)
    ensures
        res@ == spec_scan(blocks_view(blocks@), opt_err_view(err)),
{
    let ghost bv = blocks_view(blocks@);
    let mut found: Vec<(usize, YAdr)> = Vec::new();
    let mut k: usize = 0;
    assert(found_view(found@) + scan_blocks(bv, 0).0 =~= scan_blocks(bv, 0).0);
    while k < blocks.len()
        invariant
            k <= blocks@.len(),
            bv == blocks_view(blocks@),
            scan_blocks(bv, 0).0 == found_view(found@) + scan_blocks(bv, k as int).0,
            scan_blocks(bv, 0).1 == scan_blocks(bv, k as int).1,
        decreases blocks@.len() - k,
    {
        let line = blocks[k].0;
        let text = &blocks[k].1;
        assert(bv[k as int] == (line, text@));
        let ghost before = found_view(found@);
        let (srcs, cerr) = if text.len() < usize::MAX - 2 {
            statements_in_comment(text.as_slice(), line)
        } else {
            (Vec::new(), None)
        };
        let ghost sv = sources_view(srcs@);
        proof {
            let pair = if fits(text@.len() as int) {
                spec_statements_in_comment(text@, line)
            } else {
                (seq![], None)
            };
            assert(!fits(text@.len() as int) ==> sv =~= Seq::<SpecSource>::empty());
            assert(pair == (sv, opt_err_view(cerr)));
        }
        // parse the sources one by one
        let mut j: usize = 0;
        let ghost whole = parse_sources(sv, 0, line);
        assert(found_view(found@) =~= before + Seq::<(usize, SpecYAdr)>::empty());
        while j < srcs.len()
            invariant
                j <= srcs@.len(),
                sv == sources_view(srcs@),
                forall|m: int| 0 <= m < srcs@.len() ==> (#[trigger] srcs@[m]).body@.len() <= text@.len(),
                fits(text@.len() as int) || srcs@.len() == 0,
                whole == parse_sources(sv, 0, line),
                found_view(found@) + parse_sources(sv, j as int, line).0 == before + whole.0,
                whole.1 == parse_sources(sv, j as int, line).1,
                k < blocks@.len(),
                bv == blocks_view(blocks@),
                bv[k as int] == (line, text@),
                (if fits(text@.len() as int) {
                    spec_statements_in_comment(text@, line)
                } else {
                    (seq![], None)
                }) == (sv, opt_err_view(cerr)),
                scan_blocks(bv, 0).0 == before + scan_blocks(bv, k as int).0,
                scan_blocks(bv, 0).1 == scan_blocks(bv, k as int).1,
            decreases srcs@.len() - j,
        {
            assert(sv[j as int] == srcs@[j as int]@);
            match parse_block(srcs[j].date, srcs[j].title.as_slice(), srcs[j].body.as_slice()) {
                Err(e) => {
                    let e2 = place(e, Some(srcs[j].line), Some(line));
                    proof {
                        assert(parse_sources(sv, j as int, line).0 =~= Seq::<(usize, SpecYAdr)>::empty());
                        assert(found_view(found@) =~= before + whole.0);
                        assert(whole.1 == Some(e2@));
                        assert(scan_blocks(bv, k as int) == whole);
                    }
                    return Scan { found, error: Some(e2) };
                },
                Ok(y) => {
                    let ghost fb = found_view(found@);
                    found.push((srcs[j].line, y));
                    proof {
                        let rest = parse_sources(sv, j + 1, line);
                        assert(parse_sources(sv, j as int, line).0 == seq![(srcs@[j as int].line, y@)] + rest.0);
                        assert(found_view(found@) =~= fb.push((srcs@[j as int].line, y@)));
                        assert(fb + (seq![(srcs@[j as int].line, y@)] + rest.0) =~= found_view(found@) + rest.0);
                    }
                },
            }
            j = j + 1;
        }
        assert(parse_sources(sv, j as int, line).0 =~= Seq::<(usize, SpecYAdr)>::empty());
        assert(found_view(found@) =~= before + whole.0);
        match cerr {
            Some(e) => {
                let e2 = place(e, None, Some(line));
                assert(scan_blocks(bv, k as int) == (whole.0, Some(e2@)));
                return Scan { found, error: Some(e2) };
            },
            None => {},
        }
        assert(before + (whole.0 + scan_blocks(bv, k + 1).0) =~= found_view(found@) + scan_blocks(bv, k + 1).0);
        k = k + 1;
    }
    assert(scan_blocks(bv, k as int).0 =~= Seq::<(usize, SpecYAdr)>::empty());
    assert(found_view(found@) =~= scan_blocks(bv, 0).0);
    Scan { found, error: err }
}

/// The statements of a Python, Nix or TypeScript file whose comment query handed out the
/// captures `ms`, and the first mistake.
pub open spec fn spec_scan_captures(ms: Seq<Seq<SpecTsCapture>>) -> (Seq<(usize, SpecYAdr)>, Option<SpecError>) {
    let (blocks, err) = spec_ts_comment_blocks(ms);
    spec_scan(blocks, err)
}

/// The statements of a Rust file, and the first mistake.
pub open spec fn spec_scan_rust(input: Seq<char>) -> (Seq<(usize, SpecYAdr)>, Option<SpecError>) {
    spec_scan(spec_rust_comment_blocks(rust_syntax_events(input)), None)
}

/// Finds the statements in the comments that the `tree-sitter` comment query captured, the
/// captures of each item it handed out in a list of their own.
pub fn scan_captures(matches: &Vec<Vec<TsCapture>>) -> (res: Scan)
    ensures
        res@ == spec_scan_captures(matches_view(matches@)),
{
    let (blocks, err) = ts_comment_blocks(matches);
    scan_comment_blocks(&blocks, err)
}

/// Finds every Y-Statement in the comments of a source file written in `language`: the
/// statements in the order they appear, each with the line of its `YADR:` line, up to the first
/// mistake, and that mistake.
///
/// A Rust file is read with `ra_ap_syntax`; the others with `tree-sitter`, which hands over the
/// captures of the language's comment query (named `ts_captures`) for [`scan_captures`] to read,
/// or, where that query does not compile for the grammar, fails before any comment is read
/// (see [`is_setup_error`]). The source
/// must take fewer than 2^32 bytes, the most either parser counts offsets in.
pub fn find_all(input: &str, language: Language) -> (res: Scan)
    requires
        small_source(input@),
    ensures
        language == Language::Rust ==> res@ == spec_scan_rust(input@),
        language != Language::Rust && ts_query_compiles(language, comment_query_text(language))
            ==> res@ == spec_scan_captures(ts_captures(input@, language, comment_query_text(language))),
        language != Language::Rust && !ts_query_compiles(language, comment_query_text(language))
            ==> res.found@.len() == 0 && res.error is Some && is_setup_error(res.error->Some_0),
{
    match language {
        Language::Rust => {
            let events = rust_events(input);
            let blocks = rust_comment_blocks(&events);
            scan_comment_blocks(&blocks, None)
        },
        _ => match query_comments(input, language) {
            Ok(matches) => scan_captures(&matches),
            Err(e) => Scan { found: Vec::new(), error: Some(e) },
        },
    }
}

/// The statements that the comment blocks `blocks[k..]` hold, each with its line, date, title
/// and body but not yet parsed, up to the first mistake in finding them, and that mistake.
pub open spec fn sections_from(blocks: Seq<(usize, Seq<char>)>, k: int) -> (Seq<SpecSource>, Option<SpecError>)
    decreases blocks.len() - k,
{
    if k < 0 || k >= blocks.len() {
        (seq![], None)
    } else {
        let (line, text) = blocks[k];
        let (srcs, err) = if fits(text.len() as int) {
            spec_statements_in_comment(text, line)
        } else {
            (seq![], None)
        };
        if err is Some {
            (srcs, Some(placed(err.unwrap(), None, Some(line))))
        } else {
            let rest = sections_from(blocks, k + 1);
            (srcs + rest.0, rest.1)
        }
    }
}

/// The statements that the comments of a Rust file hold, before their bodies are parsed: each
/// with the line of its `YADR:` line, its date, its title and its body; up to the first
/// mistake in finding them, and that mistake.
pub fn find_sections_rs(input: &str) -> (res: (Vec<StatementSource>, Option<YadrError>))
    requires
        small_source(input@),
    ensures
        (sources_view(res.0@), opt_err_view(res.1)) == sections_from(
            spec_rust_comment_blocks(rust_syntax_events(input@)),
            0,
        ),
{
    let events = rust_events(input);
    let blocks = rust_comment_blocks(&events);
    let ghost bv = blocks_view(blocks@);
    let mut found: Vec<StatementSource> = Vec::new();
    let mut k: usize = 0;
    assert(sources_view(found@) + sections_from(bv, 0).0 =~= sections_from(bv, 0).0);
    while k < blocks.len()
        invariant
            k <= blocks@.len(),
            bv == blocks_view(blocks@),
            bv == spec_rust_comment_blocks(rust_syntax_events(input@)),
            sections_from(bv, 0).0 == sources_view(found@) + sections_from(bv, k as int).0,
            sections_from(bv, 0).1 == sections_from(bv, k as int).1,
        decreases blocks@.len() - k,
    {
        let line = blocks[k].0;
        let text = &blocks[k].1;
        assert(bv[k as int] == (line, text@));
        let (mut srcs, cerr) = if text.len() < usize::MAX - 2 {
            statements_in_comment(text.as_slice(), line)
        } else {
            (Vec::new(), None)
        };
        let ghost sv = sources_view(srcs@);
        let ghost before = found@;
        proof {
            assert(!fits(text@.len() as int) ==> sv =~= Seq::<SpecSource>::empty());
        }
        found.append(&mut srcs);
        assert(sources_view(found@) =~= sources_view(before) + sv);
        match cerr {
            Some(e) => {
                let e2 = place(e, None, Some(line));
                assert(sections_from(bv, k as int) == (sv, Some(e2@)));
                assert(sources_view(found@) =~= sections_from(bv, 0).0);
                return (found, Some(e2));
            },
            None => {},
        }
        assert(sources_view(before) + (sv + sections_from(bv, k + 1).0) =~= sources_view(found@)
            + sections_from(bv, k + 1).0);
        k = k + 1;
    }
    assert(sections_from(bv, k as int).0 =~= Seq::<SpecSource>::empty());
    assert(sources_view(found@) =~= sections_from(bv, 0).0);
    (found, None)
}

} // verus!
