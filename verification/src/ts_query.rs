//! Running the comment query of a Python, Nix or TypeScript grammar over a source file with
//! `tree-sitter`.
use vstd::prelude::*;
use crate::error::{ErrorKind, YadrError};
use crate::ts_comments::{TsCapture, SpecTsCapture, matches_view};
use crate::language::Language;
use crate::rust_comments::small_source;
use streaming_iterator::StreamingIterator;
use tree_sitter::Language as Grammar;

verus! {

#[verifier::external_type_specification]
#[verifier::external_body]
pub struct ExLanguageError(tree_sitter::LanguageError);

#[verifier::external_type_specification]
#[verifier::external_body]
pub struct ExQueryError(tree_sitter::QueryError);

/// How the parse of a source by `tree-sitter` stopped: the grammar could not be set, or the
/// parse was cancelled.
pub enum TsFailure {
    Grammar(tree_sitter::LanguageError),
    Cancelled,
}

#[verifier::external_type_specification]
#[verifier::external_body]
pub struct ExGrammar(Grammar);

#[verifier::external_type_specification]
#[verifier::external_body]
pub struct ExTree(tree_sitter::Tree);

/// A source text parsed by `tree-sitter`: the syntax tree and the grammar it was parsed with,
/// beside the text and the language they were made from. Only [`parse_source`] makes one.
pub struct ParsedSource {
    tree: tree_sitter::Tree,
    grammar: Grammar,
    input: String,
    language: Language,
}

/// What the `tree-sitter` run of `query` over `input`, parsed with the grammar of `language`,
/// hands out: for each item the query cursor hands out, in order, the captures of the item's
/// match. The parser has no timeout and no cancellation flag, so this depends on the input,
/// the grammar and the query alone.
pub uninterp spec fn ts_captures(input: Seq<char>, language: Language, query: Seq<char>) -> Seq<Seq<SpecTsCapture>>;

/// Whether `tree-sitter` compiles `query` for the grammar of `language` (`Query::new`, which
/// depends on the grammar and the query text alone).
pub uninterp spec fn ts_query_compiles(language: Language, query: Seq<char>) -> bool;

/// Parses a source text with `tree-sitter`: `Parser::new`, `Parser::set_language` with the
/// grammar of `language` (`tree_sitter_python::LANGUAGE`, `tree_sitter_nix::LANGUAGE`, or
/// `tree_sitter_typescript::LANGUAGE_TYPESCRIPT`), and `Parser::parse` of the whole input. The
/// result keeps the text and the language beside the tree and the grammar.
///
/// It succeeds: `set_language` fails only for a grammar whose ABI version lies outside
/// 13..=15 or that cannot be parsed with, and the three grammars are native grammars of ABI
/// versions 15 (Python), 13 (Nix) and 14 (TypeScript); `parse` gives `None` only without a
/// grammar or with a timeout or cancellation flag, and none is set. The input is bounded below
/// 2^32 bytes, the most `tree-sitter` counts offsets in.
#[verifier::external_body]
fn parse_source(input: &str, language: Language) -> (res: Result<ParsedSource, TsFailure>)
    requires
        language != Language::Rust,
        small_source(input@),
    ensures
        res is Ok,
        res matches Ok(p) ==> p.input@ == input@ && p.language == language,
{
    let grammar: Grammar = match language {
        Language::Python => tree_sitter_python::LANGUAGE.into(),
        Language::Nix => tree_sitter_nix::LANGUAGE.into(),
        Language::TypeScript | Language::Rust => tree_sitter_typescript::LANGUAGE_TYPESCRIPT.into(),
    };
    let mut parser = tree_sitter::Parser::new();
    parser.set_language(&grammar).map_err(TsFailure::Grammar)?;
    let tree = parser.parse(input, None).ok_or(TsFailure::Cancelled)?;
    Ok(ParsedSource { tree, grammar, input: input.to_string(), language })
}

/// Runs a `tree-sitter` query over a parsed source: `Query::new` for its grammar, then
/// `QueryCursor::captures` over its tree. Each item is handed out as every capture of its match
/// (capture index, the text of its node in the source, the rows its node starts and ends on),
/// and the match is then removed with `QueryMatch::remove`, so that it is not handed out again
/// for its other captures.
///
/// The contract names what comes out `ts_captures(input, language, query_source)`, and whether
/// the query compiles `ts_query_compiles(language, query_source)`; which captures those are,
/// and which queries compile, is the work of the parser and the query engine and is not
/// restated.
#[verifier::external_body]
fn query_captures(p: &ParsedSource, query_source: &str) -> (res: Result<Vec<Vec<TsCapture>>, tree_sitter::QueryError>)
    ensures
        res is Ok <==> ts_query_compiles(p.language, query_source@),
        res matches Ok(v) ==> matches_view(v@) == ts_captures(p.input@, p.language, query_source@),
{
    let query = tree_sitter::Query::new(&p.grammar, query_source)?;
    let bytes = p.input.as_bytes();
    let mut cursor = tree_sitter::QueryCursor::new();
    let mut items = cursor.captures(&query, p.tree.root_node(), bytes);
    let mut found = Vec::new();
    while let Some((m, _)) = items.next() {
        found.push(m.captures().iter().map(|c| TsCapture {
            index: c.index,
            text: c.node.utf8_text(bytes).unwrap_or("").to_string(),
            start_row: c.node.start_position().row,
            end_row: c.node.end_position().row,
        }).collect());
        m.remove();
    }
    Ok(found)
}

/// `tree_sitter::LanguageError`'s `Display`: the message of a grammar that could not be set.
/// Nothing is stated of its text.
#[verifier::external_body]
fn language_error_text(e: &tree_sitter::LanguageError) -> String {
    e.to_string()
}

/// `tree_sitter::QueryError`'s `Display`: the message of a query that could not be compiled.
/// Nothing is stated of its text.
#[verifier::external_body]
fn query_error_text(e: &tree_sitter::QueryError) -> String {
    e.to_string()
}

/// The text of the `tree-sitter` query that picks out a language's comments.
pub open spec fn comment_query_text(language: Language) -> Seq<char> {
    if language == Language::Python {
        "([(comment)+ @comments (expression_statement (string) @docstr)])"@
    } else {
        "((comment)+ @comments)"@
    }
}

/// The `tree-sitter` query that picks out a language's comments: runs of comments, and for
/// Python also strings that stand as statements (where docstrings are).
pub fn comment_query(language: Language) -> (res: &'static str)
    requires
        language != Language::Rust,
    ensures
        res@ == comment_query_text(language),
{
    match language {
        Language::Python => "([(comment)+ @comments (expression_statement (string) @docstr)])",
        _ => "((comment)+ @comments)",
    }
}

/// Whether an error is one of those that stop a `tree-sitter` run before any comment is read:
/// the grammar could not be set, the parse was cancelled, or the query did not compile. Such an
/// error is not placed on any line.
pub open spec fn is_setup_error(e: YadrError) -> bool {
    &&& e.statement_line is None
    &&& e.comment_line is None
    &&& (e.kind@ is GrammarUnavailable || e.kind@ is ParseCancelled || e.kind@ is QueryInvalid)
}

fn setup_error(kind: ErrorKind) -> (res: YadrError)
    requires
        kind@ is GrammarUnavailable || kind@ is ParseCancelled || kind@ is QueryInvalid,
    ensures
        is_setup_error(res),
        res.kind == kind,
{
    YadrError { kind, statement_line: None, comment_line: None }
}

/// Parses `input` with the grammar of `language` and runs [`comment_query`] over the tree: the
/// captures of every item the query hands out. Fails, before reading any comment, exactly when
/// the query does not compile.
pub fn query_comments(input: &str, language: Language) -> (res: Result<Vec<Vec<TsCapture>>, YadrError>)
    requires
        language != Language::Rust,
        small_source(input@),
    ensures
        res is Ok <==> ts_query_compiles(language, comment_query_text(language)),
        res matches Ok(v) ==> matches_view(v@) == ts_captures(input@, language, comment_query_text(language)),
        res matches Err(e) ==> is_setup_error(e) && e.kind@ is QueryInvalid,
{
    let parsed = match parse_source(input, language) {
        Ok(p) => p,
        Err(TsFailure::Grammar(e)) => {
            let reason = language_error_text(&e);
            return Err(setup_error(ErrorKind::GrammarUnavailable { reason }));
        },
        Err(_) => {
            return Err(setup_error(ErrorKind::ParseCancelled));
        },
    };
    match query_captures(&parsed, comment_query(language)) {
        Ok(found) => Ok(found),
        Err(e) => {
            let reason = query_error_text(&e);
            Err(setup_error(ErrorKind::QueryInvalid { reason }))
        },
    }
}

} // verus!
