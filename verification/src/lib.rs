//! Cognitive complexity for PHP.
//!
//! The scorer in [`complexity`] is the reusable half of this crate — it takes a
//! parsed tree and returns per-function scores, with no filesystem or CLI
//! coupling, so it can be embedded in other tooling.
use vstd::prelude::*;
use tree_sitter::{LanguageError, Parser};
use crate::complexity::{findings_of, findings_view};
use crate::syntax::{fits_source, nodes_view, preorder_ok, NodeView, SyntaxNode, SyntaxTree};

pub mod baseline;
pub mod complexity;
pub mod gate;
pub mod kinds;
pub mod syntax;
pub mod text;
pub mod walk;

pub use crate::baseline::Baseline;
pub use crate::complexity::{analyze, Finding};

verus! {

#[verifier::external_type_specification]
#[verifier::external_body]
pub struct ExParser(Parser);

#[verifier::external_type_specification]
#[verifier::external_body]
pub struct ExLanguageError(LanguageError);

/// A tree-sitter parser with the PHP grammar loaded. Only [`parser`] makes one,
/// so every parse it runs is a parse of PHP.
pub struct PhpParser {
    inner: Parser,
}

/// The nodes, in preorder, of the tree that the PHP grammar gives `source`.
pub uninterp spec fn php_syntax(source: Seq<char>) -> Seq<NodeView>;

/// Builds a parser with the PHP grammar loaded: `tree_sitter::Parser::new`,
/// then `Parser::set_language` with `tree_sitter_php::LANGUAGE_PHP`. Whether it
/// succeeds is not stated: `set_language` refuses a grammar whose ABI version
/// lies outside the range the linked tree-sitter supports, or one that is not
/// parseable, and that is a fact of the two linked crates, not of any argument.
///
/// # Errors
///
/// Fails if the linked grammar is incompatible with this tree-sitter version,
/// which in practice means a dependency bump moved one without the other.
#[verifier::external_body]
pub fn parser() -> (parser: Result<PhpParser, LanguageError>) {
    let mut inner = Parser::new();
    inner.set_language(&tree_sitter_php::LANGUAGE_PHP.into())?;
    Ok(PhpParser { inner })
}

/// Parses `source` with tree-sitter (`Parser::parse`, no old tree) and lists the
/// tree's nodes in preorder, read through a `TreeCursor` (`goto_descendant`,
/// `node`, `field_name`, `depth`). Claimed: a tree comes back, since tree-sitter
/// returns none only to a parser without a language or one whose progress
/// callback cancels, and this parser holds the PHP grammar and has no callback;
/// and its listing is [`php_syntax`] of the source.
#[verifier::external_body]
fn parse_nodes(parser: &mut PhpParser, source: &str) -> (nodes: Option<Vec<SyntaxNode>>)
    ensures
        nodes is Some,
        nodes matches Some(v) ==> nodes_view(v@) == php_syntax(source@),
{
    let tree = parser.inner.parse(source, None)?;
    let mut cursor = tree.walk();
    let nodes = (0..tree.root_node().descendant_count()).map(|i| {
        cursor.goto_descendant(i);
        let (n, field) = (cursor.node(), cursor.field_name().map(str::to_string));
        let (kind, depth, row) = (n.kind().to_string(), cursor.depth() as usize, n.start_position().row);
        SyntaxNode { kind, field, depth, named: n.is_named(), row, start: n.start_byte(), end: n.end_byte() }
    });
    Some(nodes.collect())
}

/// The findings for a file whose syntax is `nodes`: none where the nodes are not
/// a preorder of one tree, or do not fit the source.
pub open spec fn findings_for(nodes: Seq<NodeView>, src: Seq<u8>) -> Seq<crate::complexity::FindingView> {
    if preorder_ok(nodes) && fits_source(nodes, src.len() as int) {
        findings_of(nodes, src)
    } else {
        seq![]
    }
}

/// Scores every function and method of `source`, given its parsed nodes in
/// preorder.
pub fn analyze_nodes(nodes: Vec<SyntaxNode>, source: &str) -> (findings: Vec<Finding>)
    ensures
        findings_view(findings@) == findings_for(nodes_view(nodes@), vstd::utf8::encode_utf8(
            source@,
        )),
{
    let src = source.as_bytes();
    match SyntaxTree::from_nodes(nodes) {
        Some(tree) => {
            if tree.fits_source(src.len()) {
                analyze(&tree, src)
            } else {
                Vec::new()
            }
        },
        None => Vec::new(),
    }
}

/// Returns no findings for input tree-sitter cannot parse at all. Partial
/// parses still score: tree-sitter recovers from syntax errors, and a file
/// mid-edit should not blank the report.
pub fn analyze_source(parser: &mut PhpParser, source: &str) -> (findings: Vec<Finding>)
    ensures
        findings_view(findings@) == findings_for(php_syntax(source@), vstd::utf8::encode_utf8(source@)),
{
    match parse_nodes(parser, source) {
        Some(nodes) => analyze_nodes(nodes, source),
        None => Vec::new(),
    }
}

} // verus!
