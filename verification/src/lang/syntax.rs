//! Syntax trees of JavaScript and TypeScript files, from tree-sitter, and
//! the same tree as a list of nodes that verified code reads.
use vstd::prelude::*;
use crate::lang::extract::{grammar, grammar_of, unwrap_tag_types, Grammar};

verus! {

#[verifier::external_type_specification]
#[verifier::external_body]
pub struct ExLanguage(tree_sitter::Language);

/// The tree-sitter language of a grammar, from tree-sitter-typescript and
/// tree-sitter-javascript.
#[verifier::external_body]
pub(crate) fn language_of(g: Grammar) -> tree_sitter::Language {
    match g {
        Grammar::TypeScript => tree_sitter_typescript::LANGUAGE_TYPESCRIPT.into(),
        Grammar::Tsx => tree_sitter_typescript::LANGUAGE_TSX.into(),
        Grammar::JavaScript => tree_sitter_javascript::LANGUAGE.into(),
    }
}

/// One node of a syntax tree, as a walk from the root meets it.
#[derive(Debug)]
pub struct SyntaxNode {
    pub kind: String,
    /// Named, as opposed to a token such as a keyword or a bracket.
    pub named: bool,
    /// The node is or holds a syntax error.
    pub error: bool,
    /// The field of its parent it fills, if any.
    pub field: Option<String>,
    /// Where its parent is in the list.
    pub parent: Option<usize>,
    pub start_row: usize,
    pub end_row: usize,
    pub start_byte: usize,
    pub end_byte: usize,
}

/// A node as plain values: kind, named, error, field, parent, start row,
/// end row, start byte, end byte.
pub type NodeView = (Seq<char>, bool, bool, Option<Seq<char>>, Option<usize>, usize, usize, usize, usize);

pub open spec fn node_view(n: SyntaxNode) -> NodeView {
    (n.kind@, n.named, n.error, match n.field {
        Some(f) => Some(f@),
        None => None,
    }, n.parent, n.start_row, n.end_row, n.start_byte, n.end_byte)
}

pub open spec fn node_views(ns: Seq<SyntaxNode>) -> Seq<NodeView> {
    ns.map_values(|n: SyntaxNode| node_view(n))
}

/// The nodes of the syntax tree tree-sitter parses from `source` with the
/// grammar, walked from the root; none when it gives no tree.
pub uninterp spec fn syntax_nodes(g: Grammar, source: Seq<u8>) -> Option<Seq<NodeView>>;

/// A node list as a walk from the root gives it: the root first, every
/// other node after its parent, and each node's rows in order.
pub open spec fn listed(ns: Seq<SyntaxNode>) -> bool {
    &&& ns.len() >= 1
    &&& ns[0].parent is None
    &&& forall|i: int| 1 <= i < ns.len() ==> ((#[trigger] ns[i]).parent matches Some(p) && p < i)
    &&& forall|i: int| 0 <= i < ns.len() ==> (#[trigger] ns[i]).start_row <= ns[i].end_row
}

/// `tree_sitter::Parser::parse` of `source` with the grammar's language,
/// and the tree's nodes in the order a walk from the root meets them
/// (parents before children, siblings left to right). The contract names
/// the list; beside the name it claims only what the walk and tree-sitter's
/// nodes give: the root first and alone without a parent, each other node
/// after its parent, and a start row no later than the end row.
#[verifier::external_body]
fn parse_nodes(g: Grammar, source: &[u8]) -> (r: Option<Vec<SyntaxNode>>)
    ensures
        match r {
            Some(ns) => syntax_nodes(g, source@) == Some(node_views(ns@)) && listed(ns@),
            None => syntax_nodes(g, source@) is None,
        },
{
    let mut p = tree_sitter::Parser::new();
    p.set_language(&language_of(g)).ok()?;
    let tree = p.parse(source, None)?;
    let (mut out, mut up, mut c) = (Vec::new(), Vec::new(), tree.walk());
    loop {
        out.push(node_of(c.node(), c.field_name(), up.last().copied()));
        if c.goto_first_child() { up.push(out.len() - 1); continue; }
        while !c.goto_next_sibling() { if !c.goto_parent() { return Some(out); } up.pop(); }
    }
}

#[verifier::external_type_specification]
#[verifier::external_body]
pub struct ExNode<'a>(tree_sitter::Node<'a>);

/// A tree-sitter node as plain values: `kind`, `is_named`, `has_error`,
/// the field it fills, its parent's place, and its start and end rows and
/// bytes.
#[verifier::external_body]
fn node_of(n: tree_sitter::Node, field: Option<&str>, parent: Option<usize>) -> SyntaxNode {
    SyntaxNode { kind: n.kind().into(), named: n.is_named(), error: n.has_error(), field: field.map(Into::into), parent,
        start_row: n.start_position().row, end_row: n.end_position().row, start_byte: n.start_byte(), end_byte: n.end_byte() }
}

/// The bytes a file is parsed from: a TypeScript file's with the type
/// arguments of its template tags blanked.
pub open spec fn parsed_bytes(g: Grammar, source: Seq<u8>) -> Seq<u8> {
    if g == Grammar::JavaScript { source } else { crate::lang::extract::unwrapped(source) }
}

/// The nodes of a JavaScript or TypeScript file's syntax tree, chosen by
/// extension; none for any other file or one tree-sitter can't take.
pub fn parse(rel: &str, source: &[u8]) -> (r: Option<Vec<SyntaxNode>>)
    ensures
        match grammar_of(rel@) {
            None => r is None,
            Some(g) => match r {
                Some(ns) => syntax_nodes(g, parsed_bytes(g, source@)) == Some(node_views(ns@)) && listed(ns@),
                None => syntax_nodes(g, parsed_bytes(g, source@)) is None,
            },
        },
{
    let g = match grammar(rel) {
        Some(g) => g,
        None => return None,
    };
    match g {
        Grammar::JavaScript => parse_nodes(g, source),
        _ => {
            let unwrapped = unwrap_tag_types(source);
            parse_nodes(g, unwrapped.as_slice())
        },
    }
}

} // verus!
