//! The syntax tree that the `tree-sitter` parser makes of a BibTeX file.
//!
//! Nothing in this file is proved: it declares the parser's tree and states
//! what the parser's functions return. A tree is a collection of nodes; what
//! it holds, and which tree a text gives, is named here, not described, and
//! the nodes are handed out as plain values.

use vstd::prelude::*;
use crate::bibtex::{Location, SyntaxNode};

verus! {

/// A syntax tree.
#[verifier::external_type_specification]
#[verifier::external_body]
pub struct ExTree(tree_sitter::Tree);

/// The nodes of a tree, the root first and the others in the order of the
/// text, each node before what stands below it. Of each node: its kind as
/// the grammar names it, the bytes at which it starts and before which it
/// ends, the row and the column at which it starts, and its depth below the
/// root.
pub uninterp spec fn nodes_of(tree: tree_sitter::Tree) -> Seq<
    (Seq<char>, usize, usize, usize, usize, usize),
>;

/// The nodes of the tree that the parser makes of a text as BibTeX, as
/// [`nodes_of`] gives them; nothing where the parser makes no tree.
pub uninterp spec fn parsed_nodes(text: Seq<char>) -> Option<
    Seq<(Seq<char>, usize, usize, usize, usize, usize)>,
>;

/// `Parser::parse` of a parser made by `Parser::new` and given, by
/// `Parser::set_language`, the grammar of `tree_sitter_bibtex::language`: the
/// syntax tree of the text, if the parser took the grammar and made a tree.
/// The tree depends on the text alone; its nodes are named
/// [`parsed_nodes`], not described.
#[verifier::external_body]
pub(crate) fn parse_bibtex(text: &str) -> (r: Option<tree_sitter::Tree>)
    ensures
        match r {
            Some(tree) => parsed_nodes(text@) == Some(nodes_of(tree)),
            None => parsed_nodes(text@) is None,
        },
{
    let mut parser = tree_sitter::Parser::new();
    parser.set_language(&tree_sitter_bibtex::language()).ok()?;
    parser.parse(text, None)
}

/// `Node::descendant_count` of the root that `Tree::root_node` gives: the
/// number of nodes of the tree, the root included.
#[verifier::external_body]
pub(crate) fn tree_len(tree: &tree_sitter::Tree) -> (r: usize)
    ensures
        r == nodes_of(*tree).len(),
{
    tree.root_node().descendant_count()
}

/// `TreeCursor::goto_descendant` on the cursor that `Tree::walk` gives: the
/// node of the tree at an index that the tree has, handed out as a plain
/// value made of `Node::kind`, `Node::start_byte`, `Node::end_byte`,
/// `Node::start_position` and `TreeCursor::depth`.
#[verifier::external_body]
pub(crate) fn tree_node(tree: &tree_sitter::Tree, i: usize) -> (r: SyntaxNode)
    requires
        i < nodes_of(*tree).len(),
    ensures
        (r.kind@, r.loc.start_byte, r.loc.end_byte, r.loc.row, r.loc.column, r.depth) == nodes_of(
            *tree,
        )[i as int],
{
    let mut cursor = tree.walk();
    cursor.goto_descendant(i);
    let node = cursor.node();
    let start = node.start_position();
    SyntaxNode {
        kind: node.kind().to_string(),
        loc: Location {
            start_byte: node.start_byte(),
            end_byte: node.end_byte(),
            row: start.row,
            column: start.column,
        },
        depth: cursor.depth() as usize,
    }
}

} // verus!
