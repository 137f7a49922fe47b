//! Where markdown text becomes a document tree. The grammar is comrak's; this
//! module takes the syntax tree that comrak builds and keeps of each node what
//! link extraction reads: its literal text, its link target, and its place.

use crate::document::Document;
use crate::traversal::{edge_views, tree_of_edges, Edge, EdgeModel};
use crate::tree::{NodeValue, TreeModel};
use comrak::arena_tree::NodeEdge;
use comrak::nodes::NodeValue as Syntax;
use vstd::prelude::*;

verus! {

/// The traversal of the syntax tree that comrak's `parse_document` builds for
/// `text` under its default options, each node reduced to a [`NodeValue`].
/// Which edges these are for a given text is comrak's matter and is stated
/// nowhere; all that is claimed of them is that they are the traversal of
/// one tree.
pub uninterp spec fn markdown_edges(text: Seq<char>) -> Seq<EdgeModel>;

/// The document tree of a markdown text.
pub open spec fn document_tree(text: Seq<char>) -> TreeModel {
    tree_of_edges(markdown_edges(text)).unwrap()
}

/// Calls comrak's `parse_document` on `text` with `Options::default()`, then
/// walks the tree with `Node::traverse` from the root and writes each edge
/// down: a start edge with the node's text for `Text`, with the `url` field
/// for `Link`, and with `Other` for every other kind of node; an end edge as
/// it is.
///
/// Trusted, not proved: that the parser gives the same tree for the same
/// text, which is what the name `markdown_edges` claims; and that the edges
/// are the traversal of one tree, as `traverse` yields a node's start edge,
/// then the edges of its children in order, then its end edge, and stops
/// after the end edge of the root.
#[verifier::external_body]
fn traverse_markdown(text: &str) -> (edges: Vec<Edge>)
    ensures
        edge_views(edges@) == markdown_edges(text@),
        tree_of_edges(edge_views(edges@)) is Some,
{
    let arena = comrak::Arena::new();
    let root = comrak::parse_document(&arena, text, &comrak::Options::default());
    root.traverse().map(|edge| match edge {
        NodeEdge::Start(node) => Edge::Start(match &node.data.borrow().value {
            Syntax::Text(text) => NodeValue::Text(text.clone()),
            Syntax::Link(link) => NodeValue::Link { url: link.url.clone() },
            _ => NodeValue::Other,
        }),
        NodeEdge::End(_) => Edge::End,
    }).collect()
}

/// Parses markdown text into its document tree.
pub fn parse_markdown(text: &str) -> (document: Document)
    ensures
        document@ == document_tree(text@),
{
    match Document::from_edges(traverse_markdown(text)) {
        Some(document) => document,
        None => unreached(),
    }
}

} // verus!
