//! The document tree as it is held in memory: the traversal of the tree, kept
//! flat, and nodes as places in it. Nothing here recurses, so the depth of a
//! document is bounded by memory alone.

use crate::nesting::{
    depth, lemma_depth_bound, lemma_depth_step, lemma_starts_in_traversal, lemma_starts_step,
    lemma_subtree_at_start, lemma_traversal_is_well_nested, lemma_traversals_are_well_nested,
    starts_in, well_nested,
};
use crate::traversal::{
    edge_views, edges_of, lemma_edges_of_shape, lemma_edges_prefix_unique, tree_of_edges, Edge,
    EdgeModel,
};
use crate::tree::{preorder, NodeValue, TreeModel};
use vstd::prelude::*;

verus! {

/// A document tree, held as its traversal. Its value is a [`TreeModel`].
#[derive(Debug, PartialEq, Eq)]
pub struct Document {
    edges: Vec<Edge>,
}

/// The tree whose traversal begins at `at` in `edges`.
spec fn subtree_at(edges: Seq<EdgeModel>, at: int) -> TreeModel {
    choose|tree: TreeModel| edges_of(tree).is_prefix_of(edges.skip(at))
}

impl Document {
    /// The edges are the traversal of a tree.
    #[verifier::type_invariant]
    spec fn is_tree(&self) -> bool {
        tree_of_edges(edge_views(self.edges@)) is Some
    }

    /// Takes `edges` as a document if they are the traversal of a tree, which
    /// is then the document's value. Gives `None` if they are not: if there
    /// are none, if an end edge has no start edge before it, if a start edge
    /// has no end edge after it, or if anything follows the end of the root.
    pub fn from_edges(edges: Vec<Edge>) -> (document: Option<Document>)
        ensures
            match document {
                Some(tree) => tree_of_edges(edge_views(edges@)) == Some(tree@),
                None => tree_of_edges(edge_views(edges@)) is None,
            },
    {
        let ghost all = edge_views(edges@);
        // the nodes entered and not yet left
        let mut open: usize = 0;
        let mut at: usize = 0;
        while at < edges.len()
            invariant
                at <= edges.len(),
                all == edge_views(edges@),
                open == depth(all.take(at as int)),
                forall|k: int| 0 < k <= at ==> depth(#[trigger] all.take(k)) > 0,
            decreases edges.len() - at,
        {
            proof {
                lemma_traversals_are_well_nested(all);
                lemma_depth_step(all, at as int);
                lemma_depth_bound(all.take(at as int));
            }
            match &edges[at] {
                Edge::Start(_) => {
                    open += 1;
                },
                Edge::End => {
                    if open <= 1 {
                        // the root is left here, or there is nothing to leave
                        if open == 1 && at + 1 == edges.len() {
                            return Some(Document { edges });
                        }
                        return None;
                    }
                    open -= 1;
                },
            }
            at += 1;
        }
        proof {
            lemma_traversals_are_well_nested(all);
            assert(all.take(all.len() as int) =~= all);
        }
        None
    }

    /// The traversal of the tree, edge by edge.
    pub fn edges(&self) -> (edges: &Vec<Edge>)
        ensures
            edge_views(edges@) == edges_of(self@),
    {
        proof {
            use_type_invariant(self);
        }
        &self.edges
    }

    /// The root of the tree.
    pub fn root(&self) -> (root: Node<'_>)
        ensures
            root@ == self@,
    {
        proof {
            use_type_invariant(self);
            let all = edge_views(self.edges@);
            let tree = tree_of_edges(all).unwrap();
            assert(all.skip(0) =~= all);
            lemma_edges_prefix_unique(subtree_at(all, 0), tree, all);
        }
        Node { document: self, start: 0 }
    }
}

impl View for Document {
    type V = TreeModel;

    closed spec fn view(&self) -> TreeModel {
        tree_of_edges(edge_views(self.edges@)).unwrap()
    }
}

/// A node of a document, together with the subtree below it: a handle that
/// is cheap to copy and borrows the document. Its value is the
/// [`TreeModel`] of that subtree.
#[derive(Debug, Clone, Copy)]
pub struct Node<'a> {
    document: &'a Document,
    start: usize,
}

impl<'a> Node<'a> {
    /// The node is a place in its document where the traversal of a tree
    /// begins: the place of a start edge.
    #[verifier::type_invariant]
    spec fn is_node(&self) -> bool {
        &&& self.start < self.document.edges@.len()
        &&& exists|tree: TreeModel| #[trigger]
            edges_of(tree).is_prefix_of(edge_views(self.document.edges@).skip(self.start as int))
    }

    /// What this node stands for.
    pub fn value(&self) -> (value: &'a NodeValue)
        ensures
            value@ == self@.value,
    {
        proof {
            use_type_invariant(self);
            lemma_edges_of_shape(self@);
        }
        match &self.document.edges[self.start] {
            Edge::Start(value) => value,
            Edge::End => unreached(),
        }
    }

    /// This node and all nodes below it, in depth-first pre-order.
    pub fn descendants(&self) -> (nodes: Vec<Node<'a>>)
        ensures
            node_views(nodes@) == preorder(self@),
    {
        let ghost all = edge_views(self.document.edges@);
        let ghost tree = self@;
        let ghost own = edges_of(tree);
        proof {
            use_type_invariant(self);
            lemma_traversal_is_well_nested(tree);
            lemma_starts_in_traversal(tree);
            assert(own.take(own.len() as int) =~= own);
            assert(all.len() == self.document.edges.len());
        }
        let mut nodes: Vec<Node<'a>> = Vec::new();
        let mut at: usize = self.start;
        // the nodes entered and not yet left; back at zero when this node is left
        let mut open: usize = 0;
        while at == self.start || open > 0
            invariant
                self.start <= at <= self.start + own.len() <= all.len() <= usize::MAX,
                all == edge_views(self.document.edges@),
                tree == self@,
                own == edges_of(tree),
                own.is_prefix_of(all.skip(self.start as int)),
                well_nested(own),
                starts_in(own) == preorder(tree).len(),
                open == depth(own.take(at - self.start)),
                open == 0 ==> at == self.start || at == self.start + own.len(),
                node_views(nodes@) == preorder(tree).take(
                    starts_in(own.take(at - self.start)) as int,
                ),
            decreases self.start + own.len() - at,
        {
            let ghost within = at - self.start;
            proof {
                assert(own.take(own.len() as int) =~= own);
                lemma_depth_step(own, within);
                lemma_starts_step(own, within);
                lemma_depth_bound(own.take(within));
            }
            match &self.document.edges[at] {
                Edge::Start(_) => {
                    let ghost rank = starts_in(own.take(within)) as int;
                    proof {
                        // the node that starts here is the next one in pre-order
                        lemma_subtree_at_start(tree, within);
                        lemma_edges_prefix_unique(
                            subtree_at(all, at as int),
                            preorder(tree)[rank],
                            all.skip(at as int),
                        );
                    }
                    let node = Node { document: self.document, start: at };
                    proof {
                        assert(node_views(nodes@.push(node)) =~= node_views(nodes@).push(node@));
                    }
                    nodes.push(node);
                    open += 1;
                },
                Edge::End => {
                    open -= 1;
                },
            }
            at += 1;
        }
        nodes
    }
}

impl<'a> View for Node<'a> {
    type V = TreeModel;

    closed spec fn view(&self) -> TreeModel {
        subtree_at(edge_views(self.document.edges@), self.start as int)
    }
}

/// The values of a sequence of nodes, one for one.
pub open spec fn node_views(nodes: Seq<Node<'_>>) -> Seq<TreeModel> {
    nodes.map_values(|node: Node<'_>| node@)
}

} // verus!
