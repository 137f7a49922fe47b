//! Traversals: a document tree written out flat.
//!
//! A traversal lists the edges of a tree in document order: a start edge when
//! a node is entered, then the traversals of its children from left to right,
//! then an end edge when the node is left. A tree has one traversal, and a
//! traversal belongs to one tree.

use crate::tree::{NodeValue, TreeModel, ValueModel};
use vstd::prelude::*;

verus! {

/// One step of a traversal.
#[derive(Debug, PartialEq, Eq)]
pub enum Edge {
    /// A node is entered; its descendants follow.
    Start(NodeValue),
    /// The node entered last and not yet left is left.
    End,
}

/// The mathematical value of an [`Edge`].
pub enum EdgeModel {
    Start(ValueModel),
    End,
}

impl View for Edge {
    type V = EdgeModel;

    open spec fn view(&self) -> EdgeModel {
        match self {
            Edge::Start(value) => EdgeModel::Start(value@),
            Edge::End => EdgeModel::End,
        }
    }
}

/// The models of a sequence of edges, one for one.
pub open spec fn edge_views(edges: Seq<Edge>) -> Seq<EdgeModel> {
    edges.map_values(|edge: Edge| edge@)
}

/// The traversal of a tree.
pub open spec fn edges_of(tree: TreeModel) -> Seq<EdgeModel>
    decreases tree,
{
    seq![EdgeModel::Start(tree.value)] + edges_of_forest(tree.children) + seq![EdgeModel::End]
}

/// The traversals of the trees of a forest, one after the other.
pub open spec fn edges_of_forest(forest: Seq<TreeModel>) -> Seq<EdgeModel>
    decreases forest,
{
    if forest.len() == 0 {
        Seq::empty()
    } else {
        edges_of_forest(forest.drop_last()) + edges_of(forest.last())
    }
}

/// The tree that `edges` is the traversal of, where there is one.
pub open spec fn tree_of_edges(edges: Seq<EdgeModel>) -> Option<TreeModel> {
    if exists|tree: TreeModel| edges_of(tree) == edges {
        Some(choose|tree: TreeModel| edges_of(tree) == edges)
    } else {
        None
    }
}

/// A traversal starts with a start edge and holds at least two edges.
pub proof fn lemma_edges_of_shape(tree: TreeModel)
    ensures
        edges_of(tree).len() >= 2,
        edges_of(tree)[0] == EdgeModel::Start(tree.value),
        edges_of(tree).last() == EdgeModel::End,
{
}

/// The traversal of a forest begins with the traversal of its first tree.
pub proof fn lemma_edges_of_forest_front(forest: Seq<TreeModel>)
    requires
        forest.len() > 0,
    ensures
        edges_of_forest(forest) == edges_of(forest[0]) + edges_of_forest(forest.skip(1)),
    decreases forest.len(),
{
    if forest.len() == 1 {
        assert(edges_of_forest(forest.drop_last()) == Seq::<EdgeModel>::empty());
    } else {
        lemma_edges_of_forest_front(forest.drop_last());
        assert(forest.skip(1).drop_last() =~= forest.drop_last().skip(1));
    }
}

/// The traversal of a forest followed by the end edge of its parent.
pub open spec fn closing_edges(forest: Seq<TreeModel>) -> Seq<EdgeModel> {
    edges_of_forest(forest) + seq![EdgeModel::End]
}

/// `head + tail` begins `edges` exactly when `head` begins `edges` and `tail`
/// begins what follows `head` there.
pub proof fn lemma_prefix_concat(head: Seq<EdgeModel>, tail: Seq<EdgeModel>, edges: Seq<EdgeModel>)
    ensures
        (head + tail).is_prefix_of(edges) <==> head.is_prefix_of(edges) && tail.is_prefix_of(
            edges.skip(head.len() as int),
        ),
{
    let n = head.len() as int;
    let whole = head + tail;
    if whole.is_prefix_of(edges) {
        assert forall|i: int| 0 <= i < tail.len() implies tail[i] == edges.skip(n)[i] by {
            assert(whole[n + i] == edges.subrange(0, whole.len() as int)[n + i]);
        }
    }
}

/// Where the closed traversal of a forest begins `edges`, the first edge tells
/// whether the forest is empty: an end edge if it is, a start edge if not.
pub proof fn lemma_closing_front(forest: Seq<TreeModel>, edges: Seq<EdgeModel>)
    requires
        closing_edges(forest).is_prefix_of(edges),
    ensures
        edges.len() > 0,
        forest.len() == 0 ==> edges[0] == EdgeModel::End,
        forest.len() > 0 ==> edges[0] is Start && closing_edges(forest) == edges_of(forest[0])
            + closing_edges(forest.skip(1)),
{
    let closed = closing_edges(forest);
    assert(closed[0] == edges.subrange(0, closed.len() as int)[0]);
    if forest.len() > 0 {
        lemma_edges_of_forest_front(forest);
    }
}

/// A sequence of edges begins with the traversal of at most one tree.
pub proof fn lemma_edges_prefix_unique(first: TreeModel, second: TreeModel, edges: Seq<EdgeModel>)
    requires
        edges_of(first).is_prefix_of(edges),
        edges_of(second).is_prefix_of(edges),
    ensures
        first == second,
    decreases first,
{
    let first_start = seq![EdgeModel::Start(first.value)];
    let second_start = seq![EdgeModel::Start(second.value)];
    lemma_prefix_concat(first_start, closing_edges(first.children), edges);
    lemma_prefix_concat(second_start, closing_edges(second.children), edges);
    assert(first_start[0] == edges.subrange(0, 1)[0]);
    lemma_closing_prefix_unique(first.children, second.children, edges.skip(1));
}

/// A sequence of edges begins with the closed traversal of at most one forest.
pub proof fn lemma_closing_prefix_unique(
    first: Seq<TreeModel>,
    second: Seq<TreeModel>,
    edges: Seq<EdgeModel>,
)
    requires
        closing_edges(first).is_prefix_of(edges),
        closing_edges(second).is_prefix_of(edges),
    ensures
        first == second,
    decreases first,
{
    lemma_closing_front(first, edges);
    lemma_closing_front(second, edges);
    if first.len() > 0 {
        let n = edges_of(first[0]).len() as int;
        lemma_prefix_concat(edges_of(first[0]), closing_edges(first.skip(1)), edges);
        lemma_prefix_concat(edges_of(second[0]), closing_edges(second.skip(1)), edges);
        lemma_edges_prefix_unique(first[0], second[0], edges);
        lemma_closing_prefix_unique(first.skip(1), second.skip(1), edges.skip(n));
        assert(first =~= seq![first[0]] + first.skip(1));
    }
}

/// A tree is found again from its traversal, and no other tree has the same
/// traversal.
pub proof fn lemma_tree_of_edges_of(tree: TreeModel)
    ensures
        tree_of_edges(edges_of(tree)) == Some(tree),
{
    let edges = edges_of(tree);
    let found = choose|other: TreeModel| edges_of(other) == edges;
    lemma_edges_prefix_unique(found, tree, edges);
}

} // verus!
