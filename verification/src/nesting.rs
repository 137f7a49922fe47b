//! Nesting depth. A sequence of edges is the traversal of a tree exactly when
//! it is well nested: it ends at depth zero and nowhere before. This is what
//! lets a traversal be checked and walked in one pass, with a counter.

use crate::traversal::{
    edges_of, edges_of_forest, lemma_edges_of_forest_front, tree_of_edges, EdgeModel,
};
use crate::tree::{preorder, preorder_forest, TreeModel};
use vstd::prelude::*;

verus! {

/// What an edge does to the depth: a start edge goes one level down, an end
/// edge one level up.
pub open spec fn step(edge: EdgeModel) -> int {
    match edge {
        EdgeModel::Start(_) => 1,
        EdgeModel::End => -1,
    }
}

/// The depth after `edges`: the number of start edges less the number of end
/// edges.
pub open spec fn depth(edges: Seq<EdgeModel>) -> int
    decreases edges.len(),
{
    if edges.len() == 0 {
        0
    } else {
        depth(edges.drop_last()) + step(edges.last())
    }
}

/// The number of start edges among `edges`.
pub open spec fn starts_in(edges: Seq<EdgeModel>) -> nat
    decreases edges.len(),
{
    if edges.len() == 0 {
        0
    } else if edges.last() is Start {
        starts_in(edges.drop_last()) + 1
    } else {
        starts_in(edges.drop_last())
    }
}

/// `edges` is not empty, ends at depth zero, and is above depth zero after
/// every edge but the last.
pub open spec fn well_nested(edges: Seq<EdgeModel>) -> bool {
    &&& edges.len() > 0
    &&& depth(edges) == 0
    &&& forall|k: int| 0 < k < edges.len() ==> depth(#[trigger] edges.take(k)) > 0
}

/// `edges` ends at depth zero and never goes below it.
pub open spec fn balanced(edges: Seq<EdgeModel>) -> bool {
    &&& depth(edges) == 0
    &&& forall|k: int| 0 <= k <= edges.len() ==> depth(#[trigger] edges.take(k)) >= 0
}

/// A single edge has its step as depth, and counts as a start edge if it is one.
pub proof fn lemma_single_edge(edge: EdgeModel)
    ensures
        depth(seq![edge]) == step(edge),
        starts_in(seq![edge]) == if edge is Start {
            1nat
        } else {
            0nat
        },
{
    let none = Seq::<EdgeModel>::empty();
    assert(seq![edge].drop_last() =~= none);
    assert(depth(none) == 0);
    assert(starts_in(none) == 0);
}

/// The depth after two sequences is the sum of their depths.
pub proof fn lemma_depth_concat(front: Seq<EdgeModel>, back: Seq<EdgeModel>)
    ensures
        depth(front + back) == depth(front) + depth(back),
    decreases back.len(),
{
    if back.len() > 0 {
        lemma_depth_concat(front, back.drop_last());
        assert((front + back).drop_last() =~= front + back.drop_last());
    }
}

/// One more edge changes the depth by its step.
pub proof fn lemma_depth_step(edges: Seq<EdgeModel>, k: int)
    requires
        0 <= k < edges.len(),
    ensures
        depth(edges.take(k + 1)) == depth(edges.take(k)) + step(edges[k]),
{
    assert(edges.take(k + 1).drop_last() =~= edges.take(k));
}

/// The depth is at most the number of edges.
pub proof fn lemma_depth_bound(edges: Seq<EdgeModel>)
    ensures
        depth(edges) <= edges.len(),
    decreases edges.len(),
{
    if edges.len() > 0 {
        lemma_depth_bound(edges.drop_last());
    }
}

/// The start edges of two sequences add up.
pub proof fn lemma_starts_concat(front: Seq<EdgeModel>, back: Seq<EdgeModel>)
    ensures
        starts_in(front + back) == starts_in(front) + starts_in(back),
    decreases back.len(),
{
    if back.len() > 0 {
        lemma_starts_concat(front, back.drop_last());
        assert((front + back).drop_last() =~= front + back.drop_last());
    }
}

/// One more edge adds one to the start edges if it is a start edge.
pub proof fn lemma_starts_step(edges: Seq<EdgeModel>, k: int)
    requires
        0 <= k < edges.len(),
    ensures
        starts_in(edges.take(k + 1)) == starts_in(edges.take(k)) + if edges[k] is Start {
            1nat
        } else {
            0nat
        },
{
    assert(edges.take(k + 1).drop_last() =~= edges.take(k));
}

/// The traversal of a tree is well nested.
pub proof fn lemma_traversal_is_well_nested(tree: TreeModel)
    ensures
        well_nested(edges_of(tree)),
    decreases tree,
{
    let start = seq![EdgeModel::Start(tree.value)];
    let inner = edges_of_forest(tree.children);
    let edges = edges_of(tree);
    lemma_forest_is_balanced(tree.children);
    lemma_single_edge(start[0]);
    lemma_single_edge(EdgeModel::End);
    lemma_depth_concat(start, inner);
    lemma_depth_concat(start + inner, seq![EdgeModel::End]);
    assert forall|k: int| 0 < k < edges.len() implies depth(#[trigger] edges.take(k)) > 0 by {
        assert(edges.take(k) =~= start + inner.take(k - 1));
        lemma_depth_concat(start, inner.take(k - 1));
    }
}

/// The traversal of a forest is balanced.
pub proof fn lemma_forest_is_balanced(forest: Seq<TreeModel>)
    ensures
        balanced(edges_of_forest(forest)),
    decreases forest,
{
    let edges = edges_of_forest(forest);
    if forest.len() > 0 {
        let front = edges_of_forest(forest.drop_last());
        let last = edges_of(forest.last());
        lemma_forest_is_balanced(forest.drop_last());
        lemma_traversal_is_well_nested(forest.last());
        lemma_depth_concat(front, last);
        assert forall|k: int| 0 <= k <= edges.len() implies depth(#[trigger] edges.take(k))
            >= 0 by {
            if k <= front.len() {
                assert(edges.take(k) =~= front.take(k));
            } else {
                let j = k - front.len();
                assert(edges.take(k) =~= front + last.take(j));
                lemma_depth_concat(front, last.take(j));
                if j == last.len() {
                    assert(last.take(j) =~= last);
                }
            }
        }
    }
}

/// In a balanced sequence, the first place at or after `from` where the depth
/// is back at zero.
proof fn lemma_first_return(edges: Seq<EdgeModel>, from: int) -> (k: int)
    requires
        balanced(edges),
        1 <= from <= edges.len(),
        forall|j: int| 0 < j < from ==> depth(#[trigger] edges.take(j)) > 0,
    ensures
        from <= k <= edges.len(),
        depth(edges.take(k)) == 0,
        forall|j: int| 0 < j < k ==> depth(#[trigger] edges.take(j)) > 0,
    decreases edges.len() - from,
{
    if depth(edges.take(from)) == 0 {
        from
    } else {
        assert(edges.take(edges.len() as int) =~= edges);
        lemma_first_return(edges, from + 1)
    }
}

/// A well-nested sequence is the traversal of a tree: the one returned.
pub proof fn lemma_well_nested_is_traversal(edges: Seq<EdgeModel>) -> (tree: TreeModel)
    requires
        well_nested(edges),
    ensures
        edges_of(tree) == edges,
    decreases edges.len(), 0int,
{
    let n = edges.len() as int;
    lemma_depth_step(edges, 0);
    let start = seq![edges[0]];
    let inner = edges.subrange(1, n - 1);
    lemma_single_edge(edges[0]);
    assert forall|k: int| 0 <= k <= inner.len() implies depth(#[trigger] inner.take(k)) >= 0 by {
        assert(edges.take(1 + k) =~= start + inner.take(k));
        lemma_depth_concat(start, inner.take(k));
    }
    assert(depth(inner) == 0) by {
        assert(edges.take(n - 1) =~= start + inner);
        lemma_depth_concat(start, inner);
    }
    let children = lemma_balanced_is_forest(inner);
    TreeModel { value: edges[0]->Start_0, children }
}

/// A balanced sequence is the traversal of a forest: the one returned.
pub proof fn lemma_balanced_is_forest(edges: Seq<EdgeModel>) -> (forest: Seq<TreeModel>)
    requires
        balanced(edges),
    ensures
        edges_of_forest(forest) == edges,
    decreases edges.len(), 1int,
{
    if edges.len() == 0 {
        Seq::empty()
    } else {
        let k = lemma_first_return(edges, 1);
        let head = edges.take(k);
        let rest = edges.skip(k);
        assert(edges =~= head + rest);
        assert forall|j: int| 0 < j < head.len() implies depth(#[trigger] head.take(j)) > 0 by {
            assert(head.take(j) =~= edges.take(j));
        }
        let first = lemma_well_nested_is_traversal(head);
        lemma_depth_concat(head, rest);
        assert forall|j: int| 0 <= j <= rest.len() implies depth(#[trigger] rest.take(j))
            >= 0 by {
            assert(edges.take(k + j) =~= head + rest.take(j));
            lemma_depth_concat(head, rest.take(j));
        }
        let others = lemma_balanced_is_forest(rest);
        let forest = seq![first] + others;
        assert(forest.skip(1) =~= others);
        lemma_edges_of_forest_front(forest);
        forest
    }
}

/// The traversals of trees are the well-nested sequences, and no others.
pub proof fn lemma_traversals_are_well_nested(edges: Seq<EdgeModel>)
    ensures
        tree_of_edges(edges) is Some <==> well_nested(edges),
{
    if well_nested(edges) {
        lemma_well_nested_is_traversal(edges);
    }
    if tree_of_edges(edges) is Some {
        lemma_traversal_is_well_nested(tree_of_edges(edges).unwrap());
    }
}

/// A traversal has one start edge for each node of the tree.
pub proof fn lemma_starts_in_traversal(tree: TreeModel)
    ensures
        starts_in(edges_of(tree)) == preorder(tree).len(),
    decreases tree,
{
    let start = seq![EdgeModel::Start(tree.value)];
    let end = seq![EdgeModel::End];
    lemma_starts_in_forest(tree.children);
    lemma_single_edge(start[0]);
    lemma_single_edge(EdgeModel::End);
    lemma_starts_concat(start, edges_of_forest(tree.children));
    lemma_starts_concat(start + edges_of_forest(tree.children), end);
}

/// The traversal of a forest has one start edge for each node of its trees.
pub proof fn lemma_starts_in_forest(forest: Seq<TreeModel>)
    ensures
        starts_in(edges_of_forest(forest)) == preorder_forest(forest).len(),
    decreases forest,
{
    if forest.len() > 0 {
        lemma_starts_in_forest(forest.drop_last());
        lemma_starts_in_traversal(forest.last());
        lemma_starts_concat(edges_of_forest(forest.drop_last()), edges_of(forest.last()));
    }
}

/// Where a start edge stands in the traversal of a tree, the traversal of
/// one of its nodes begins: of the node whose place in pre-order is the
/// number of start edges before that one.
pub proof fn lemma_subtree_at_start(tree: TreeModel, at: int)
    requires
        0 <= at < edges_of(tree).len(),
        edges_of(tree)[at] is Start,
    ensures
        starts_in(edges_of(tree).take(at)) < preorder(tree).len(),
        edges_of(preorder(tree)[starts_in(edges_of(tree).take(at)) as int]).is_prefix_of(
            edges_of(tree).skip(at),
        ),
    decreases tree,
{
    let start = seq![EdgeModel::Start(tree.value)];
    let inner = edges_of_forest(tree.children);
    if at > 0 {
        // the start edge stands in the traversal of the children, one place
        // further to the left, and the root is one more node before it
        lemma_subtree_in_forest(tree.children, at - 1);
        assert(edges_of(tree).take(at) =~= start + inner.take(at - 1));
        lemma_starts_concat(start, inner.take(at - 1));
        lemma_single_edge(start[0]);
    }
}

/// The same for the traversal of a forest.
pub proof fn lemma_subtree_in_forest(forest: Seq<TreeModel>, at: int)
    requires
        0 <= at < edges_of_forest(forest).len(),
        edges_of_forest(forest)[at] is Start,
    ensures
        starts_in(edges_of_forest(forest).take(at)) < preorder_forest(forest).len(),
        edges_of(
            preorder_forest(forest)[starts_in(edges_of_forest(forest).take(at)) as int],
        ).is_prefix_of(edges_of_forest(forest).skip(at)),
    decreases forest,
{
    let edges = edges_of_forest(forest);
    let front = edges_of_forest(forest.drop_last());
    let last = edges_of(forest.last());
    if at < front.len() {
        // in one of the trees before the last
        lemma_subtree_in_forest(forest.drop_last(), at);
        assert(edges.take(at) =~= front.take(at));
    } else {
        // in the last tree, after all nodes of the trees before it
        let within = at - front.len();
        lemma_subtree_at_start(forest.last(), within);
        assert(edges.take(at) =~= front + last.take(within));
        lemma_starts_concat(front, last.take(within));
        lemma_starts_in_forest(forest.drop_last());
    }
}

} // verus!
