//! What holds of text accumulation and link extraction on every tree.

use crate::parser::{
    is_link, joined_text, lemma_joined_text_push, lemma_links_among_push, link_nodes, link_record,
    links_among, links_in, own_text, text_of, LinkModel,
};
use crate::tree::{preorder, preorder_forest, TreeModel};
use vstd::prelude::*;
use vstd::seq_lib::lemma_flatten_concat;

verus! {

/// The text of two runs of nodes, one after the other, is the text of the
/// first followed by the text of the second.
pub proof fn lemma_joined_text_concat(front: Seq<TreeModel>, back: Seq<TreeModel>)
    ensures
        joined_text(front + back) == joined_text(front) + joined_text(back),
{
    let front_texts = front.map_values(|node: TreeModel| own_text(node));
    let back_texts = back.map_values(|node: TreeModel| own_text(node));
    assert((front + back).map_values(|node: TreeModel| own_text(node)) =~= front_texts
        + back_texts);
    lemma_flatten_concat(front_texts, back_texts);
}

/// The records of two runs of nodes, one after the other, are the records
/// of the first followed by the records of the second.
pub proof fn lemma_links_among_concat(
    front: Seq<TreeModel>,
    back: Seq<TreeModel>,
    source: Seq<char>,
)
    ensures
        links_among(front + back, source) == links_among(front, source) + links_among(
            back,
            source,
        ),
    decreases back.len(),
{
    if back.len() > 0 {
        let shorter = back.drop_last();
        lemma_links_among_concat(front, shorter, source);
        assert(front + back =~= (front + shorter).push(back.last()));
        lemma_links_among_push(front + shorter, back.last(), source);
    }
}

/// The text of the children of a node, child by child, is the text of all
/// nodes below it.
pub proof fn lemma_text_of_forest(forest: Seq<TreeModel>)
    ensures
        joined_text(preorder_forest(forest)) == forest.map_values(
            |child: TreeModel| text_of(child),
        ).flatten(),
    decreases forest.len(),
{
    let texts = forest.map_values(|child: TreeModel| text_of(child));
    if forest.len() > 0 {
        let front = forest.drop_last();
        lemma_text_of_forest(front);
        lemma_joined_text_concat(preorder_forest(front), preorder(forest.last()));
        let front_texts = front.map_values(|child: TreeModel| text_of(child));
        assert(texts =~= front_texts.push(text_of(forest.last())));
        front_texts.lemma_flatten_push(text_of(forest.last()));
    }
}

/// Text accumulation, node by node: the text of a subtree is the own text of
/// its root, which is empty unless the root is a text node, followed by the
/// texts of the root's children from left to right, with nothing in between.
pub proof fn lemma_text_of_node(tree: TreeModel)
    ensures
        text_of(tree) == own_text(tree) + tree.children.map_values(
            |child: TreeModel| text_of(child),
        ).flatten(),
{
    lemma_joined_text_concat(seq![tree], preorder_forest(tree.children));
    lemma_joined_text_push(Seq::empty(), tree);
    lemma_text_of_forest(tree.children);
}

/// The records of the children of a node, child by child, are the records of
/// all nodes below it.
pub proof fn lemma_links_in_forest(forest: Seq<TreeModel>, source: Seq<char>)
    ensures
        links_among(preorder_forest(forest), source) == forest.map_values(
            |child: TreeModel| links_in(child, source),
        ).flatten(),
    decreases forest.len(),
{
    let records = forest.map_values(|child: TreeModel| links_in(child, source));
    if forest.len() > 0 {
        let front = forest.drop_last();
        lemma_links_in_forest(front, source);
        lemma_links_among_concat(preorder_forest(front), preorder(forest.last()), source);
        let front_records = front.map_values(|child: TreeModel| links_in(child, source));
        assert(records =~= front_records.push(links_in(forest.last(), source)));
        front_records.lemma_flatten_push(links_in(forest.last(), source));
    }
}

/// Link extraction, node by node: the records of a subtree are the record of
/// its root, if the root is a link node, followed by the records of the
/// root's children from left to right. So a link below another link has a
/// record of its own, after that of the outer link.
pub proof fn lemma_links_in_node(tree: TreeModel, source: Seq<char>)
    ensures
        links_in(tree, source) == links_among(seq![tree], source) + tree.children.map_values(
            |child: TreeModel| links_in(child, source),
        ).flatten(),
        links_among(seq![tree], source) == match link_record(tree, source) {
            Some(record) => seq![record],
            None => Seq::empty(),
        },
{
    lemma_links_among_concat(seq![tree], preorder_forest(tree.children), source);
    lemma_links_in_forest(tree.children, source);
    lemma_links_among_push(Seq::empty(), tree, source);
}

/// The records of `nodes` are those of the link nodes among them, one for
/// one and in the same order.
pub proof fn lemma_links_among_by_filter(nodes: Seq<TreeModel>, source: Seq<char>)
    ensures
        links_among(nodes, source) == nodes.filter(|node: TreeModel| is_link(node)).map_values(
            |node: TreeModel| link_record(node, source).unwrap(),
        ),
    decreases nodes.len(),
{
    reveal(Seq::filter);
    if nodes.len() > 0 {
        lemma_links_among_by_filter(nodes.drop_last(), source);
    }
}

/// Order: the records of a tree are those of its link nodes taken in
/// pre-order, one record for each link node and none for any other node. The
/// record at place `i` has the target and the text of the link node at
/// place `i`.
pub proof fn lemma_links_follow_preorder(tree: TreeModel, source: Seq<char>)
    ensures
        links_in(tree, source).len() == link_nodes(tree).len(),
        forall|i: int|
            0 <= i < link_nodes(tree).len() ==> link_record(#[trigger] link_nodes(tree)[i], source)
                == Some(links_in(tree, source)[i]),
{
    lemma_links_among_by_filter(preorder(tree), source);
}

/// A tree without link nodes has no records.
pub proof fn lemma_no_link_no_record(tree: TreeModel, source: Seq<char>)
    requires
        forall|i: int| 0 <= i < preorder(tree).len() ==> !is_link(#[trigger] preorder(tree)[i]),
    ensures
        links_in(tree, source) == Seq::<LinkModel>::empty(),
{
    preorder(tree).lemma_all_neg_filter_empty(|node: TreeModel| is_link(node));
    lemma_links_follow_preorder(tree, source);
}

/// Every record names the source that was handed in, unchanged.
pub proof fn lemma_source_file(tree: TreeModel, source: Seq<char>)
    ensures
        forall|i: int|
            0 <= i < links_in(tree, source).len() ==> (#[trigger] links_in(
                tree,
                source,
            )[i]).source_file == source,
{
    lemma_links_follow_preorder(tree, source);
    assert forall|i: int| 0 <= i < links_in(tree, source).len() implies (#[trigger] links_in(
        tree,
        source,
    )[i]).source_file == source by {
        assert(link_record(link_nodes(tree)[i], source) == Some(links_in(tree, source)[i]));
    }
}

} // verus!
