//! The document tree as a mathematical value, and what its nodes stand for.

use vstd::prelude::*;

verus! {

/// What a node of the document tree stands for.
#[derive(Debug, PartialEq, Eq)]
pub enum NodeValue {
    /// A run of literal text.
    Text(String),
    /// A hyperlink; `url` is its target exactly as written in the document.
    Link { url: String },
    /// Any other node: a paragraph, an emphasis, a list item, an image, a
    /// code span and the like. Whatever such a node holds, it adds nothing
    /// to the text; only the text nodes below it do.
    Other,
}

impl Clone for NodeValue {
    fn clone(&self) -> (copy: Self)
        ensures
            copy == *self,
    {
        match self {
            NodeValue::Text(text) => NodeValue::Text(text.clone()),
            NodeValue::Link { url } => NodeValue::Link { url: url.clone() },
            NodeValue::Other => NodeValue::Other,
        }
    }
}

/// The mathematical value of a [`NodeValue`].
pub enum ValueModel {
    Text(Seq<char>),
    Link { url: Seq<char> },
    Other,
}

impl View for NodeValue {
    type V = ValueModel;

    open spec fn view(&self) -> ValueModel {
        match self {
            NodeValue::Text(text) => ValueModel::Text(text@),
            NodeValue::Link { url } => ValueModel::Link { url: url@ },
            NodeValue::Other => ValueModel::Other,
        }
    }
}

/// A document tree as a mathematical value: a node with its value and, in
/// order, the subtrees of its children.
pub struct TreeModel {
    pub value: ValueModel,
    pub children: Seq<TreeModel>,
}

/// The nodes of a tree in depth-first pre-order: a node comes before its
/// descendants, and the subtrees of its children follow each other from left
/// to right. Each node stands for the subtree below it.
pub open spec fn preorder(tree: TreeModel) -> Seq<TreeModel>
    decreases tree,
{
    seq![tree] + preorder_forest(tree.children)
}

/// The pre-orders of the trees of a forest, one after the other.
pub open spec fn preorder_forest(forest: Seq<TreeModel>) -> Seq<TreeModel>
    decreases forest,
{
    if forest.len() == 0 {
        Seq::empty()
    } else {
        preorder_forest(forest.drop_last()) + preorder(forest.last())
    }
}

} // verus!
