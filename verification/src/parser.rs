//! Link extraction: the text accumulator and the link extractor.

use crate::document::{node_views, Node};
use crate::laws::{lemma_links_follow_preorder, lemma_source_file};
use crate::markdown::{document_tree, parse_markdown};
use crate::tree::{preorder, NodeValue, TreeModel, ValueModel};
use vstd::prelude::*;
use vstd::string::StringExecFns;

verus! {

/// A hyperlink found in a markdown document.
#[derive(Debug, PartialEq, Eq)]
pub struct Link {
    /// The plain text found inside the link, in document order.
    pub description: String,
    /// The target of the link, exactly as the document gives it.
    pub url: String,
    /// The caller's name for the document that the link was found in.
    pub source_file: String,
}

/// The mathematical value of a [`Link`].
pub struct LinkModel {
    pub description: Seq<char>,
    pub url: Seq<char>,
    pub source_file: Seq<char>,
}

impl View for Link {
    type V = LinkModel;

    open spec fn view(&self) -> LinkModel {
        LinkModel { description: self.description@, url: self.url@, source_file: self.source_file@ }
    }
}

/// The models of a sequence of links, one for one.
pub open spec fn link_views(links: Seq<Link>) -> Seq<LinkModel> {
    links.map_values(|link: Link| link@)
}

/// The characters that a node contributes by itself: its content if it is a
/// text node, nothing otherwise.
pub open spec fn own_text(node: TreeModel) -> Seq<char> {
    match node.value {
        ValueModel::Text(text) => text,
        _ => Seq::empty(),
    }
}

/// The own text of each of `nodes`, joined in order with nothing in between.
pub open spec fn joined_text(nodes: Seq<TreeModel>) -> Seq<char> {
    nodes.map_values(|node: TreeModel| own_text(node)).flatten()
}

/// The plain text of a subtree: the own text of its nodes in pre-order.
pub open spec fn text_of(tree: TreeModel) -> Seq<char> {
    joined_text(preorder(tree))
}

/// The record that a node gives rise to: one for a link node, none for any other.
pub open spec fn link_record(node: TreeModel, source: Seq<char>) -> Option<LinkModel> {
    match node.value {
        ValueModel::Link { url } => Some(
            LinkModel { description: text_of(node), url, source_file: source },
        ),
        _ => None,
    }
}

/// The records of the link nodes among `nodes`, in the order of `nodes`.
pub open spec fn links_among(nodes: Seq<TreeModel>, source: Seq<char>) -> Seq<LinkModel> {
    nodes.filter_map(|node: TreeModel| link_record(node, source))
}

/// The records of all link nodes of a tree, in pre-order.
pub open spec fn links_in(tree: TreeModel, source: Seq<char>) -> Seq<LinkModel> {
    links_among(preorder(tree), source)
}

/// Whether a node is a link node.
pub open spec fn is_link(node: TreeModel) -> bool {
    node.value is Link
}

/// The link nodes of a tree, in pre-order.
pub open spec fn link_nodes(tree: TreeModel) -> Seq<TreeModel> {
    preorder(tree).filter(|node: TreeModel| is_link(node))
}

/// One more node adds its own text at the end.
pub proof fn lemma_joined_text_push(nodes: Seq<TreeModel>, node: TreeModel)
    ensures
        joined_text(nodes.push(node)) == joined_text(nodes) + own_text(node),
{
    let texts = nodes.map_values(|node: TreeModel| own_text(node));
    assert(nodes.push(node).map_values(|node: TreeModel| own_text(node)) =~= texts.push(
        own_text(node),
    ));
    texts.lemma_flatten_push(own_text(node));
}

/// One more node adds its record, if it has one, at the end.
pub proof fn lemma_links_among_push(nodes: Seq<TreeModel>, node: TreeModel, source: Seq<char>)
    ensures
        links_among(nodes.push(node), source) == match link_record(node, source) {
            Some(record) => links_among(nodes, source).push(record),
            None => links_among(nodes, source),
        },
{
    assert(nodes.push(node).drop_last() =~= nodes);
}

/// Concatenates the text of `root` and of all its descendants, in document
/// order, with nothing in between.
pub fn extract_text(root: &Node<'_>) -> (text: String)
    ensures
        text@ == text_of(root@),
{
    let nodes = root.descendants();
    let mut text = String::new();
    let mut i: usize = 0;
    while i < nodes.len()
        invariant
            i <= nodes.len(),
            node_views(nodes@) == preorder(root@),
            text@ == joined_text(preorder(root@).take(i as int)),
        decreases nodes.len() - i,
    {
        proof {
            let seen = preorder(root@).take(i as int);
            assert(preorder(root@).take(i + 1) =~= seen.push(nodes@[i as int]@));
            lemma_joined_text_push(seen, nodes@[i as int]@);
        }
        match nodes[i].value() {
            NodeValue::Text(content) => {
                text.append(content.as_str());
            },
            _ => {},
        }
        i += 1;
    }
    proof {
        assert(preorder(root@).take(i as int) =~= preorder(root@));
    }
    text
}

/// Turns a link node into a [`Link`]; any other node gives `None`. Looks at
/// `node` alone, not at the links below it.
pub fn extract_link_from_node(node: &Node<'_>, file_path: &str) -> (link: Option<Link>)
    ensures
        match link {
            Some(found) => link_record(node@, file_path@) == Some(found@),
            None => link_record(node@, file_path@) is None,
        },
{
    match node.value() {
        NodeValue::Link { url } => {
            let url = url.clone();
            let title = extract_text(node);
            Some(Link { source_file: file_path.to_owned(), description: title, url })
        },
        _ => None,
    }
}

/// Walks the tree below `root` in pre-order and returns one [`Link`] for each
/// link node, in that order.
pub fn collect_links(root: &Node<'_>, file_path: &str) -> (links: Vec<Link>)
    ensures
        link_views(links@) == links_in(root@, file_path@),
        links@.len() == link_nodes(root@).len(),
        forall|i: int| 0 <= i < links@.len() ==> (#[trigger] links@[i]).source_file@ == file_path@,
{
    let nodes = root.descendants();
    let mut links: Vec<Link> = Vec::new();
    let mut i: usize = 0;
    while i < nodes.len()
        invariant
            i <= nodes.len(),
            node_views(nodes@) == preorder(root@),
            link_views(links@) == links_among(preorder(root@).take(i as int), file_path@),
        decreases nodes.len() - i,
    {
        proof {
            let seen = preorder(root@).take(i as int);
            assert(preorder(root@).take(i + 1) =~= seen.push(nodes@[i as int]@));
            lemma_links_among_push(seen, nodes@[i as int]@, file_path@);
        }
        match extract_link_from_node(&nodes[i], file_path) {
            Some(link) => {
                links.push(link);
            },
            None => {},
        }
        i += 1;
    }
    proof {
        assert(preorder(root@).take(i as int) =~= preorder(root@));
        lemma_links_follow_preorder(root@, file_path@);
        lemma_source_file(root@, file_path@);
        assert forall|i: int| 0 <= i < links@.len() implies (#[trigger] links@[i]).source_file@
            == file_path@ by {
            assert(link_views(links@)[i] == links@[i]@);
        }
    }
    links
}

/// Extracts the hyperlinks of a markdown document: one [`Link`] for each link
/// of the document, in document order, each with `file_path` as its source.
pub fn extract_links(markdown_input: &str, file_path: &str) -> (links: Vec<Link>)
    ensures
        link_views(links@) == links_in(document_tree(markdown_input@), file_path@),
        links@.len() == link_nodes(document_tree(markdown_input@)).len(),
        forall|i: int| 0 <= i < links@.len() ==> (#[trigger] links@[i]).source_file@ == file_path@,
{
    let document = parse_markdown(markdown_input);
    collect_links(&document.root(), file_path)
}

/// Extracts the hyperlinks of the document named `filename`, given what
/// loading it gave: the links of its contents, with `filename` as their
/// source, or the error of the load, untouched.
pub fn parse_from_filename<E>(filename: &str, loaded: Result<String, E>) -> (result: Result<
    Vec<Link>,
    E,
>)
    ensures
        match loaded {
            Ok(contents) => result is Ok && link_views(result->Ok_0@) == links_in(
                document_tree(contents@),
                filename@,
            ),
            Err(error) => result == Err::<Vec<Link>, E>(error),
        },
{
    match loaded {
        Ok(contents) => Ok(extract_links(contents.as_str(), filename)),
        Err(error) => Err(error),
    }
}

} // verus!
