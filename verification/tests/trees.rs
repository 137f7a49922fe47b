use markdown_links::document::Document;
use markdown_links::markdown::parse_markdown;
use markdown_links::parser::{collect_links, extract_link_from_node, extract_text, Link};
use markdown_links::traversal::Edge;
use markdown_links::tree::NodeValue;

/// A tree written out node by node, to be turned into a document.
struct Tree {
    value: NodeValue,
    children: Vec<Tree>,
}

fn text(content: &str) -> Tree {
    Tree { value: NodeValue::Text(content.to_string()), children: vec![] }
}

fn link(url: &str, children: Vec<Tree>) -> Tree {
    Tree { value: NodeValue::Link { url: url.to_string() }, children }
}

fn other(children: Vec<Tree>) -> Tree {
    Tree { value: NodeValue::Other, children }
}

fn write_edges(tree: &Tree, edges: &mut Vec<Edge>) {
    edges.push(Edge::Start(tree.value.clone()));
    for child in &tree.children {
        write_edges(child, edges);
    }
    edges.push(Edge::End);
}

fn document(tree: Tree) -> Document {
    let mut edges = Vec::new();
    write_edges(&tree, &mut edges);
    Document::from_edges(edges).unwrap()
}

fn record(description: &str, url: &str, source_file: &str) -> Link {
    Link {
        description: description.to_string(),
        url: url.to_string(),
        source_file: source_file.to_string(),
    }
}

/// The tree of `Hello, *worl[d](https://example.com/)*`: a document, a
/// paragraph, a text, and an emphasis around a text and a link.
fn hello_world() -> Tree {
    other(vec![other(vec![
        text("Hello, "),
        other(vec![text("worl"), link("https://example.com/", vec![text("d")])]),
    ])])
}

#[test]
fn parsed_tree_of_nested_markup() {
    let parsed = parse_markdown("Hello, *worl[d](https://example.com/)*");
    assert_eq!(parsed.edges(), document(hello_world()).edges());
}

#[test]
fn parsed_tree_of_a_link_alone() {
    let parsed = parse_markdown("[example](https://www.example.com)");
    let expected =
        other(vec![other(vec![link("https://www.example.com", vec![text("example")])])]);
    assert_eq!(parsed.edges(), document(expected).edges());
}

#[test]
fn parsed_tree_of_empty_text_is_a_lone_root() {
    assert_eq!(parse_markdown("").edges(), &vec![Edge::Start(NodeValue::Other), Edge::End]);
}

#[test]
fn root_has_the_value_of_the_first_edge() {
    assert_eq!(document(text("t")).root().value(), &NodeValue::Text("t".to_string()));
    assert_eq!(
        document(link("u", vec![text("t")])).root().value(),
        &NodeValue::Link { url: "u".to_string() }
    );
    assert_eq!(document(other(vec![text("t")])).root().value(), &NodeValue::Other);
}

#[test]
fn text_of_a_text_leaf_is_its_content() {
    let leaf = document(text("  two  spaces\tkept "));
    assert_eq!(extract_text(&leaf.root()), "  two  spaces\tkept ");
}

#[test]
fn text_of_a_subtree_without_text_is_empty() {
    assert_eq!(extract_text(&document(other(vec![])).root()), "");
    let bare = document(other(vec![other(vec![]), link("u", vec![other(vec![])])]));
    assert_eq!(extract_text(&bare.root()), "");
}

#[test]
fn text_is_joined_in_document_order_without_separators() {
    assert_eq!(extract_text(&document(hello_world()).root()), "Hello, world");
    let tree = document(other(vec![
        text("a"),
        other(vec![text("b"), other(vec![text("c")]), text("d")]),
        text("e"),
    ]));
    assert_eq!(extract_text(&tree.root()), "abcde");
}

#[test]
fn text_of_a_text_node_with_children_starts_with_its_own() {
    let tree = document(Tree {
        value: NodeValue::Text("own".to_string()),
        children: vec![text("-below"), other(vec![text("-deeper")])],
    });
    assert_eq!(extract_text(&tree.root()), "own-below-deeper");
}

#[test]
fn text_of_an_inner_node_is_that_of_its_subtree_alone() {
    let tree = document(other(vec![
        text("before "),
        other(vec![text("in"), other(vec![text("side")])]),
        text(" after"),
    ]));
    let nodes = tree.root().descendants();
    let texts: Vec<String> = nodes.iter().map(extract_text).collect();
    assert_eq!(
        texts,
        vec!["before inside after", "before ", "inside", "in", "side", "side", " after"]
    );
}

fn label(value: &NodeValue) -> String {
    match value {
        NodeValue::Text(content) => content.clone(),
        NodeValue::Link { url } => url.clone(),
        NodeValue::Other => "-".to_string(),
    }
}

#[test]
fn descendants_come_in_pre_order() {
    let tree = document(other(vec![
        text("1"),
        link("2", vec![text("3"), other(vec![text("4")])]),
        text("5"),
    ]));
    let all = tree.root().descendants();
    let seen: Vec<String> = all.iter().map(|node| label(node.value())).collect();
    assert_eq!(seen, vec!["-", "1", "2", "3", "-", "4", "5"]);
    // of the link: the link itself and what is below it, nothing after
    let below: Vec<String> =
        all[2].descendants().iter().map(|node| label(node.value())).collect();
    assert_eq!(below, vec!["2", "3", "-", "4"]);
    // of the last leaf: the leaf alone
    let leaf: Vec<String> = all[6].descendants().iter().map(|node| label(node.value())).collect();
    assert_eq!(leaf, vec!["5"]);
}

#[test]
fn link_node_gives_a_record() {
    let tree = document(link("https://example.com", vec![text("to "), other(vec![text("there")])]));
    assert_eq!(
        extract_link_from_node(&tree.root(), "a.md"),
        Some(record("to there", "https://example.com", "a.md"))
    );
}

#[test]
fn other_nodes_give_no_record() {
    assert_eq!(extract_link_from_node(&document(text("https://example.com")).root(), "a.md"), None);
    assert_eq!(extract_link_from_node(&document(other(vec![])).root(), "a.md"), None);
    // a link below the node is not the node's own
    let above = document(other(vec![link("u", vec![])]));
    assert_eq!(extract_link_from_node(&above.root(), "a.md"), None);
    assert_eq!(
        extract_link_from_node(&above.root().descendants()[1], "a.md"),
        Some(record("", "u", "a.md"))
    );
}

#[test]
fn one_record_for_each_link_node() {
    let tree = document(other(vec![
        other(vec![link("u1", vec![text("one")])]),
        text("between"),
        other(vec![other(vec![link("u2", vec![text("two")])]), link("u3", vec![])]),
    ]));
    assert_eq!(
        collect_links(&tree.root(), "doc"),
        vec![record("one", "u1", "doc"), record("two", "u2", "doc"), record("", "u3", "doc")]
    );
}

#[test]
fn records_of_an_inner_node_are_those_below_it() {
    let tree = document(other(vec![
        link("outside", vec![text("o")]),
        other(vec![link("inside", vec![text("i")])]),
    ]));
    let nodes = tree.root().descendants();
    assert_eq!(collect_links(&nodes[3], "doc"), vec![record("i", "inside", "doc")]);
}

#[test]
fn tree_without_link_nodes_gives_no_records() {
    let tree =
        document(other(vec![text("(https://www.example.com)"), other(vec![text("[example]")])]));
    assert!(collect_links(&tree.root(), "doc").is_empty());
}

#[test]
fn link_root_comes_first() {
    let tree = document(link("root", vec![text("r"), other(vec![link("leaf", vec![text("l")])])]));
    assert_eq!(
        collect_links(&tree.root(), ""),
        vec![record("rl", "root", ""), record("l", "leaf", "")]
    );
}

#[test]
fn nested_links_each_give_a_record() {
    let tree = document(other(vec![link(
        "outer",
        vec![text("out "), link("inner", vec![text("in")]), text(" side")],
    )]));
    assert_eq!(
        collect_links(&tree.root(), "n.md"),
        vec![record("out in side", "outer", "n.md"), record("in", "inner", "n.md")]
    );
}

#[test]
fn node_values_are_cloned_field_by_field() {
    let values = [
        NodeValue::Text("t".to_string()),
        NodeValue::Link { url: "u".to_string() },
        NodeValue::Other,
    ];
    for value in &values {
        assert_eq!(&value.clone(), value);
    }
}
