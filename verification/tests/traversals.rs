use markdown_links::document::Document;
use markdown_links::traversal::Edge;
use markdown_links::tree::NodeValue;

fn start_text(content: &str) -> Edge {
    Edge::Start(NodeValue::Text(content.to_string()))
}

fn start_link(url: &str) -> Edge {
    Edge::Start(NodeValue::Link { url: url.to_string() })
}

fn start_other() -> Edge {
    Edge::Start(NodeValue::Other)
}

fn is_tree(edges: Vec<Edge>) -> bool {
    Document::from_edges(edges).is_some()
}

#[test]
fn single_node() {
    let document = Document::from_edges(vec![start_other(), Edge::End]).unwrap();
    assert_eq!(document.root().value(), &NodeValue::Other);
    assert_eq!(document.root().descendants().len(), 1);
}

#[test]
fn document_keeps_its_edges() {
    let edges = || {
        vec![
            start_other(),
            start_text("a"),
            Edge::End,
            start_link("u"),
            start_text("b"),
            Edge::End,
            start_other(),
            start_text("c"),
            Edge::End,
            Edge::End,
            Edge::End,
            start_text("d"),
            Edge::End,
            Edge::End,
        ]
    };
    let document = Document::from_edges(edges()).unwrap();
    assert_eq!(document.edges(), &edges());
    let values: Vec<NodeValue> =
        document.root().descendants().iter().map(|node| node.value().clone()).collect();
    assert_eq!(
        values,
        vec![
            NodeValue::Other,
            NodeValue::Text("a".to_string()),
            NodeValue::Link { url: "u".to_string() },
            NodeValue::Text("b".to_string()),
            NodeValue::Other,
            NodeValue::Text("c".to_string()),
            NodeValue::Text("d".to_string()),
        ]
    );
}

#[test]
fn no_edges_are_no_tree() {
    assert!(!is_tree(vec![]));
}

#[test]
fn leading_end_edge_is_no_tree() {
    assert!(!is_tree(vec![Edge::End]));
    assert!(!is_tree(vec![Edge::End, start_other(), Edge::End]));
    assert!(!is_tree(vec![Edge::End, start_other()]));
}

#[test]
fn missing_end_edge_is_no_tree() {
    assert!(!is_tree(vec![start_other()]));
    assert!(!is_tree(vec![start_other(), start_text("a"), Edge::End]));
    assert!(!is_tree(vec![start_other(), start_text("a")]));
}

#[test]
fn edges_after_the_root_are_no_tree() {
    assert!(!is_tree(vec![start_other(), Edge::End, Edge::End]));
    assert!(!is_tree(vec![start_other(), Edge::End, start_other(), Edge::End]));
    assert!(!is_tree(vec![start_other(), Edge::End, start_other()]));
}

#[test]
fn well_nested_edges_are_a_tree() {
    assert!(is_tree(vec![start_text("leaf"), Edge::End]));
    assert!(is_tree(vec![
        start_other(),
        start_other(),
        Edge::End,
        start_other(),
        Edge::End,
        Edge::End,
    ]));
}

#[test]
fn deep_chain() {
    let depth = 1_000_000;
    let mut edges = Vec::new();
    for _ in 0..depth {
        edges.push(start_other());
    }
    for _ in 0..depth {
        edges.push(Edge::End);
    }
    let document = Document::from_edges(edges).unwrap();
    let nodes = document.root().descendants();
    assert_eq!(nodes.len(), depth);
    assert_eq!(nodes[depth - 1].descendants().len(), 1);
    assert_eq!(nodes[depth / 2].descendants().len(), depth / 2);
}
