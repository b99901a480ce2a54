use prouste::dom::{Document, NodeData, RawNode, MAX_HTML_BYTES, MAX_NODES};

fn element(parent: Option<usize>, name: &str, attrs: &[(&str, &str)]) -> RawNode {
    let attrs = attrs.iter().map(|(k, v)| (k.to_string(), v.to_string())).collect();
    RawNode { parent, data: NodeData::Element(name.to_string(), attrs) }
}

fn text(parent: Option<usize>, content: &str) -> RawNode {
    RawNode { parent, data: NodeData::Text(content.to_string()) }
}

fn comment(parent: Option<usize>, content: &str) -> RawNode {
    RawNode { parent, data: NodeData::Comment(content.to_string()) }
}

// html(0) > body(1) > [ div(2) > [ p(3) > "one"(4), p(5) > [ "two "(6), b(7) > "three"(8) ] ], span(9) ]
fn sample() -> Document {
    Document::new(vec![
        element(None, "html", &[("lang", "en")]),
        element(Some(0), "body", &[]),
        element(Some(1), "div", &[("class", "a b"), ("class", "c")]),
        element(Some(2), "p", &[]),
        text(Some(3), "one"),
        element(Some(2), "p", &[]),
        text(Some(5), "two "),
        element(Some(5), "b", &[]),
        text(Some(7), "three"),
        element(Some(1), "span", &[]),
    ])
    .unwrap()
}

#[test]
fn new_accepts_nodes_in_document_order() {
    let document = sample();
    assert_eq!(document.len(), 10);
}

#[test]
fn new_accepts_the_empty_document_and_several_roots() {
    assert_eq!(Document::new(vec![]).unwrap().len(), 0);
    let document =
        Document::new(vec![comment(None, "first"), element(None, "html", &[]), text(Some(1), "x")])
            .unwrap();
    assert_eq!(document.len(), 3);
    assert_eq!(document.next(0), Some(1));
    assert_eq!(document.next(1), None);
}

#[test]
fn new_rejects_a_parent_that_does_not_stand_before_its_child() {
    assert!(Document::new(vec![element(Some(0), "html", &[])]).is_none());
    assert!(Document::new(vec![element(Some(1), "a", &[]), element(None, "b", &[])]).is_none());
    assert!(Document::new(vec![element(None, "a", &[]), element(Some(5), "b", &[])]).is_none());
}

#[test]
fn new_rejects_a_subtree_that_is_not_one_run() {
    // Node 3 names node 1 as its parent, but node 2, which stands between
    // them, is a child of node 0.
    let nodes = vec![
        element(None, "a", &[]),
        element(Some(0), "b", &[]),
        element(Some(0), "c", &[]),
        element(Some(1), "d", &[]),
    ];
    assert!(Document::new(nodes).is_none());
    // A root closes every subtree before it.
    let nodes = vec![element(None, "a", &[]), element(None, "b", &[]), element(Some(0), "c", &[])];
    assert!(Document::new(nodes).is_none());
}

#[test]
fn limits_of_a_document() {
    assert_eq!(MAX_NODES, 2147483647);
    assert_eq!(MAX_HTML_BYTES, 715827882);
    assert!(3 * (MAX_HTML_BYTES as u64) <= 1 << 31);
}

#[test]
fn subtree_end_is_one_past_the_last_descendant() {
    let document = sample();
    assert_eq!(document.subtree_end(0), 10);
    assert_eq!(document.subtree_end(1), 10);
    assert_eq!(document.subtree_end(2), 9);
    assert_eq!(document.subtree_end(3), 5);
    assert_eq!(document.subtree_end(4), 5);
    assert_eq!(document.subtree_end(5), 9);
    assert_eq!(document.subtree_end(7), 9);
    assert_eq!(document.subtree_end(9), 10);
}

#[test]
fn text_concatenates_the_text_nodes_of_the_subtree() {
    let document = sample();
    assert_eq!(document.text(0), "onetwo three");
    assert_eq!(document.text(3), "one");
    assert_eq!(document.text(5), "two three");
    assert_eq!(document.text(8), "three");
    assert_eq!(document.text(9), "");
}

#[test]
fn comments_add_nothing_to_the_text() {
    let document = Document::new(vec![
        element(None, "p", &[]),
        text(Some(0), "a"),
        comment(Some(0), "hidden"),
        text(Some(0), "b"),
    ])
    .unwrap();
    assert_eq!(document.text(0), "ab");
    assert_eq!(document.as_text(2), None);
    assert_eq!(document.name(2), None);
}

#[test]
fn next_is_the_next_sibling() {
    let document = sample();
    assert_eq!(document.next(3), Some(5));
    assert_eq!(document.next(5), None);
    assert_eq!(document.next(2), Some(9));
    assert_eq!(document.next(6), Some(7));
    assert_eq!(document.next(8), None);
    assert_eq!(document.next(0), None);
}

#[test]
fn parent_and_leaf() {
    let document = sample();
    assert_eq!(document.parent(0), None);
    assert_eq!(document.parent(8), Some(7));
    assert!(document.is_leaf(4));
    assert!(document.is_leaf(9));
    assert!(!document.is_leaf(5));
    assert!(!document.is_leaf(0));
}

#[test]
fn name_and_text_tell_elements_from_text_nodes() {
    let document = sample();
    assert_eq!(document.name(2), Some("div"));
    assert_eq!(document.name(4), None);
    assert_eq!(document.as_text(4), Some("one"));
    assert_eq!(document.as_text(2), None);
}

#[test]
fn attr_is_the_first_attribute_of_that_name() {
    let document = sample();
    assert_eq!(document.attr(0, "lang"), Some("en"));
    assert_eq!(document.attr(2, "class"), Some("a b"));
    assert_eq!(document.attr(2, "id"), None);
    assert_eq!(document.attr(4, "lang"), None);
}

#[test]
fn from_html_parses_into_document_order() {
    let document = Document::from_html("<html><head><title>T</title></head><body><p id=\"x\">Hi <b>you</b></p><!-- c --></body></html>").unwrap();
    assert_eq!(document.name(0), Some("html"));
    assert_eq!(document.name(1), Some("head"));
    assert_eq!(document.name(2), Some("title"));
    assert_eq!(document.as_text(3), Some("T"));
    assert_eq!(document.name(4), Some("body"));
    assert_eq!(document.name(5), Some("p"));
    assert_eq!(document.attr(5, "id"), Some("x"));
    assert_eq!(document.as_text(6), Some("Hi "));
    assert_eq!(document.name(7), Some("b"));
    assert_eq!(document.as_text(8), Some("you"));
    assert_eq!(document.parent(8), Some(7));
    assert_eq!(document.parent(7), Some(5));
    assert_eq!(document.parent(9), Some(4));
    assert_eq!(document.len(), 10);
    assert_eq!(document.text(5), "Hi you");
}
