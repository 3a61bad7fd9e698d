use compat_matrix::document::{parse_document, Node};

fn text(s: &str) -> Node {
    Node::Text(s.to_string())
}

fn number(s: &str) -> Node {
    Node::Number(s.to_string())
}

#[test]
fn documents_from_text() {
    let doc = parse_document("a: 1\nb: [true, ~, 2.5, '3']\n4: {c: d}\n").unwrap();
    assert_eq!(
        doc,
        Node::Mapping(vec![
            (text("a"), number("1")),
            (text("b"), Node::Sequence(vec![Node::Bool(true), Node::Null, number("2.5"), text("3")])),
            (number("4"), Node::Mapping(vec![(text("c"), text("d"))])),
        ])
    );
    assert_eq!(parse_document("just text"), Some(text("just text")));
    assert_eq!(parse_document(""), Some(Node::Null));
    assert_eq!(parse_document("- !reference [a, b]\n"), Some(Node::Sequence(vec![Node::Tagged(
        "!reference".to_string(),
        Box::new(Node::Sequence(vec![text("a"), text("b")])),
    )])));
    assert_eq!(parse_document("a: 1\na: 2\n"), None);
    assert_eq!(parse_document("{"), None);
}

#[test]
fn anchors_are_followed() {
    let doc = parse_document("base: &b [x, y]\ncopy: *b\n").unwrap();
    assert_eq!(doc.get("copy"), doc.get("base"));
    assert_eq!(doc.get("copy").unwrap().as_sequence().unwrap().len(), 2);
}

#[test]
fn what_a_node_is() {
    let tagged = Node::Tagged("!a".to_string(), Box::new(Node::Tagged("!b".to_string(), Box::new(text("t")))));
    assert_eq!(*tagged.untag(), text("t"));
    assert_eq!(tagged.as_str(), Some("t"));
    assert_eq!(tagged.as_sequence(), None);
    assert_eq!(tagged.as_mapping(), None);
    assert_eq!(number("1").as_str(), None);
    assert_eq!(Node::Null.untag(), &Node::Null);

    let list = Node::Tagged("!l".to_string(), Box::new(Node::Sequence(vec![text("x")])));
    assert_eq!(list.as_sequence(), Some(&vec![text("x")]));
    assert_eq!(list.get("x"), None);
}

#[test]
fn keys_of_a_mapping() {
    let map = Node::Mapping(vec![
        (Node::Tagged("!k".to_string(), Box::new(text("a"))), text("under a tagged key")),
        (number("1"), text("under a number")),
        (text("a"), text("first")),
        (text("a"), text("second")),
        (text(""), text("under the empty key")),
    ]);
    assert_eq!(map.get("a"), Some(&text("first")));
    assert_eq!(map.get("1"), None);
    assert_eq!(map.get(""), Some(&text("under the empty key")));
    assert_eq!(map.get("b"), None);
    let tagged = Node::Tagged("!m".to_string(), Box::new(map));
    assert_eq!(tagged.get("a"), Some(&text("first")));
    assert_eq!(tagged.as_mapping().unwrap().len(), 5);
}
