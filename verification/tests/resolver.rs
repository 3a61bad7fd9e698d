use compat_matrix::document::{parse_document, Node};
use compat_matrix::gitlab_ci::{resolve, LookupFault};
use compat_matrix::path::{decimal_text, parse_path, parse_step, PathStep};

fn text(s: &str) -> Node {
    Node::Text(s.to_string())
}

fn field(s: &str) -> PathStep {
    PathStep::Field(s.to_string())
}

fn indexed(s: &str, i: usize) -> PathStep {
    PathStep::Indexed(s.to_string(), i)
}

#[test]
fn resolves_a_matrix_entry() {
    let doc = parse_document("test: {parallel: {matrix: [{MONGO_VERSION: [\"4.0\",\"4.4\",\"5.0\"]}]}}").unwrap();
    let found = resolve(&doc, "test.parallel.matrix[0].MONGO_VERSION").unwrap();
    assert_eq!(*found, Node::Sequence(vec![text("4.0"), text("4.4"), text("5.0")]));
}

#[test]
fn resolves_to_the_very_node() {
    let leaf = Node::Sequence(vec![Node::Bool(true), Node::Null]);
    let doc = Node::Mapping(vec![
        (Node::Number("1".to_string()), text("number key")),
        (text("a"), Node::Mapping(vec![(text("b"), Node::Sequence(vec![text("x"), leaf])), (text("b"), text("second"))])),
        (text("a"), text("shadowed")),
    ]);
    let found = resolve(&doc, "a.b[1]").unwrap();
    assert!(std::ptr::eq(found, match &doc {
        Node::Mapping(entries) => match &entries[1].1 {
            Node::Mapping(inner) => match &inner[0].1 {
                Node::Sequence(items) => &items[1],
                _ => unreachable!(),
            },
            _ => unreachable!(),
        },
        _ => unreachable!(),
    }));
    assert_eq!(resolve(&doc, "1").unwrap_err().fault, LookupFault::MissingKey);
}

#[test]
fn names_the_failing_step() {
    let doc = parse_document("a:\n  b: [1, 2]\n  c: text\n").unwrap();
    let e = resolve(&doc, "a.b[2].c").unwrap_err();
    assert_eq!(e.path, "a.b[2].c");
    assert_eq!(e.step, "b[2]");
    assert_eq!(e.position, 1);
    assert_eq!(e.fault, LookupFault::IndexOutOfBounds);
    let e = resolve(&doc, "a.x").unwrap_err();
    assert_eq!((e.position, e.step.as_str(), e.fault), (1, "x", LookupFault::MissingKey));
    let e = resolve(&doc, "a.c.d").unwrap_err();
    assert_eq!((e.position, e.step.as_str(), e.fault), (2, "d", LookupFault::NotAMapping));
    let e = resolve(&doc, "a.c[0]").unwrap_err();
    assert_eq!((e.position, e.step.as_str(), e.fault), (1, "c[0]", LookupFault::NotASequence));
    let e = resolve(&doc, "a.b[1].z").unwrap_err();
    assert_eq!((e.position, e.step.as_str(), e.fault), (2, "z", LookupFault::NotAMapping));
    let e = resolve(&doc, "").unwrap_err();
    assert_eq!((e.position, e.step.as_str(), e.fault), (0, "", LookupFault::MissingKey));
    let e = resolve(&doc, "a..b").unwrap_err();
    assert_eq!((e.position, e.step.as_str(), e.fault), (1, "", LookupFault::MissingKey));
    let e = resolve(&doc, "a.b[99999999999999999999999999]").unwrap_err();
    assert_eq!(e.fault, LookupFault::IndexOutOfBounds);
}

#[test]
fn looks_through_tags() {
    let doc = parse_document("a: !tagged\n  b: !list [x, !t y]\n").unwrap();
    assert_eq!(*resolve(&doc, "a.b[0]").unwrap(), text("x"));
    assert_eq!(*resolve(&doc, "a.b[1]").unwrap(), Node::Tagged("!t".to_string(), Box::new(text("y"))));
    assert_eq!(resolve(&doc, "a.b[1]").unwrap().as_str(), Some("y"));
}

#[test]
fn steps_of_a_path() {
    assert_eq!(
        parse_path("test.parallel.matrix[0].MONGO_VERSION"),
        vec![field("test"), field("parallel"), indexed("matrix", 0), field("MONGO_VERSION")]
    );
    assert_eq!(parse_path(""), vec![field("")]);
    assert_eq!(parse_path("a."), vec![field("a"), field("")]);
    assert_eq!(parse_path(".a[1]"), vec![field(""), indexed("a", 1)]);
}

#[test]
fn forms_of_a_step() {
    assert_eq!(parse_step("matrix[10]"), indexed("matrix", 10));
    assert_eq!(parse_step("a_B[007]"), indexed("a_B", 7));
    assert_eq!(parse_step("job2[1]"), indexed("job2", 1));
    assert_eq!(parse_step("my-field[3]"), indexed("my-field", 3));
    assert_eq!(parse_step("a b[0]"), indexed("a b", 0));
    assert_eq!(parse_step("\u{00e9}t\u{00e9}[4]"), indexed("\u{00e9}t\u{00e9}", 4));
    assert_eq!(parse_step("x[1]y[2]"), indexed("x[1]y", 2));
    assert_eq!(parse_step("a[1][2]"), indexed("a[1]", 2));
    assert_eq!(parse_step("[[0]"), indexed("[", 0));
    assert_eq!(parse_step("[0]"), field("[0]"));
    assert_eq!(parse_step("a[]"), field("a[]"));
    assert_eq!(parse_step("a[0"), field("a[0"));
    assert_eq!(parse_step("a[0] "), field("a[0] "));
    assert_eq!(parse_step("a[-1]"), field("a[-1]"));
    assert_eq!(parse_step("a[+1]"), field("a[+1]"));
    assert_eq!(parse_step("a[1 ]"), field("a[1 ]"));
    assert_eq!(parse_step("a[\u{0661}]"), field("a[\u{0661}]"));
    assert_eq!(parse_step("a[18446744073709551616]"), indexed("a", usize::MAX));
    assert_eq!(parse_step("plain"), field("plain"));
    assert_eq!(parse_step(""), field(""));
}

#[test]
fn field_names_of_any_characters() {
    let doc = parse_document("job2: [['1.0'], ['2.0']]\na-b: [x, y]\n'a[0]': [z]\nb: [k]\n").unwrap();
    assert_eq!(*resolve(&doc, "job2[1]").unwrap(), Node::Sequence(vec![text("2.0")]));
    assert_eq!(*resolve(&doc, "job2[0]").unwrap(), Node::Sequence(vec![text("1.0")]));
    assert_eq!(*resolve(&doc, "a-b[0]").unwrap(), text("x"));
    assert_eq!(*resolve(&doc, "a-b[1]").unwrap(), text("y"));
    assert_eq!(*resolve(&doc, "a[0][0]").unwrap(), text("z"));
    let e = resolve(&doc, "job2[2]").unwrap_err();
    assert_eq!((e.step.as_str(), e.fault), ("job2[2]", LookupFault::IndexOutOfBounds));
    let e = resolve(&doc, "job3[0]").unwrap_err();
    assert_eq!((e.step.as_str(), e.fault), ("job3[0]", LookupFault::MissingKey));
}

#[test]
fn numbers_in_digits() {
    assert_eq!(decimal_text(0), "0");
    assert_eq!(decimal_text(7), "7");
    assert_eq!(decimal_text(10), "10");
    assert_eq!(decimal_text(9081726354), "9081726354");
    assert_eq!(decimal_text(usize::MAX), usize::MAX.to_string());
}
