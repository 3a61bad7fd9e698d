use compat_matrix::document::{parse_document, Node};
use compat_matrix::gitlab_ci::{
    escape, get_included_matrix, get_list_of_version_from_matrix, get_matrix, include_entry, plan_matrix,
    resolve_via_include, step_into_array, step_into_field, version_of_tag, walk_matrix, FetchRequest, IncludeError,
    IncludeField, IncludeFromCi, LookupFault, MalformedIncludeError, MatrixError, MatrixStep,
};

fn text(s: &str) -> Node {
    Node::Text(s.to_string())
}

fn strings(items: &[&str]) -> Vec<String> {
    items.iter().map(|s| s.to_string()).collect()
}

const PIPELINE: &str = "
include:
  - project: group/sub/ci
    file: /templates/db.yml
    ref: main
  - project: group/other
    file: plain.yml
  - local: here.yml
test:
  parallel:
    matrix:
      - MONGO_VERSION: ['4.0', 'mongo:4.4', '5.0']
        REDIS: [6, 7]
";

#[test]
fn versions_lose_their_label() {
    let node = Node::Sequence(vec![text("v4.0"), text("mongo:4.4"), text("5.0")]);
    assert_eq!(get_list_of_version_from_matrix(&node), Ok(strings(&["v4.0", "4.4", "5.0"])));
}

#[test]
fn versions_keep_order_and_repetitions() {
    let node = Node::Sequence(vec![text("5.0"), text("db:4.4"), text("5.0"), text("4.4")]);
    assert_eq!(get_list_of_version_from_matrix(&node), Ok(strings(&["5.0", "4.4", "5.0", "4.4"])));
    assert_eq!(get_list_of_version_from_matrix(&Node::Sequence(vec![])), Ok(Vec::new()));
}

#[test]
fn version_of_a_tag() {
    assert_eq!(version_of_tag("mongo:4.4"), "4.4");
    assert_eq!(version_of_tag("my_db:4.4.1."), "4.4.1.");
    assert_eq!(version_of_tag("4.4"), "4.4");
    assert_eq!(version_of_tag("v4.0"), "v4.0");
    assert_eq!(version_of_tag("mongo:"), "mongo:");
    assert_eq!(version_of_tag(":4.4"), ":4.4");
    assert_eq!(version_of_tag("mongo:4.4-rc"), "mongo:4.4-rc");
    assert_eq!(version_of_tag("mongo4:4.4"), "mongo4:4.4");
    assert_eq!(version_of_tag("a:b:4.4"), "a:b:4.4");
    assert_eq!(version_of_tag("mongo:latest"), "mongo:latest");
    assert_eq!(version_of_tag(""), "");
}

#[test]
fn versions_of_what_is_no_list_of_texts() {
    assert_eq!(get_list_of_version_from_matrix(&text("4.4")), Err(MatrixError::NotASequence));
    let node = Node::Sequence(vec![text("4.4"), Node::Number("5".to_string()), Node::Null]);
    assert_eq!(get_list_of_version_from_matrix(&node), Err(MatrixError::NotAString(1)));
}

#[test]
fn walk_to_a_matrix() {
    let doc = parse_document(PIPELINE).unwrap();
    assert_eq!(
        walk_matrix(&doc, "test.parallel.matrix[0].MONGO_VERSION"),
        Ok(strings(&["4.0", "4.4", "5.0"]))
    );
    assert_eq!(walk_matrix(&doc, "test.parallel.matrix[0].REDIS"), Err(MatrixError::NotAString(0)));
    assert_eq!(walk_matrix(&doc, "test.parallel"), Err(MatrixError::NotASequence));
    match walk_matrix(&doc, "test.parallel.matrix[1].MONGO_VERSION") {
        Err(MatrixError::Lookup(e)) => {
            assert_eq!(e.fault, LookupFault::IndexOutOfBounds);
            assert_eq!(e.step, "matrix[1]");
            assert_eq!(e.position, 2);
            assert_eq!(e.path, "test.parallel.matrix[1].MONGO_VERSION");
        }
        other => panic!("{:?}", other),
    }
}

#[test]
fn steps_into_a_document() {
    let doc = parse_document(PIPELINE).unwrap();
    assert_eq!(step_into_field(&doc, "nothing"), Err(LookupFault::MissingKey));
    assert_eq!(step_into_field(&text("x"), "nothing"), Err(LookupFault::NotAMapping));
    assert_eq!(step_into_array(&doc, "test", 0), Err(LookupFault::NotASequence));
    assert_eq!(step_into_array(&doc, "include", 3), Err(LookupFault::IndexOutOfBounds));
    assert_eq!(step_into_array(&doc, "inclde", 0), Err(LookupFault::MissingKey));
    let entry = step_into_array(&doc, "include", 2).unwrap();
    assert_eq!(*entry, Node::Mapping(vec![(text("local"), text("here.yml"))]));
    assert_eq!(include_entry(&doc, 2), Ok(entry));
    assert_eq!(include_entry(&doc, 12).unwrap_err().step, "include[12]");
}

#[test]
fn an_included_matrix_is_fetched() {
    let expected = FetchRequest {
        gitlab_base_host: "https://git.example".to_string(),
        project: "group%2Fsub%2Fci".to_string(),
        file: "templates%2Fdb.yml".to_string(),
        reference: Some("main".to_string()),
    };
    let step = get_matrix(PIPELINE, "db.matrix[0].VERSION", Some(0), "https://git.example");
    assert_eq!(step, MatrixStep::Fetch(expected));
    let included = "db:\n  matrix:\n    - VERSION: ['pg:13', '14']\n";
    assert_eq!(get_included_matrix(included, "db.matrix[0].VERSION"), Ok(strings(&["13", "14"])));
}

#[test]
fn an_entry_without_ref_is_malformed() {
    let step = get_matrix(PIPELINE, "db.matrix[0].VERSION", Some(1), "https://git.example");
    assert_eq!(
        step,
        MatrixStep::Done(Err(MatrixError::MalformedInclude(MalformedIncludeError { field: IncludeField::Ref })))
    );
    let step = get_matrix(PIPELINE, "db.matrix[0].VERSION", Some(2), "https://git.example");
    assert_eq!(
        step,
        MatrixStep::Done(Err(MatrixError::MalformedInclude(MalformedIncludeError { field: IncludeField::Project })))
    );
    let entry = Node::Mapping(vec![(text("project"), text("p")), (text("file"), Node::Bool(true)), (text("ref"), text("r"))]);
    assert_eq!(IncludeFromCi::new(&entry, "h"), Err(MalformedIncludeError { field: IncludeField::File }));
}

#[test]
fn an_entry_that_is_not_there() {
    let step = get_matrix(PIPELINE, "db.matrix[0].VERSION", Some(7), "https://git.example");
    match step {
        MatrixStep::Done(Err(MatrixError::Lookup(e))) => {
            assert_eq!(e.fault, LookupFault::IndexOutOfBounds);
            assert_eq!(e.path, "include[7]");
        }
        other => panic!("{:?}", other),
    }
    let doc = parse_document("test: 1\n").unwrap();
    match plan_matrix(&doc, "test", Some(0), "h") {
        MatrixStep::Done(Err(MatrixError::Lookup(e))) => assert_eq!(e.fault, LookupFault::MissingKey),
        other => panic!("{:?}", other),
    }
}

#[test]
fn a_matrix_of_the_pipeline_itself() {
    let step = get_matrix(PIPELINE, "test.parallel.matrix[0].MONGO_VERSION", None, "https://git.example");
    assert_eq!(step, MatrixStep::Done(Ok(strings(&["4.0", "4.4", "5.0"]))));
}

#[test]
fn text_that_is_no_document() {
    assert_eq!(get_matrix("a: [1", "a", None, "h"), MatrixStep::Done(Err(MatrixError::InvalidDocument)));
    assert_eq!(get_included_matrix("a: [1", "a"), Err(MatrixError::InvalidDocument));
    assert_eq!(parse_document("a: b: c"), None);
}

#[test]
fn slashes_are_escaped() {
    assert_eq!(escape("a/b//c"), "a%2Fb%2F%2Fc");
    assert_eq!(escape("a%2Fb c"), "a%2Fb c");
    let entry = IncludeFromCi {
        project: "/g/p".to_string(),
        file: "//dir/f.yml".to_string(),
        reference: "v1/x".to_string(),
        gitlab_base_host: "host".to_string(),
    };
    let request = entry.fetch();
    assert_eq!(request.project, "%2Fg%2Fp");
    assert_eq!(request.file, "%2Fdir%2Ff.yml");
    assert_eq!(request.reference, Some("v1/x".to_string()));
    assert_eq!(request.gitlab_base_host, "host");
}

#[test]
fn a_malformed_entry_is_never_fetched() {
    let doc = parse_document(PIPELINE).unwrap();
    let never = |_: FetchRequest| -> Result<String, ()> { panic!("nothing is to be fetched") };
    assert_eq!(
        resolve_via_include(&doc, 1, "db.matrix[0].VERSION", "h", never),
        Err(IncludeError::Matrix(MatrixError::MalformedInclude(MalformedIncludeError { field: IncludeField::Ref })))
    );
    let never = |_: FetchRequest| -> Result<String, ()> { panic!("nothing is to be fetched") };
    match resolve_via_include(&doc, 9, "db.matrix[0].VERSION", "h", never) {
        Err(IncludeError::Matrix(MatrixError::Lookup(e))) => assert_eq!(e.fault, LookupFault::IndexOutOfBounds),
        other => panic!("{:?}", other),
    }
}

#[test]
fn an_included_document_is_fetched_once() {
    let doc = parse_document(PIPELINE).unwrap();
    let mut asked: Vec<FetchRequest> = Vec::new();
    let result = resolve_via_include(&doc, 0, "db.matrix[0].VERSION", "https://git.example", |request| {
        asked.push(request);
        Ok::<String, String>("db:\n  matrix:\n    - VERSION: ['pg:13', '14']\n".to_string())
    });
    assert_eq!(result, Ok(strings(&["13", "14"])));
    assert_eq!(
        asked,
        vec![FetchRequest {
            gitlab_base_host: "https://git.example".to_string(),
            project: "group%2Fsub%2Fci".to_string(),
            file: "templates%2Fdb.yml".to_string(),
            reference: Some("main".to_string()),
        }]
    );
}

#[test]
fn a_failed_fetch_is_handed_on() {
    let doc = parse_document(PIPELINE).unwrap();
    let result = resolve_via_include(&doc, 0, "db.matrix[0].VERSION", "h", |_| Err::<String, u16>(404));
    assert_eq!(result, Err(IncludeError::Fetch(404)));
    let result = resolve_via_include(&doc, 0, "db.matrix[0].VERSION", "h", |_| Ok::<String, u16>("x: 1".to_string()));
    match result {
        Err(IncludeError::Matrix(MatrixError::Lookup(e))) => assert_eq!(e.step, "db"),
        other => panic!("{:?}", other),
    }
}
