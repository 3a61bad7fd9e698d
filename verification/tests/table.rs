use compat_matrix::table_builder::{
    as_markdown, get_table_by_subject, get_table_rows_and_column_by_subject, is_declared, CompatibilityRow,
};

fn row(service: &str, subject: &str, version: Option<&str>) -> CompatibilityRow {
    CompatibilityRow {
        service_name: service.to_string(),
        compatibility_subject: subject.to_string(),
        version: version.map(|v| v.to_string()),
    }
}

fn strings(items: &[&str]) -> Vec<String> {
    items.iter().map(|s| s.to_string()).collect()
}

#[test]
fn get_cols_rows() {
    let subject = "mongo";
    let service_1 = String::from("service-1");
    let service_2 = String::from("service-2");
    let rows = vec![
        CompatibilityRow {
            service_name: service_1.to_owned(),
            compatibility_subject: String::from("mongo"),
            version: Some(String::from("1.0.0")),
        },
        CompatibilityRow {
            service_name: service_1.to_owned(),
            compatibility_subject: String::from("kafka"),
            version: Some(String::from("2.0.0")),
        },
        CompatibilityRow {
            service_name: service_2.to_owned(),
            compatibility_subject: String::from("mongo"),
            version: Some(String::from("2.5.0")),
        },
        CompatibilityRow {
            service_name: service_1.to_owned(),
            compatibility_subject: String::from("mongo"),
            version: Some(String::from("1.5.0")),
        },
    ];
    assert_eq!(
        get_table_rows_and_column_by_subject(subject, &rows),
        (
            vec![String::from("service-1"), String::from("service-2")],
            vec![
                String::from("1.0.0"),
                String::from("1.5.0"),
                String::from("2.5.0")
            ],
        )
    );
}

#[test]
fn table_of_a_subject() {
    let rows = vec![
        row("a@v2", "mongo", Some("5.0")),
        row("a@v2", "mongo", Some("4.4")),
        row("a@v2", "kafka", Some("3.1")),
        row("b@v1", "mongo", None),
        row("c@v7", "mongo", Some("4.4")),
        row("c@v7", "mongo", Some("10.0")),
        row("a@v2", "mongo", Some("5.0")),
    ];
    let table = get_table_by_subject("mongo", &rows);
    assert_eq!(
        table,
        vec![
            strings(&["mongo", "4.4", "5.0", "10.0"]),
            strings(&["a@v2", "true", "true", "false"]),
            strings(&["b@v1", "false", "false", "false"]),
            strings(&["c@v7", "true", "false", "true"]),
        ]
    );
}

#[test]
fn every_row_is_as_long_as_the_header() {
    let rows = vec![
        row("s1", "redis", Some("6.2")),
        row("s2", "redis", Some("7.0")),
        row("s1", "redis", Some("7.0")),
        row("s3", "redis", None),
        row("s1", "mongo", Some("4.0")),
    ];
    for subject in ["redis", "mongo", "kafka"] {
        let table = get_table_by_subject(subject, &rows);
        let mut distinct: Vec<&String> = Vec::new();
        for r in rows.iter().filter(|r| r.compatibility_subject == subject) {
            if let Some(v) = &r.version {
                if !distinct.contains(&v) {
                    distinct.push(v);
                }
            }
        }
        assert_eq!(table[0].len(), 1 + distinct.len());
        assert_eq!(table[0][0], subject);
        for r in &table {
            assert_eq!(r.len(), table[0].len());
        }
    }
}

#[test]
fn table_of_a_subject_that_no_row_names() {
    let rows = vec![row("s1", "redis", Some("6.2"))];
    assert_eq!(get_table_by_subject("mongo", &rows), vec![strings(&["mongo"])]);
    assert_eq!(get_table_by_subject("mongo", &[]), vec![strings(&["mongo"])]);
}

#[test]
fn declared_versions() {
    let rows = vec![row("s1", "redis", Some("6.2")), row("s2", "redis", None)];
    assert!(is_declared(&rows, "redis", "s1", "6.2"));
    assert!(!is_declared(&rows, "redis", "s2", "6.2"));
    assert!(!is_declared(&rows, "mongo", "s1", "6.2"));
    assert!(!is_declared(&rows, "redis", "s1", "6.20"));
}

#[test]
fn table_as_text() {
    let table = vec![strings(&["mongo", "4.4"]), strings(&["a", "true"]), strings(&["b", "false"])];
    assert_eq!(
        as_markdown(table),
        "<table><tr><td>mongo<td>4.4<tr><td>a<td>true<tr><td>b<td>false</table>"
    );
    assert_eq!(as_markdown(vec![Vec::new()]), "<table><tr></table>");
}

#[test]
fn versions_that_are_no_versions_come_last() {
    let rows = vec![
        row("a", "mongo", Some("5.0")),
        row("a", "mongo", Some("latest")),
        row("b", "mongo", Some("4.4")),
        row("b", "mongo", Some("edge")),
        row("b", "mongo", Some("latest")),
        row("c", "mongo", Some("4.10")),
    ];
    assert_eq!(
        get_table_by_subject("mongo", &rows),
        vec![
            strings(&["mongo", "4.4", "4.10", "5.0", "latest", "edge"]),
            strings(&["a", "false", "false", "true", "true", "false"]),
            strings(&["b", "true", "false", "false", "true", "true"]),
            strings(&["c", "false", "true", "false", "false", "false"]),
        ]
    );
}
