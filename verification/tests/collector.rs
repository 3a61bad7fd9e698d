use compat_matrix::config::{
    push_rows, Action, CollectError, Collector, Config, Event, GitlabCi, MatrixItem, Phase, Service,
};
use compat_matrix::gitlab_ci::{FetchRequest, MatrixError};
use compat_matrix::table_builder::CompatibilityRow;

fn strings(items: &[&str]) -> Vec<String> {
    items.iter().map(|s| s.to_string()).collect()
}

fn row(service: &str, subject: &str, version: Option<&str>) -> CompatibilityRow {
    CompatibilityRow {
        service_name: service.to_string(),
        compatibility_subject: subject.to_string(),
        version: version.map(|v| v.to_string()),
    }
}

fn file(project: &str, file: &str, reference: &str) -> Action {
    Action::FetchFile(FetchRequest {
        gitlab_base_host: "https://git.example".to_string(),
        project: project.to_string(),
        file: file.to_string(),
        reference: Some(reference.to_string()),
    })
}

fn tags_of(project: &str) -> Action {
    Action::FetchTags { gitlab_base_host: "https://git.example".to_string(), project_id: project.to_string() }
}

fn config() -> Config {
    Config {
        gitlab_base_api_host: "https://git.example".to_string(),
        services: vec![
            Service {
                name: "orders".to_string(),
                ci: GitlabCi::new("11".to_string()),
                matrix: vec![
                    MatrixItem { path: "test.matrix[0].MONGO".to_string(), name: "mongo".to_string(), include_index: None },
                    MatrixItem { path: "db.matrix[0].PG".to_string(), name: "postgres".to_string(), include_index: Some(0) },
                    MatrixItem { path: "test.nothing".to_string(), name: "kafka".to_string(), include_index: None },
                ],
            },
            Service { name: "idle".to_string(), ci: GitlabCi::new("12".to_string()), matrix: vec![] },
        ],
    }
}

const PIPELINE_V2: &str = "
include:
  - project: shared/ci
    file: /db.yml
    ref: stable
test:
  matrix:
    - MONGO: ['mongo:5.0', '6.0']
";

const PIPELINE_V1: &str = "
include:
  - project: shared/ci
    file: /db.yml
test:
  matrix:
    - MONGO: ['4.4']
";

#[test]
fn collects_service_by_service() {
    let config = config();
    let (collector, action) = config.config_to_compatibility_vec();
    assert_eq!(action, tags_of("11"));
    assert_eq!(collector.phase(), Phase::Tags);

    let (collector, action) = collector.step(Event::Tags(strings(&["v1.0.0", "v2.1.0", "v2.0.0", "v3.0.0-rc.1"])));
    assert_eq!(action, file("11", ".gitlab-ci.yml", "v2.1.0"));
    assert_eq!(collector.phase(), Phase::Pipeline);

    let (collector, action) = collector.step(Event::File(PIPELINE_V2.to_string()));
    assert_eq!(action, file("shared%2Fci", "db.yml", "stable"));
    assert_eq!(collector.phase(), Phase::Included);
    assert_eq!(
        collector.rows(),
        &vec![row("orders@v2.1.0", "mongo", Some("5.0")), row("orders@v2.1.0", "mongo", Some("6.0"))]
    );

    let (collector, action) = collector.step(Event::File("db:\n  matrix:\n    - PG: ['13', '14']\n".to_string()));
    assert_eq!(action, file("11", ".gitlab-ci.yml", "v1.0.0"));

    let (collector, action) = collector.step(Event::File(PIPELINE_V1.to_string()));
    assert_eq!(action, tags_of("12"));

    let (collector, action) = collector.step(Event::Tags(strings(&["0.1.0", "1.0.0"])));
    assert_eq!(action, file("12", ".gitlab-ci.yml", "1.0.0"));
    let (collector, action) = collector.step(Event::File("a: 1".to_string()));
    assert_eq!(action, file("12", ".gitlab-ci.yml", "0.1.0"));
    let (collector, action) = collector.step(Event::File("not: [a document".to_string()));
    assert_eq!(action, Action::Done);
    assert_eq!(collector.phase(), Phase::Finished);

    assert_eq!(
        collector.into_rows(),
        vec![
            row("orders@v2.1.0", "mongo", Some("5.0")),
            row("orders@v2.1.0", "mongo", Some("6.0")),
            row("orders@v2.1.0", "postgres", Some("13")),
            row("orders@v2.1.0", "postgres", Some("14")),
            row("orders@v2.1.0", "kafka", None),
            row("orders@v1.0.0", "mongo", Some("4.4")),
            row("orders@v1.0.0", "postgres", None),
            row("orders@v1.0.0", "kafka", None),
        ]
    );
}

#[test]
fn fewer_than_two_majors_is_an_error() {
    let config = config();
    let (collector, _) = Collector::new(&config);
    let (collector, action) = collector.step(Event::Tags(strings(&["v1.0.0", "v1.2.0", "latest", "v2.0.0-beta"])));
    assert_eq!(action, Action::Failed(CollectError::TooFewMajors { service: 0, found: 1 }));
    assert_eq!(collector.phase(), Phase::Failed);
    let (collector, action) = collector.step(Event::Tags(strings(&["v1.0.0", "v2.0.0"])));
    assert_eq!(action, Action::Failed(CollectError::UnexpectedEvent));
    assert_eq!(collector.phase(), Phase::Failed);
}

#[test]
fn what_was_not_asked_for_is_an_error() {
    let config = config();
    let (collector, _) = Collector::new(&config);
    let (collector, action) = collector.step(Event::File("a: 1".to_string()));
    assert_eq!(action, Action::Failed(CollectError::UnexpectedEvent));
    assert!(collector.rows().is_empty());

    let (collector, _) = Collector::new(&config);
    let (collector, _) = collector.step(Event::Tags(strings(&["1.0.0", "2.0.0"])));
    let (_, action) = collector.step(Event::Tags(strings(&["1.0.0", "2.0.0"])));
    assert_eq!(action, Action::Failed(CollectError::UnexpectedEvent));
}

#[test]
fn nothing_to_collect() {
    let config = Config { gitlab_base_api_host: "h".to_string(), services: vec![] };
    let (collector, action) = Collector::new(&config);
    assert_eq!(action, Action::Done);
    assert_eq!(collector.phase(), Phase::Finished);
    assert!(collector.into_rows().is_empty());
}

#[test]
fn rows_of_one_lookup() {
    let mut rows = vec![row("a@1", "x", None)];
    push_rows(&mut rows, "b@2", "mongo", Ok(strings(&["4.4", "4.4"])));
    push_rows(&mut rows, "b@2", "redis", Ok(Vec::new()));
    push_rows(&mut rows, "b@2", "kafka", Err(MatrixError::NotASequence));
    assert_eq!(
        rows,
        vec![
            row("a@1", "x", None),
            row("b@2", "mongo", Some("4.4")),
            row("b@2", "mongo", Some("4.4")),
            row("b@2", "kafka", None),
        ]
    );
}

#[test]
fn names_and_requests_of_a_service() {
    let config = config();
    let service = &config.services[0];
    assert_eq!(service.name_at("v2.1.0"), "orders@v2.1.0");
    assert_eq!(
        Action::FetchFile(service.get_ci("https://git.example", Some("v9"))),
        file("11", ".gitlab-ci.yml", "v9")
    );
}

#[test]
fn requests_without_a_reference() {
    let config = config();
    let service = &config.services[1];
    let request = service.get_ci("h", None);
    assert_eq!(request.reference, None);
    assert_eq!(request.file, ".gitlab-ci.yml");
    assert_eq!(request.project, "12");
    assert_eq!(service.get_tags("h"), Action::FetchTags { gitlab_base_host: "h".to_string(), project_id: "12".to_string() });
    let (_, action) = Collector::new(&config);
    assert_eq!(action, config.services[0].get_tags("https://git.example"));
}
