use compat_matrix::config::{Config, GitlabCi, MatrixItem, Service};
use compat_matrix::env_manager::Env;
use compat_matrix::gitlab_api::{tag_names, GitlabCommitApi};

fn item(name: &str) -> MatrixItem {
    MatrixItem { path: "a.b".to_string(), name: name.to_string(), include_index: None }
}

fn service(name: &str, subjects: &[&str]) -> Service {
    Service {
        name: name.to_string(),
        ci: GitlabCi::new("42".to_string()),
        matrix: subjects.iter().map(|s| item(s)).collect(),
    }
}

#[test]
fn subjects_once_each_in_first_order() {
    let config = Config {
        gitlab_base_api_host: "h".to_string(),
        services: vec![
            service("one", &["mongo", "kafka", "mongo"]),
            service("two", &[]),
            service("three", &["redis", "kafka", "Mongo"]),
        ],
    };
    let subjects: Vec<String> = config.get_list_of_subjects().into_iter().cloned().collect();
    assert_eq!(subjects, vec!["mongo", "kafka", "redis", "Mongo"]);
    let none = Config { gitlab_base_api_host: "h".to_string(), services: vec![] };
    assert!(none.get_list_of_subjects().is_empty());
}

#[test]
fn project_of_a_service() {
    assert_eq!(GitlabCi::new("group/p".to_string()).project_id(), "group/p");
}

#[test]
fn settings_from_the_environment() {
    let env = Env::get(None, "secret".to_string());
    assert_eq!(env.config_file_path, "config.yml");
    assert_eq!(env.gitlab_token, "secret");
    let env = Env::get(Some("other.yml".to_string()), "t".to_string());
    assert_eq!(env.config_file_path, "other.yml");
}

#[test]
fn names_of_tags() {
    let tags = vec![GitlabCommitApi { name: "v1.0.0".to_string() }, GitlabCommitApi { name: "v0.9.0".to_string() }];
    assert_eq!(tag_names(&tags), vec!["v1.0.0", "v0.9.0"]);
}
