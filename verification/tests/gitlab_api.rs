use compat_matrix::gitlab_api::{get_file_raw, get_tags};

#[test]
fn api_urls_get_file_raw() {
    let host = "http://my-url.com";
    let project_id = "foo%2Fbar";
    let file_path = "my-file.json";
    let result = get_file_raw(host, project_id, file_path);
    assert_eq!(
        &result,
        "http://my-url.com/api/v4/projects/foo%2Fbar/repository/files/my-file.json/raw"
    )
}

#[test]
fn api_urls_get_tags() {
    let result = get_tags("http://my-url.com", "42");
    assert_eq!(&result, "http://my-url.com/api/v4/projects/42/repository/tags");
}

#[test]
fn only_the_first_placeholder_is_replaced() {
    assert_eq!(
        get_file_raw("h", ":filePath", "f"),
        "h/api/v4/projects/f/repository/files/:filePath/raw"
    );
    assert_eq!(
        get_file_raw("h/:projectId", "p", "f"),
        "h/p/api/v4/projects/:projectId/repository/files/f/raw"
    );
    assert_eq!(get_tags("", ""), "/api/v4/projects//repository/tags");
}
