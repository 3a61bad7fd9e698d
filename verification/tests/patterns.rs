use compat_matrix::gitlab_ci::{escape, version_of_tag};
use compat_matrix::path::{parse_step, PathStep};
use compat_matrix::versions::stable_major_of;
use regex::Regex;

const STEPS: &[&str] = &[
    "matrix[0]", "matrix[10]", "a_b[3]", "my-field[3]", "job2[1]", "x[1]y[2]", "a1[0]", "[0]", "a[]", "a[0", "a[0]x",
    "plain", "", "a[b]", "a[1][2]", "_[0]", "A[00012]", " a[1]", "a [1]", "a[1] ", "MONGO_VERSION", "a\n[1]",
    "\u{00e9}[1]", "a\u{00e9}[1]", "[[1]", "][2]", "a[1]]", "a[[1]", "a]1[", "1[2]",
];

#[test]
fn array_steps_read_as_the_pattern_says() {
    let pattern = Regex::new(r"(?s)^(?P<field>.+)\[(?P<index>[0-9]+)\]$").unwrap();
    for step in STEPS {
        let expected = match pattern.captures(step) {
            Some(found) => PathStep::Indexed(
                found.name("field").unwrap().as_str().to_string(),
                found.name("index").unwrap().as_str().parse().unwrap(),
            ),
            None => PathStep::Field(step.to_string()),
        };
        assert_eq!(parse_step(step), expected, "{}", step);
    }
}

const TAGS: &[&str] = &[
    "4.4", "mongo:4.4", "v4.0", "5.0", "my_db:1.2.3", "a:1", "a:", ":1", "a:b:1", "a:1:2", "mongo:4.4-rc", "a:.", "...",
    "", "a", "A_b:0.0", "mongo: 4.4", " mongo:4.4", "mongo:4.4 ", "é:1", "a:1é", "_:9",
];

#[test]
fn versions_read_as_the_pattern_says() {
    let pattern = Regex::new(r"^([a-zA-Z_]+:)?(?P<version>[0-9.]+)$").unwrap();
    for tag in TAGS {
        let expected = match pattern.captures(tag) {
            Some(found) => found.name("version").unwrap().as_str(),
            None => tag,
        };
        assert_eq!(version_of_tag(tag), expected, "{}", tag);
    }
}

#[test]
fn slashes_escape_as_the_pattern_says() {
    let slash = Regex::new(r"/").unwrap();
    for text in ["", "/", "a/b", "//a//", "group/sub/project", "no slash", "a%2Fb/c"] {
        assert_eq!(escape(text), slash.replace_all(text, "%2F"), "{}", text);
    }
}

#[test]
fn one_leading_v_is_taken_off() {
    let leading = Regex::new(r"^v").unwrap();
    for tag in ["v1.2.3", "1.2.3", "vv1.2.3", "v", "", "1.2.3v", "V1.2.3"] {
        let stripped = leading.replace(tag, "");
        let expected = semver_major(&stripped);
        assert_eq!(stable_major_of(tag), expected, "{}", tag);
    }
}

fn semver_major(text: &str) -> Option<u64> {
    match semver::Version::parse(text) {
        Ok(version) if version.pre.is_empty() => Some(version.major),
        _ => None,
    }
}
