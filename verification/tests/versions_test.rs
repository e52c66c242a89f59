use go_plugin::tags::catalog;
use go_plugin::version_file::{extract_version, version_file_names};

fn sample_tags() -> Vec<String> {
    vec![
        "go1.2.3^{}".to_string(),
        "go1".to_string(),
        "go1.19.11".to_string(),
        "go1.2".to_string(),
        "go1.11.13".to_string(),
        "go1.9rc2".to_string(),
        "weekly.2012-01-15".to_string(),
        "release.r60".to_string(),
        "gotip".to_string(),
    ]
}

#[test]
fn loads_versions_from_git() {
    let output = catalog(&sample_tags());

    assert!(!output.versions.is_empty());
}

#[test]
fn sets_latest_alias() {
    let output = catalog(&sample_tags());

    assert!(output.latest.is_some());
    assert_eq!(
        output.latest.as_deref(),
        output.versions.last().map(|v| v.semantic.as_str())
    );
    assert_eq!(output.latest.as_deref(), Some("1.19.11"));
}

#[test]
fn excludes_artifacts_and_sorts() {
    let output = catalog(&sample_tags());
    let semantics: Vec<&str> = output.versions.iter().map(|v| v.semantic.as_str()).collect();

    assert_eq!(
        semantics,
        vec!["1.0.0", "1.2.0", "1.9.0-rc2", "1.11.13", "1.19.11"]
    );
}

#[test]
fn empty_tag_list_has_no_latest() {
    let output = catalog(&Vec::new());

    assert!(output.versions.is_empty());
    assert!(output.latest.is_none());
}

#[test]
fn dedups_equal_versions() {
    let tags = vec![
        "go1.2".to_string(),
        "go1.2.0".to_string(),
        "go1.2.0".to_string(),
        "go1.3".to_string(),
    ];
    let output = catalog(&tags);
    let semantics: Vec<&str> = output.versions.iter().map(|v| v.semantic.as_str()).collect();

    assert_eq!(semantics, vec!["1.2.0", "1.3.0"]);
    assert_eq!(output.latest.as_deref(), Some("1.3.0"));
}

#[test]
fn drops_malformed_and_oversized_tokens() {
    let tags = vec![
        "go1.2.x".to_string(),
        "go.1.2".to_string(),
        "go12345678901234567890".to_string(),
        "go1.19.1beta".to_string(),
    ];
    let output = catalog(&tags);
    let semantics: Vec<&str> = output.versions.iter().map(|v| v.semantic.as_str()).collect();

    // only the bare-marker prerelease is a well-formed token
    assert_eq!(semantics, vec!["1.19.1-beta"]);
}

#[test]
fn detects_declaration_files() {
    assert_eq!(version_file_names(), vec!["go.mod", "go.work"]);
}

#[test]
fn parse_gomod_file() {
    let output = extract_version(
        "go.mod",
        r#"
module github.com/moonrepo/go-plugin

go 1.20

require (
    github.com/99designs/gqlgen v0.17.25
)"#,
    );

    assert_eq!(output.unwrap(), "1.20.0");
}

#[test]
fn returns_no_version_from_gomod() {
    let output = extract_version(
        "go.mod",
        r#"
module github.com/moonrepo/go-plugin

require (
    github.com/99designs/gqlgen v0.17.25
)"#,
    );

    assert_eq!(output, None);
}

#[test]
fn parse_gowork_file() {
    let output = extract_version(
        "go.work",
        r#"
go 1.18

use (
    ./hello
    ./example
)"#,
    );

    assert_eq!(output.unwrap(), "1.18.0");
}

#[test]
fn returns_no_version_from_gowork() {
    let output = extract_version(
        "go.work",
        r#"
use (
    ./hello
    ./example
)"#,
    );

    assert_eq!(output, None);
}

#[test]
fn ignores_unrecognized_files() {
    assert_eq!(extract_version("main.go", "go 1.20\n"), None);
}

#[test]
fn trims_declared_token() {
    assert_eq!(extract_version("go.mod", "go 1.20 \r\nmodule x\n").unwrap(), "1.20.0");
}
