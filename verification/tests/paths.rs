use memorybank::error::CliError;
use memorybank::paths::{
    config_path, database_path, documents_dir, join, memory_dir, normalize_related_file,
    require_initialized, resolve_root, sql_dir,
};

fn validation_message(r: Result<String, CliError>) -> String {
    match r {
        Err(CliError::Validation(m)) => m,
        Err(e) => panic!("unexpected error {}", e.render()),
        Ok(p) => panic!("unexpected success {p}"),
    }
}

#[test]
fn layout_paths_live_under_memory_dir() {
    assert_eq!(memory_dir("/repo"), "/repo/.memory");
    assert_eq!(documents_dir("/repo"), "/repo/.memory/documents");
    assert_eq!(sql_dir("/repo"), "/repo/.memory/sql");
    assert_eq!(database_path("/repo"), "/repo/.memory/memorybank.sqlite3");
    assert_eq!(config_path("/repo/"), "/repo/.memory/config.json");
}

#[test]
fn join_follows_path_join_rules() {
    assert_eq!(join("a", "b"), "a/b");
    assert_eq!(join("a/", "b"), "a/b");
    assert_eq!(join("", "b"), "b");
    assert_eq!(join("a", "/abs"), "/abs");
}

#[test]
fn relative_paths_are_kept_without_dot_and_empty_parts() {
    assert_eq!(normalize_related_file("/repo", "src/main.rs").ok(), Some("src/main.rs".to_string()));
    assert_eq!(normalize_related_file("/repo", "./src//lib.rs").ok(), Some("src/lib.rs".to_string()));
    assert_eq!(normalize_related_file("/repo", "../up.rs").ok(), Some("../up.rs".to_string()));
}

#[test]
fn absolute_paths_under_root_become_relative() {
    assert_eq!(normalize_related_file("/repo", "/repo/src/a.rs").ok(), Some("src/a.rs".to_string()));
    assert_eq!(normalize_related_file("/repo/", "/repo/./b.rs").ok(), Some("b.rs".to_string()));
}

#[test]
fn absolute_paths_outside_root_lose_the_leading_slash() {
    assert_eq!(normalize_related_file("/repo", "/other/x.rs").ok(), Some("other/x.rs".to_string()));
    assert_eq!(
        normalize_related_file("/repo", "/repository/x.rs").ok(),
        Some("repository/x.rs".to_string())
    );
}

#[test]
fn normalizing_twice_changes_nothing() {
    let once = normalize_related_file("/repo", "/repo/./a//b/../c.rs").ok().expect("normalizes");
    let twice = normalize_related_file("/repo", &once).ok().expect("normalizes again");
    assert_eq!(once, "a/b/../c.rs");
    assert_eq!(twice, once);
}

#[test]
fn empty_related_paths_are_rejected() {
    let expected = "Related file path must not be empty";
    assert_eq!(validation_message(normalize_related_file("/repo", "")), expected);
    assert_eq!(validation_message(normalize_related_file("/repo", "./")), expected);
    assert_eq!(validation_message(normalize_related_file("/repo", "/repo")), expected);
    assert_eq!(validation_message(normalize_related_file("/repo", "/")), expected);
}

#[test]
fn require_initialized_needs_all_three_directories() {
    assert!(require_initialized("/repo", true, true, true).is_ok());
    for flags in [(false, true, true), (true, false, true), (true, true, false)] {
        match require_initialized("/repo", flags.0, flags.1, flags.2) {
            Err(CliError::NotInitialized(m)) => {
                assert_eq!(m, "Memory bank is not initialized at '/repo/.memory'")
            }
            _ => panic!("expected NOT_INITIALIZED"),
        }
    }
}

#[test]
fn resolve_root_reports_missing_and_failed_roots() {
    match resolve_root("/nope", false, Ok("/nope".to_string())) {
        Err(CliError::Storage(m)) => assert_eq!(m, "Root '/nope' does not exist"),
        _ => panic!("expected STORAGE"),
    }
    match resolve_root("x", true, Err("denied".to_string())) {
        Err(CliError::Storage(m)) => assert_eq!(m, "Unable to canonicalize root: denied"),
        _ => panic!("expected STORAGE"),
    }
    assert_eq!(resolve_root(".", true, Ok("/home/me".to_string())).ok(), Some("/home/me".to_string()));
}

#[test]
fn normalized_paths_are_relative_with_named_parts() {
    for input in ["/repo/./a//b/../c.rs", "./x/", "/elsewhere//y", "a/./b"] {
        let s = normalize_related_file("/repo", input).ok().expect("normalizes");
        assert!(!s.is_empty());
        assert!(!s.starts_with('/'));
        assert!(s.split('/').all(|part| !part.is_empty() && part != "."));
    }
}
