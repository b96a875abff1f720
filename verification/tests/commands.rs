use memorybank::commands::{
    direct_matches, new_document, prepare_document, prepare_query_files, text_query,
    validate_input, MAX_DOCUMENT_CHARS, MAX_QUERY_FILES,
};
use memorybank::error::CliError;
use memorybank::models::{AddDocumentInput, DocumentSummary, DocumentType};

fn input(document: &str, summary: &str, files: &[&str], related: &[&str]) -> AddDocumentInput {
    AddDocumentInput {
        document: document.to_string(),
        summary: summary.to_string(),
        related_files: files.iter().map(|f| f.to_string()).collect(),
        related_documents: related.iter().map(|r| r.to_string()).collect(),
        document_type: DocumentType::Research,
    }
}

fn message(r: Result<(), CliError>) -> String {
    match r {
        Err(CliError::Validation(m)) => m,
        Err(e) => panic!("unexpected error {}", e.render()),
        Ok(()) => panic!("unexpected success"),
    }
}

#[test]
fn valid_input_passes() {
    let i = input("body", "sum", &["a.rs"], &["x", "y"]);
    assert!(validate_input(&i, &vec![true, true]).is_ok());
}

#[test]
fn blank_document_and_summary_are_rejected_in_that_order() {
    assert_eq!(
        message(validate_input(&input(" \n\t", "  ", &[], &[]), &vec![])),
        "Field 'document' must not be empty"
    );
    assert_eq!(
        message(validate_input(&input("body", " ", &[], &[]), &vec![])),
        "Field 'summary' must not be empty"
    );
}

#[test]
fn document_length_limit_counts_characters() {
    assert_eq!(MAX_DOCUMENT_CHARS, 10_000);
    let at_limit = "a".repeat(10_000);
    assert!(validate_input(&input(&at_limit, "s", &[], &[]), &vec![]).is_ok());
    let wide_at_limit = "é".repeat(10_000);
    assert!(validate_input(&input(&wide_at_limit, "s", &[], &[]), &vec![]).is_ok());
    let over = "é".repeat(10_001);
    assert_eq!(
        message(validate_input(&input(&over, "s", &[], &[]), &vec![])),
        "Field 'document' must not exceed 10,000 characters (got 10001)"
    );
}

#[test]
fn related_ids_must_be_present_and_exist() {
    assert_eq!(
        message(validate_input(&input("b", "s", &[], &["x", " "]), &vec![true, true])),
        "Field 'related_documents' must not contain empty IDs"
    );
    assert_eq!(
        message(validate_input(
            &input("b", "s", &[], &["550e8400-e29b-41d4-a716-446655440000", " "]),
            &vec![false, true]
        )),
        "Related document '550e8400-e29b-41d4-a716-446655440000' does not exist"
    );
}

#[test]
fn prepared_document_uses_given_id_time_and_normalized_files() {
    let i = input("body", "the summary", &["./src//a.rs", "/repo/b.rs"], &[]);
    let (doc, files) = prepare_document("/repo", &i, "id-9".to_string(), "T0".to_string())
        .ok()
        .expect("prepares");
    assert_eq!(doc.id, "id-9");
    assert_eq!(doc.document_path, "documents/id-9.md");
    assert_eq!(doc.created_at, "T0");
    assert!(!doc.invalidated);
    assert_eq!(doc.invalidation_reason, None);
    assert_eq!(doc.quick_summary, "the summary");
    assert_eq!(doc.document_type, DocumentType::Research);
    assert_eq!(files, vec!["src/a.rs".to_string(), "b.rs".to_string()]);
}

#[test]
fn prepared_document_fails_on_an_empty_related_file() {
    let i = input("body", "s", &["ok.rs", "./"], &[]);
    match prepare_document("/repo", &i, "id".to_string(), "T".to_string()) {
        Err(CliError::Validation(m)) => assert_eq!(m, "Related file path must not be empty"),
        _ => panic!("expected VALIDATION"),
    }
}

#[test]
fn new_documents_get_uuid_v4_ids() {
    let i = input("body", "s", &["x.rs"], &[]);
    let (doc, files) = new_document("/repo", &i).ok().expect("creates");
    assert_eq!(doc.id.len(), 36);
    assert_eq!(&doc.id[14..15], "4");
    assert_eq!(doc.document_path, format!("documents/{}.md", doc.id));
    assert!(!doc.created_at.is_empty());
    assert_eq!(files, vec!["x.rs".to_string()]);
    let (other, _) = new_document("/repo", &i).ok().expect("creates");
    assert_ne!(doc.id, other.id);
}

#[test]
fn query_files_accepts_at_most_three() {
    assert_eq!(MAX_QUERY_FILES, 3);
    let four: Vec<String> = ["a", "b", "c", "d"].iter().map(|s| s.to_string()).collect();
    match prepare_query_files("/repo", &four) {
        Err(CliError::Validation(m)) => assert_eq!(m, "query-files accepts at most 3 files, got 4"),
        _ => panic!("expected VALIDATION"),
    }
    let three: Vec<String> = ["/repo/a.rs", "./b.rs", "c/../d.rs"].iter().map(|s| s.to_string()).collect();
    assert_eq!(
        prepare_query_files("/repo", &three).ok(),
        Some(vec!["a.rs".to_string(), "b.rs".to_string(), "c/../d.rs".to_string()])
    );
}

#[test]
fn new_documents_are_stamped_in_rfc3339_utc() {
    let i = input("body", "s", &[], &[]);
    let (doc, _) = new_document("/repo", &i).ok().expect("creates");
    let t = doc.created_at;
    assert!(t.ends_with("+00:00"));
    assert_eq!(&t[4..5], "-");
    assert_eq!(&t[7..8], "-");
    assert_eq!(&t[10..11], "T");
    assert_eq!(&t[13..14], ":");
    assert_eq!(&t[16..17], ":");
    assert!([25, 29, 32, 35].contains(&t.len()));
}

#[test]
fn blank_text_queries_list_nothing_and_others_are_trimmed() {
    assert_eq!(text_query("  \t "), None);
    assert_eq!(text_query(""), None);
    assert_eq!(text_query("  sqlite migrations \n"), Some("sqlite migrations".to_string()));
}

fn candidate(id: &str) -> DocumentSummary {
    DocumentSummary {
        id: id.to_string(),
        created_at: "t".to_string(),
        invalidated: false,
        invalidation_reason: Some("r".to_string()),
        quick_summary: format!("summary {id}"),
        document_type: DocumentType::Plan,
        related_files: vec!["f.rs".to_string()],
    }
}

#[test]
fn direct_matches_follow_the_hit_order() {
    let candidates = vec![candidate("a"), candidate("b"), candidate("c")];
    let bodies = vec!["body a".to_string(), "body b".to_string(), "body c".to_string()];
    let (direct, texts) = direct_matches(&candidates, &bodies, &vec![2, 0]);
    let ids: Vec<String> = direct.iter().map(|d| d.id.clone()).collect();
    assert_eq!(ids, vec!["c".to_string(), "a".to_string()]);
    assert_eq!(texts, vec!["body c".to_string(), "body a".to_string()]);
    assert_eq!(direct[0].invalidation_reason, Some("r".to_string()));
    assert_eq!(direct[0].related_files, vec!["f.rs".to_string()]);
    assert_eq!(direct[0].quick_summary, "summary c");
}
