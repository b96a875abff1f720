use memorybank::config::{default_query_files_preview_chars, default_query_text_preview_chars, Config};
use memorybank::db::document_type_or_commit;
use memorybank::error::{validation, CliError};
use memorybank::models::{Document, DocumentSummary, DocumentType};

#[test]
fn errors_render_with_stable_codes() {
    let cases = vec![
        (CliError::NotInitialized("a".to_string()), "NOT_INITIALIZED"),
        (CliError::NotFound("b".to_string()), "NOT_FOUND"),
        (CliError::Validation("c".to_string()), "VALIDATION"),
        (CliError::Storage("d".to_string()), "STORAGE"),
        (CliError::Database("e".to_string()), "DATABASE"),
        (CliError::Replay("f".to_string()), "REPLAY"),
    ];
    for (err, code) in cases {
        assert_eq!(err.code(), code);
        let rendered = err.render();
        assert_eq!(rendered, format!("ERROR: {} {}", code, err.message()));
    }
    let v = validation("Field 'summary' must not be empty");
    assert_eq!(v.render(), "ERROR: VALIDATION Field 'summary' must not be empty");
}

#[test]
fn document_types_round_trip_through_their_names() {
    for t in [DocumentType::Commit, DocumentType::Plan, DocumentType::Research] {
        assert_eq!(DocumentType::from_db(t.as_str()), Some(t));
    }
    assert_eq!(DocumentType::Commit.as_str(), "COMMIT");
    assert_eq!(DocumentType::Plan.as_str(), "PLAN");
    assert_eq!(DocumentType::Research.as_str(), "RESEARCH");
    assert_eq!(DocumentType::from_db("plan"), None);
    assert_eq!(DocumentType::from_db(""), None);
}

#[test]
fn unknown_stored_types_read_as_commit() {
    assert_eq!(document_type_or_commit("RESEARCH"), DocumentType::Research);
    assert_eq!(document_type_or_commit("NOTE"), DocumentType::Commit);
}

#[test]
fn config_defaults_match_documented_limits() {
    assert_eq!(default_query_files_preview_chars(), 2000);
    assert_eq!(default_query_text_preview_chars(), 200);
    let c = Config::default();
    assert_eq!(c.query_files_preview_chars, 2000);
    assert_eq!(c.query_text_preview_chars, 200);
}

#[test]
fn summary_of_document_keeps_metadata_without_files() {
    let doc = Document {
        id: "id-1".to_string(),
        document_path: "documents/id-1.md".to_string(),
        created_at: "2024-01-01T00:00:00+00:00".to_string(),
        invalidated: true,
        invalidation_reason: Some("stale".to_string()),
        quick_summary: "sum".to_string(),
        document_type: DocumentType::Plan,
    };
    let s = DocumentSummary::from_document(doc);
    assert_eq!(s.id, "id-1");
    assert_eq!(s.created_at, "2024-01-01T00:00:00+00:00");
    assert!(s.invalidated);
    assert_eq!(s.invalidation_reason, Some("stale".to_string()));
    assert_eq!(s.quick_summary, "sum");
    assert_eq!(s.document_type, DocumentType::Plan);
    assert!(s.related_files.is_empty());
}
