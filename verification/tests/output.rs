use memorybank::models::{Document, DocumentSummary, DocumentType};
use memorybank::output::{
    print_add_success, print_init, print_query_results, print_read_document, BodyPreview,
};

fn doc() -> Document {
    Document {
        id: "d1".to_string(),
        document_path: "documents/d1.md".to_string(),
        created_at: "2024-05-01T10:00:00+00:00".to_string(),
        invalidated: false,
        invalidation_reason: None,
        quick_summary: "first summary".to_string(),
        document_type: DocumentType::Commit,
    }
}

fn listed_summary(id: &str, invalidated: bool, files: &[&str]) -> DocumentSummary {
    DocumentSummary {
        id: id.to_string(),
        created_at: "2024-05-02T00:00:00+00:00".to_string(),
        invalidated,
        invalidation_reason: if invalidated { Some("old".to_string()) } else { None },
        quick_summary: format!("summary of {id}"),
        document_type: DocumentType::Research,
        related_files: files.iter().map(|f| f.to_string()).collect(),
    }
}

#[test]
fn init_report_lists_the_layout() {
    let mut out = String::from("> ");
    print_init(&mut out, "/repo", false, "/repo/.memory/sql/000001_init.sql");
    let expected = "> # Memory Bank Initialized\n\n\
- **Root:** `/repo`\n\
- **Memory directory:** `/repo/.memory`\n\
- **Documents directory:** `/repo/.memory/documents`\n\
- **SQL directory:** `/repo/.memory/sql`\n\
- **Database:** `/repo/.memory/memorybank.sqlite3`\n\
- **Init patch:** `/repo/.memory/sql/000001_init.sql`\n\
- **Rebuilt:** `false`\n";
    assert_eq!(out, expected);
}

#[test]
fn add_report_shows_metadata_and_lists() {
    let mut out = String::new();
    print_add_success(
        &mut out,
        &doc(),
        &vec!["src/a.rs".to_string()],
        &vec![],
        "/repo/.memory/sql/p1_d1_add.sql",
    );
    let expected = "# Memory Document Added\n\n\
- **ID:** `d1`\n\
- **Type:** COMMIT\n\
- **Created:** `2024-05-01T10:00:00+00:00`\n\
- **Summary:** first summary\n\
- **Path:** `documents/d1.md`\n\
- **SQL patch:** `/repo/.memory/sql/p1_d1_add.sql`\n\
\n## Related files\n\n- `src/a.rs`\n\
\n## Related documents\n\nNone.\n";
    assert_eq!(out, expected);
}

#[test]
fn read_report_trims_the_body_end_and_lists_suggestions() {
    let mut d = doc();
    d.invalidated = true;
    d.invalidation_reason = Some("superseded".to_string());
    let mut out = String::new();
    print_read_document(
        &mut out,
        &d,
        "body text\n\n  ",
        &vec![],
        &vec![listed_summary("r1", false, &[]), listed_summary("r2", true, &[])],
    );
    let expected = "# Memory Document d1\n\n\
- **Type:** COMMIT\n\
- **Created:** `2024-05-01T10:00:00+00:00`\n\
- **Invalidated:** `true`\n\
- **Invalidation reason:** superseded\n\
- **Summary:** first summary\n\
- **Path:** `documents/d1.md`\n\
\n## Related files\n\nNone.\n\
\n## Document\n\nbody text\n\
\n## Related Suggestions\n\n\
- **ID:** `r1` — RESEARCH — summary of r1\n\
- **ID:** `r2` — RESEARCH — summary of r2 (invalidated)\n";
    assert_eq!(out, expected);
}

#[test]
fn empty_query_results_say_so() {
    let mut out = String::new();
    print_query_results(&mut out, "Plans", &vec![], &vec![], None);
    let expected = "# Query Results: Plans\n\n## Direct Matches\n\nNo direct matches.\n\
\n## Related Suggestions\n\nNo related suggestions.\n\
\n---\n\nUse `memorybank read <id>` to read a document's full content.\n";
    assert_eq!(out, expected);
}

#[test]
fn query_results_show_files_and_short_previews_whole() {
    let direct = vec![listed_summary("a", false, &["x.rs", "y.rs"]), listed_summary("b", true, &[])];
    let bodies = vec!["short body  \n".to_string()];
    let mut out = String::new();
    print_query_results(
        &mut out,
        "Files",
        &direct,
        &vec![],
        Some(BodyPreview { bodies: &bodies, limit: 20 }),
    );
    let expected = [
        "# Query Results: Files\n\n## Direct Matches\n\n",
        "- **ID:** `a`\n",
        "  - **Type:** RESEARCH\n",
        "  - **Created:** `2024-05-02T00:00:00+00:00`\n",
        "  - **Invalidated:** `false`\n",
        "  - **Summary:** summary of a\n",
        "  - **Related files:** `x.rs`, `y.rs`\n",
        "\n---\n\nshort body\n\n",
        "- **ID:** `b`\n",
        "  - **Type:** RESEARCH\n",
        "  - **Created:** `2024-05-02T00:00:00+00:00`\n",
        "  - **Invalidated:** `true`\n",
        "  - **Invalidation reason:** old\n",
        "  - **Summary:** summary of b\n",
        "  - **Related files:** none\n",
        "\n## Related Suggestions\n\nNo related suggestions.\n",
        "\n---\n\nUse `memorybank read <id>` to read a document's full content.\n",
    ]
    .concat();
    assert_eq!(out, expected);
}

#[test]
fn long_previews_are_cut_at_the_limit_with_a_grouped_count() {
    let direct = vec![listed_summary("long", false, &[])];
    let body = format!("{}{}", "é".repeat(2000), "TAIL");
    let bodies = vec![body];
    let mut out = String::new();
    print_query_results(
        &mut out,
        "Research",
        &direct,
        &vec![],
        Some(BodyPreview { bodies: &bodies, limit: 2000 }),
    );
    assert!(out.contains(&format!("\n---\n\n{}\n", "é".repeat(2000))));
    assert!(!out.contains("TAIL"));
    assert!(out.contains(
        "\n... (truncated to 2,000 characters. Use `memorybank read long` to read the full document.)\n"
    ));
}

#[test]
fn preview_at_exactly_the_limit_is_not_truncated() {
    let direct = vec![listed_summary("exact", false, &[])];
    let bodies = vec!["m".repeat(50)];
    let mut out = String::new();
    print_query_results(
        &mut out,
        "Research",
        &direct,
        &vec![],
        Some(BodyPreview { bodies: &bodies, limit: 50 }),
    );
    assert!(out.contains(&format!("{}\n", "m".repeat(50))));
    assert!(!out.contains("truncated"));
}
