use memorybank::models::{Document, DocumentType};
use memorybank::sql_log::{
    checksum, hex_encode, init_patch_sql, manifest_entries, manifests_match, patch_file_name,
    patch_file_names, sql_optional_string, sql_string, SqlPatchLog, INIT_PATCH_NAME, SCHEMA_SQL,
};
use memorybank::store::{document_file_path, render_insert_sql};

#[test]
fn sql_strings_double_single_quotes() {
    assert_eq!(sql_string("plain"), "'plain'");
    assert_eq!(sql_string("it's"), "'it''s'");
    assert_eq!(sql_string("''"), "''''''");
    assert_eq!(sql_string(""), "''");
    assert_eq!(sql_optional_string(Some("a'b")), "'a''b'");
    assert_eq!(sql_optional_string(None), "NULL");
}

#[test]
fn hex_encoding_is_lowercase_two_digits_per_byte() {
    assert_eq!(hex_encode(&[0x00, 0x0f, 0xa0, 0xff]), "000fa0ff");
    assert_eq!(hex_encode(&[]), "");
}

#[test]
fn checksums_are_prefixed_sha256_digests() {
    assert_eq!(
        checksum(b""),
        "sha256:e3b0c44298fc1c149afbf4c8996fb92427ae41e4649b934ca495991b7852b855"
    );
    assert_eq!(
        checksum(b"abc"),
        "sha256:ba7816bf8f01cfea414140de5dae2223b00361a396177a9cb410ff61f20015ad"
    );
}

#[test]
fn init_patch_is_header_then_schema() {
    let sql = init_patch_sql();
    assert_eq!(sql, format!("-- memorybank patch: init\n\n{SCHEMA_SQL}"));
    assert_eq!(INIT_PATCH_NAME, "000001_init.sql");
    assert!(SCHEMA_SQL.contains("CREATE TABLE IF NOT EXISTS documents"));
}

#[test]
fn patch_files_are_the_sql_names_in_code_point_order() {
    let names = vec![
        "p20240102T000000000Z_b_add.sql".to_string(),
        "notes.txt".to_string(),
        "000001_init.sql".to_string(),
        ".sql".to_string(),
        "p20240101T000000000Z_a_add.sql".to_string(),
        "P_upper.sql".to_string(),
    ];
    let patches = patch_file_names(&names);
    assert_eq!(
        patches,
        vec![
            "000001_init.sql".to_string(),
            "P_upper.sql".to_string(),
            "p20240101T000000000Z_a_add.sql".to_string(),
            "p20240102T000000000Z_b_add.sql".to_string(),
        ]
    );
}

#[test]
fn manifest_numbers_patches_from_one() {
    let names = vec!["000001_init.sql".to_string(), "p1_x_add.sql".to_string()];
    let contents = vec![b"".to_vec(), b"abc".to_vec()];
    let entries = manifest_entries("/r/.memory/sql", &names, &contents);
    assert_eq!(entries.len(), 2);
    assert_eq!(entries[0].ordinal, 1);
    assert_eq!(entries[1].ordinal, 2);
    assert_eq!(entries[1].filename, "p1_x_add.sql");
    assert_eq!(entries[1].path, "/r/.memory/sql/p1_x_add.sql");
    assert_eq!(entries[1].checksum, checksum(b"abc"));

    let applied: Vec<(i64, String, String)> = entries
        .iter()
        .map(|e| (e.ordinal, e.filename.clone(), e.checksum.clone()))
        .collect();
    assert!(manifests_match(&entries, &applied));

    let mut changed = applied.clone();
    changed[0].2 = checksum(b"changed");
    assert!(!manifests_match(&entries, &changed));
    assert!(!manifests_match(&entries, &applied[..1].to_vec()));
    assert!(manifests_match(&vec![], &vec![]));
}

#[test]
fn patch_names_start_with_p_and_end_with_id_and_kind() {
    assert_eq!(
        patch_file_name("20240101T101010123Z", "abc", "add"),
        "p20240101T101010123Z_abc_add.sql"
    );
    let log = SqlPatchLog::new("/repo");
    assert_eq!(log.root, "/repo");
    let name = log.new_patch_file_name("add", "doc-1");
    assert!(name.starts_with('p'));
    assert!(name.ends_with("_doc-1_add.sql"));
}

fn sample_document(summary: &str) -> Document {
    Document {
        id: "id1".to_string(),
        document_path: "documents/id1.md".to_string(),
        created_at: "2024-01-01T00:00:00+00:00".to_string(),
        invalidated: false,
        invalidation_reason: None,
        quick_summary: summary.to_string(),
        document_type: DocumentType::Plan,
    }
}

#[test]
fn insert_patch_records_document_files_and_links() {
    let sql = render_insert_sql(
        &sample_document("it's a plan"),
        &vec!["src/o'k.rs".to_string()],
        &vec!["other".to_string()],
    );
    let expected = "-- memorybank patch: add\n\
-- id: id1\n\
-- created_at: 2024-01-01T00:00:00+00:00\n\n\
BEGIN;\n\
INSERT INTO documents (id, document_path, created_at, invalidated, invalidation_reason, quick_summary, document_type) VALUES ('id1', 'documents/id1.md', '2024-01-01T00:00:00+00:00', 0, NULL, 'it''s a plan', 'PLAN');\n\
INSERT INTO document_files (document_id, file_path) VALUES ('id1', 'src/o''k.rs');\n\
INSERT INTO document_links (from_document_id, to_document_id) VALUES ('id1', 'other');\n\
COMMIT;\n";
    assert_eq!(sql, expected);
}

#[test]
fn document_bodies_live_under_the_memory_dir() {
    assert_eq!(document_file_path("/repo", &sample_document("s")), "/repo/.memory/documents/id1.md");
}

#[test]
fn patches_of_different_documents_never_share_a_name() {
    let a = patch_file_name("20240101T000000000Z", "doc-a", "add");
    let b = patch_file_name("20240101T000000000Z", "doc-b", "add");
    assert_ne!(a, b);
}

#[test]
fn replay_order_depends_on_the_names_alone() {
    let one = vec!["b.sql".to_string(), "a.sql".to_string(), "c.sql".to_string()];
    let two = vec!["c.sql".to_string(), "b.sql".to_string(), "a.sql".to_string()];
    assert_eq!(patch_file_names(&one), patch_file_names(&two));
    assert_eq!(patch_file_names(&one), vec!["a.sql".to_string(), "b.sql".to_string(), "c.sql".to_string()]);
}

#[test]
fn checksums_are_71_characters_of_lowercase_hex_after_the_prefix() {
    for content in [&b""[..], &b"some patch"[..], &[0xffu8; 100][..]] {
        let c = checksum(content);
        assert_eq!(c.len(), 71);
        assert!(c.starts_with("sha256:"));
        assert!(c[7..].chars().all(|ch| ch.is_ascii_digit() || ('a'..='f').contains(&ch)));
    }
}

#[test]
fn new_patch_names_carry_a_utc_stamp() {
    let name = SqlPatchLog::new("/r").new_patch_file_name("add", "id7");
    let stamp = &name[1..name.len() - "_id7_add.sql".len()];
    assert_eq!(stamp.len(), 19);
    let chars: Vec<char> = stamp.chars().collect();
    assert!(chars[..8].iter().all(|c| c.is_ascii_digit()));
    assert_eq!(chars[8], 'T');
    assert!(chars[9..18].iter().all(|c| c.is_ascii_digit()));
    assert_eq!(chars[18], 'Z');
}
