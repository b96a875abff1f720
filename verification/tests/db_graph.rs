use memorybank::db::{
    collect_related_ids, files_by_document, order_summaries, placeholder_list, related_files_bulk_sql,
    summaries_bulk_sql, GraphDocumentRow,
};
use memorybank::graph::{
    coreference_edges, created_at_of, created_instant, created_instants, members_of_file, node_index, resolve_links,
    shared_file_groups, sorted_ids, CoreferenceEdge, GraphStructure,
};
use memorybank::models::{DocumentSummary, DocumentType};

fn dated_summary(id: &str, created_at: &str, invalidated: bool) -> DocumentSummary {
    DocumentSummary {
        id: id.to_string(),
        created_at: created_at.to_string(),
        invalidated,
        invalidation_reason: None,
        quick_summary: String::new(),
        document_type: DocumentType::Commit,
        related_files: vec![],
    }
}

fn strings(v: &[&str]) -> Vec<String> {
    v.iter().map(|s| s.to_string()).collect()
}

#[test]
fn listings_are_newest_first_and_drop_invalidated() {
    let input = vec![
        dated_summary("a", "2024-01-01", false),
        dated_summary("b", "2024-03-01", true),
        dated_summary("c", "2024-02-01", false),
    ];
    let all: Vec<String> = order_summaries(input.clone(), true).into_iter().map(|s| s.id).collect();
    assert_eq!(all, strings(&["b", "c", "a"]));
    let valid: Vec<String> = order_summaries(input, false).into_iter().map(|s| s.id).collect();
    assert_eq!(valid, strings(&["c", "a"]));
}

#[test]
fn related_ids_exclude_seeds_and_repeats() {
    let seeds = strings(&["s1", "s2"]);
    let found = strings(&["x", "s1", "y", "x", "s2", "y"]);
    let r = collect_related_ids(&seeds, &found);
    assert_eq!(r, strings(&["x", "y"]));
    let other_order = collect_related_ids(&seeds, &strings(&["y", "x"]));
    assert_eq!(other_order, strings(&["y", "x"]));
}

#[test]
fn bulk_queries_number_their_parameters() {
    assert_eq!(placeholder_list(0), "");
    assert_eq!(placeholder_list(1), "?1");
    assert_eq!(placeholder_list(12), "?1, ?2, ?3, ?4, ?5, ?6, ?7, ?8, ?9, ?10, ?11, ?12");
    assert_eq!(
        summaries_bulk_sql(2, false),
        "SELECT id, created_at, invalidated, invalidation_reason, quick_summary, document_type FROM documents WHERE id IN (?1, ?2) AND invalidated = 0 ORDER BY id"
    );
    assert_eq!(
        summaries_bulk_sql(1, true),
        "SELECT id, created_at, invalidated, invalidation_reason, quick_summary, document_type FROM documents WHERE id IN (?1) ORDER BY id"
    );
    assert_eq!(
        related_files_bulk_sql(3),
        "SELECT document_id, file_path FROM document_files WHERE document_id IN (?1, ?2, ?3) ORDER BY document_id, file_path"
    );
}

fn row(id: &str, created_at: &str) -> GraphDocumentRow {
    GraphDocumentRow { id: id.to_string(), created_at: created_at.to_string(), invalidated: false }
}

fn pairs(v: &[(&str, &str)]) -> Vec<(String, String)> {
    v.iter().map(|(a, b)| (a.to_string(), b.to_string())).collect()
}

#[test]
fn graph_nodes_are_ids_in_ascending_order() {
    let docs = vec![row("c", "t3"), row("a", "t1"), row("b", "t2")];
    let ids = sorted_ids(&docs);
    assert_eq!(ids, strings(&["a", "b", "c"]));
    assert_eq!(node_index(&ids, &"b".to_string()), Some(1));
    assert_eq!(node_index(&ids, &"z".to_string()), None);
    assert_eq!(created_at_of(&docs, &"b".to_string()), Some("t2".to_string()));
    assert_eq!(created_at_of(&docs, &"z".to_string()), None);
}

#[test]
fn links_to_unknown_documents_are_dropped() {
    let ids = strings(&["a", "b", "c"]);
    let links = pairs(&[("a", "b"), ("a", "zz"), ("c", "a")]);
    assert_eq!(resolve_links(&ids, &links), vec![(0, 1), (2, 0)]);
}

#[test]
fn files_group_their_documents_within_the_fanout() {
    let ids = strings(&["a", "b", "c", "d"]);
    let memberships = pairs(&[
        ("a", "shared.rs"),
        ("b", "solo.rs"),
        ("b", "shared.rs"),
        ("x", "shared.rs"),
        ("a", "wide.rs"),
        ("b", "wide.rs"),
        ("c", "wide.rs"),
        ("d", "wide.rs"),
    ]);
    assert_eq!(members_of_file(&ids, &memberships, &"shared.rs".to_string()), vec![0, 1]);
    assert_eq!(shared_file_groups(&ids, &memberships, 3), vec![vec![0, 1]]);
    assert_eq!(shared_file_groups(&ids, &memberships, 4), vec![vec![0, 1], vec![0, 1, 2, 3]]);
}

#[test]
fn coreference_edges_join_every_pair_of_a_group() {
    let edges = coreference_edges(&vec![vec![4, 7, 9]]);
    let expected: Vec<(usize, usize, usize)> =
        vec![(4, 7, 3), (4, 9, 3), (7, 4, 3), (7, 9, 3), (9, 4, 3), (9, 7, 3)];
    let got: Vec<(usize, usize, usize)> = edges.iter().map(|e| (e.from, e.to, e.group_size)).collect();
    assert_eq!(got, expected);
    assert!(coreference_edges(&vec![]).is_empty());
}

#[test]
fn graph_structure_combines_nodes_links_and_files() {
    let docs = vec![row("b", "t2"), row("a", "t1"), row("c", "t3")];
    let links = pairs(&[("b", "a"), ("missing", "a")]);
    let files = pairs(&[("a", "f.rs"), ("c", "f.rs")]);
    let g = GraphStructure::build(&docs, &links, &files, 10);
    assert_eq!(g.ids, strings(&["a", "b", "c"]));
    assert_eq!(g.references, vec![(1, 0)]);
    assert_eq!(
        g.coreferences,
        vec![
            CoreferenceEdge { from: 0, to: 2, group_size: 2 },
            CoreferenceEdge { from: 2, to: 0, group_size: 2 }
        ]
    );
    assert_eq!(
        g.created_at,
        vec![Some("t1".to_string()), Some("t2".to_string()), Some("t3".to_string())]
    );
}

#[test]
fn bulk_file_rows_are_grouped_per_document() {
    let ids = strings(&["a", "b", "c"]);
    let rows = pairs(&[("a", "x.rs"), ("b", "y.rs"), ("a", "z.rs"), ("q", "w.rs")]);
    let grouped = files_by_document(&ids, &rows);
    assert_eq!(grouped, vec![strings(&["x.rs", "z.rs"]), strings(&["y.rs"]), vec![]]);
}

#[test]
fn listings_keep_the_order_of_documents_created_together() {
    let input = vec![
        dated_summary("first", "2024-01-01", false),
        dated_summary("newer", "2024-02-01", false),
        dated_summary("second", "2024-01-01", false),
        dated_summary("third", "2024-01-01", true),
    ];
    let ids: Vec<String> = order_summaries(input, true).into_iter().map(|s| s.id).collect();
    assert_eq!(ids, strings(&["newer", "first", "second", "third"]));
}

#[test]
fn creation_times_read_as_instants() {
    assert_eq!(created_instant("2024-05-01T10:00:00+00:00"), Some((1714557600, 0)));
    assert_eq!(created_instant("2024-05-01T10:00:00.5+02:00"), Some((1714550400, 500_000_000)));
    assert_eq!(created_instant("not a date"), None);
    let times = vec![Some("2024-05-01T10:00:00+00:00".to_string()), None, Some("x".to_string())];
    assert_eq!(created_instants(&times), vec![Some((1714557600, 0)), None, None]);
}
