use memorybank::scorer::{
    score_candidates, score_hit, sort_hits, ScoredHit, EXACT_BODY_BONUS, EXACT_SUMMARY_BONUS,
    SUMMARY_MATCH_BONUS,
};

#[test]
fn exact_summary_match_outranks_body_only() {
    let candidates = vec![
        (0, "authentication pipeline", "some other text"),
        (1, "unrelated", "authentication pipeline details"),
    ];
    let hits = score_candidates("authentication pipeline", &candidates);
    assert_eq!(hits.len(), 2);
    assert!(hits[0].score > hits[1].score);
    assert_eq!(hits[0].original_index, 0);
}

#[test]
fn fuzzy_match_finds_typo() {
    let candidates = vec![(0, "authentication pipeline", "body")];
    let hits = score_candidates("authentcation", &candidates);
    assert_eq!(hits.len(), 1);
}

#[test]
fn short_query_only_matches_exact() {
    let candidates = vec![(0, "ab", "body"), (1, "a", "b")];
    let hits = score_candidates("ab", &candidates);
    assert_eq!(hits.len(), 1);
    assert_eq!(hits[0].original_index, 0);
}

#[test]
fn empty_query_returns_nothing() {
    let candidates = vec![(0, "summary", "body")];
    let hits = score_candidates("  ", &candidates);
    assert!(hits.is_empty());
}

#[test]
fn noise_query_returns_nothing() {
    let candidates = vec![(0, "rollback strategy", "planning text")];
    let hits = score_candidates("xyzqwerty12345nonsense", &candidates);
    assert!(hits.is_empty());
}

#[test]
fn deterministic_sort_for_equal_scores() {
    let candidates = vec![
        (0, "topic alpha", "body one"),
        (1, "topic alpha", "body two"),
    ];
    let hits1 = score_candidates("topic alpha", &candidates);
    let hits2 = score_candidates("topic alpha", &candidates);
    assert_eq!(hits1.len(), 2);
    assert_eq!(hits2.len(), 2);
    assert_eq!(hits1[0].original_index, hits2[0].original_index);
    assert_eq!(hits1[1].original_index, hits2[1].original_index);
}

#[test]
fn equal_hits_come_out_by_original_index() {
    let candidates = vec![
        (7, "topic alpha", "body"),
        (3, "topic alpha", "body"),
        (5, "topic alpha", "body"),
    ];
    let hits = score_candidates("topic alpha", &candidates);
    let order: Vec<usize> = hits.iter().map(|h| h.original_index).collect();
    assert_eq!(order, vec![3, 5, 7]);
}

#[test]
fn query_case_is_ignored_for_exact_matches() {
    let candidates = vec![(0, "Authentication Pipeline", "text")];
    let hits = score_candidates("  AUTHENTICATION  ", &candidates);
    assert_eq!(hits.len(), 1);
    assert!(hits[0].exact_summary);
    assert!(hits[0].score >= EXACT_SUMMARY_BONUS + SUMMARY_MATCH_BONUS);
}

#[test]
fn body_only_exact_match_gets_body_bonus() {
    let candidates = vec![(4, "unrelated", "the Rollback plan")];
    let hits = score_candidates("rollback", &candidates);
    assert_eq!(hits.len(), 1);
    assert!(!hits[0].exact_summary);
    assert!(hits[0].exact_body);
    assert!(hits[0].score >= EXACT_BODY_BONUS);
    assert!(hits[0].score < EXACT_SUMMARY_BONUS);
    assert_eq!(hits[0].original_index, 4);
    assert_eq!(hits[0].id, "");
}

#[test]
fn two_byte_query_of_one_wide_char_counts_bytes() {
    // "é" is two bytes: shorter than the fuzzy threshold, so only exact matches count.
    let candidates = vec![(0, "café", "x"), (1, "ecole", "x")];
    let hits = score_candidates("é", &candidates);
    assert_eq!(hits.len(), 1);
    assert_eq!(hits[0].original_index, 0);
}

fn chars(s: &str) -> Vec<char> {
    s.chars().collect()
}

#[test]
fn score_hit_combines_fuzzy_and_bonuses() {
    let q = chars("plan");
    let hit = score_hit(&q, &chars("the plan"), &chars("other"), Some(70), Some(90), true, 2)
        .expect("exact summary match");
    assert_eq!(hit.score, 90 + SUMMARY_MATCH_BONUS + EXACT_SUMMARY_BONUS);
    assert!(hit.exact_summary);
    assert!(!hit.exact_body);
    assert_eq!(hit.original_index, 2);

    let body_only = score_hit(&q, &chars("nothing"), &chars("a plan"), None, Some(40), false, 1)
        .expect("exact body match");
    assert_eq!(body_only.score, 40 + EXACT_BODY_BONUS);
    assert!(body_only.exact_body);
}

#[test]
fn score_hit_fuzzy_only_needs_threshold_and_permission() {
    let q = chars("xyz");
    let summary = chars("abc");
    let body = chars("def");
    let hit = score_hit(&q, &summary, &body, Some(60), None, true, 0).expect("fuzzy hit");
    assert_eq!(hit.score, 60 + SUMMARY_MATCH_BONUS);
    assert!(score_hit(&q, &summary, &body, Some(60), None, false, 0).is_none());
    assert!(score_hit(&q, &summary, &body, None, Some(49), true, 0).is_none());
    let body_fuzzy = score_hit(&q, &summary, &body, None, Some(50), true, 0).expect("at threshold");
    assert_eq!(body_fuzzy.score, 50);
    assert!(score_hit(&q, &summary, &body, None, None, true, 0).is_none());
}

fn hit(score: u32, exact_summary: bool, exact_body: bool, original_index: usize) -> ScoredHit {
    ScoredHit { id: String::new(), score, exact_summary, exact_body, original_index }
}

#[test]
fn sort_hits_orders_by_score_exactness_then_index() {
    let hits = vec![
        hit(100, false, false, 0),
        hit(200, false, true, 5),
        hit(200, true, false, 9),
        hit(200, false, true, 1),
        hit(300, false, false, 4),
    ];
    let sorted = sort_hits(hits);
    let order: Vec<(u32, usize)> = sorted.iter().map(|h| (h.score, h.original_index)).collect();
    assert_eq!(order, vec![(300, 4), (200, 9), (200, 1), (200, 5), (100, 0)]);
}
