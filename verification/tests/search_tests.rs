use redrob_vectordb::models::{ChunkRecord, SearchFilters, SearchRequest};
use redrob_vectordb::search::{
    all_distinct, fts_expression, fuse_rankings, passes_filters, plan_search, FusedHit,
    ResultCollector,
};

fn chunk(id: u64, path: &str, extension: &str) -> ChunkRecord {
    ChunkRecord {
        id,
        document_id: 1,
        chunk_index: 0,
        content: "content".into(),
        page: None,
        heading: None,
        path: path.into(),
        name: "name".into(),
        extension: extension.into(),
        modified_at: "2026-01-01T00:00:00Z".into(),
    }
}

#[test]
fn hits_found_by_both_rankings_rank_first() {
    let hits = fuse_rankings(&vec![1, 2, 3], &vec![3, 4]);
    let ids: Vec<u64> = hits.iter().map(|h| h.id).collect();
    assert_eq!(ids[0], 3);
    assert_eq!(ids.len(), 4);
    assert_eq!(hits[0], FusedHit { id: 3, vector_rank: Some(2), keyword_rank: Some(0) });
    // 1 (vector rank 0) ties with 4 (keyword rank 1)? no: 1/61 > 1/62
    assert_eq!(ids[1], 1);
    assert_eq!(ids[2], 2);
    assert_eq!(ids[3], 4);
}

#[test]
fn fusion_of_empty_rankings_is_empty() {
    assert!(fuse_rankings(&vec![], &vec![]).is_empty());
}

#[test]
fn equal_scores_keep_first_seen_order() {
    let hits = fuse_rankings(&vec![7], &vec![9]);
    let ids: Vec<u64> = hits.iter().map(|h| h.id).collect();
    assert_eq!(ids, vec![7, 9]);
}

#[test]
fn blank_queries_are_not_searched() {
    let request = SearchRequest { query: "   ".into(), limit: 10, filters: SearchFilters::default() };
    assert!(plan_search(&request).is_none());
}

#[test]
fn search_limits_are_clamped() {
    let plan = plan_search(&SearchRequest { query: " india ".into(), limit: 0, filters: SearchFilters::default() }).unwrap();
    assert_eq!(plan.query, "india");
    assert_eq!(plan.limit, 1);
    assert_eq!(plan.candidate_limit, 20);
    let plan = plan_search(&SearchRequest { query: "q".into(), limit: 500, filters: SearchFilters::default() }).unwrap();
    assert_eq!(plan.limit, 50);
    assert_eq!(plan.candidate_limit, 160);
    let plan = plan_search(&SearchRequest { query: "q".into(), limit: 12, filters: SearchFilters::default() }).unwrap();
    assert_eq!(plan.candidate_limit, 48);
}

#[test]
fn filters_match_extension_ignoring_case_and_path_prefix() {
    let filters = SearchFilters { extensions: vec!["PDF".into()], path_prefix: Some("/docs".into()) };
    assert!(passes_filters(&filters, &chunk(1, "/docs/a.pdf", "pdf")));
    assert!(!passes_filters(&filters, &chunk(1, "/other/a.pdf", "pdf")));
    assert!(!passes_filters(&filters, &chunk(1, "/docs/a.txt", "txt")));
    assert!(passes_filters(&SearchFilters::default(), &chunk(1, "/x", "md")));
}

#[test]
fn collector_stops_at_the_limit_and_skips_missing_passages() {
    let filters = SearchFilters::default();
    let mut collector = ResultCollector::new(2);
    let hit = |id| FusedHit { id, vector_rank: Some(0), keyword_rank: None };
    assert!(!collector.offer(hit(1), None, &filters));
    assert!(!collector.offer(hit(2), Some(chunk(2, "/a", "md")), &filters));
    assert!(collector.offer(hit(3), Some(chunk(3, "/b", "md")), &filters));
    let ids: Vec<u64> = collector.results.iter().map(|r| r.chunk.id).collect();
    assert_eq!(ids, vec![2, 3]);
    assert!(collector.offer(hit(4), Some(chunk(4, "/c", "md")), &filters));
    assert_eq!(collector.results.len(), 2);
}

#[test]
fn keyword_query_quotes_terms_and_joins_with_or() {
    assert_eq!(
        fts_expression("India launch-decision, a Q3!").as_deref(),
        Some("\"India\" OR \"launch\" OR \"decision\" OR \"Q3\"")
    );
    assert_eq!(fts_expression("a b c ! ?"), None);
}

#[test]
fn keyword_query_uses_at_most_twelve_terms() {
    let query = (1..=20).map(|n| format!("t{n}")).collect::<Vec<_>>().join(" ");
    let expression = fts_expression(&query).unwrap();
    assert_eq!(expression.matches(" OR ").count(), 11);
    assert!(expression.ends_with("\"t12\""));
}

#[test]
fn repeated_identifiers_in_a_ranking_are_detected() {
    assert!(all_distinct(&vec![]));
    assert!(all_distinct(&vec![4, 9, 1]));
    assert!(!all_distinct(&vec![4, 9, 4]));
    assert!(!all_distinct(&vec![7, 7]));
}

#[test]
fn collector_keeps_only_the_named_passage_and_each_once() {
    let filters = SearchFilters::default();
    let mut collector = ResultCollector::new(5);
    let hit = |id| FusedHit { id, vector_rank: None, keyword_rank: Some(0) };
    collector.offer(hit(7), Some(chunk(8, "/a", "md")), &filters);
    collector.offer(hit(7), Some(chunk(7, "/a", "md")), &filters);
    collector.offer(hit(7), Some(chunk(7, "/a", "md")), &filters);
    collector.offer(hit(9), Some(chunk(9, "/b", "txt")), &filters);
    let ids: Vec<(u64, u64)> = collector.results.iter().map(|r| (r.hit.id, r.chunk.id)).collect();
    assert_eq!(ids, vec![(7, 7), (9, 9)]);
}
