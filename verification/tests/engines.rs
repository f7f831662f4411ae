use openmemory::clustering::{
    group_by_key, ClusterType, ClusteringEngine, ClusteringMethod, Keyed, MemoryCluster,
    TimePeriod,
};
use openmemory::region::RegionManager;
use openmemory::search::{
    apply_search_filters, calculate_recency_factor, calculate_relevance_score,
    calculate_simple_similarity, search_memories_simple, semantic_search, tags_pass,
    SearchFilters,
};
use openmemory::storage::{store_memory, store_memory_sync, Store};
use openmemory::suggestions::{
    SearchSuggestion, SuggestionCandidate, SuggestionType, SuggestionsEngine,
};
use openmemory::types::{Memory, Principal, SearchResult};
use openmemory::vector_store::{
    AdvancedVectorStore, ScoredId, SimilarityFunction, VectorStoreConfig,
};

fn user(n: u8) -> Principal {
    Principal::from_slice(&[n]).unwrap()
}

fn memory(id: &str, owner: u8, content: &str, created_at: u64) -> Memory {
    Memory {
        id: id.to_string(),
        user_id: user(owner),
        content: content.to_string(),
        embedding: Vec::new(),
        metadata: Vec::new(),
        tags: Vec::new(),
        created_at,
        updated_at: created_at,
    }
}

fn small_vectors(manager: &mut RegionManager) -> AdvancedVectorStore {
    let mut vectors = AdvancedVectorStore::init(manager).unwrap();
    let config = VectorStoreConfig {
        dimension: 2,
        similarity_function: SimilarityFunction::Cosine,
        max_vectors: 100,
        index_threshold: 700_000,
    };
    vectors.update_config(config).unwrap();
    vectors
}

fn scored(id: &str, score: i64) -> ScoredId {
    ScoredId { id: id.to_string(), score }
}

const DAY_SECONDS: u64 = 24 * 60 * 60;
const SECOND_NS: u64 = 1_000_000_000;

#[test]
fn test_calculate_recency_factor() {
    let current_time: u64 = 100 * DAY_SECONDS * SECOND_NS;

    // Recent memory should get a boost
    let recent_time = current_time - (5 * 24 * 60 * 60 * 1_000_000_000); // 5 days ago
    assert!(calculate_recency_factor(recent_time, current_time) as f64 / 1e6 > 1.0);

    // Old memory should get no boost
    let old_time = current_time - (35 * 24 * 60 * 60 * 1_000_000_000); // 35 days ago
    assert_eq!(calculate_recency_factor(old_time, current_time) as f64 / 1e6, 1.0);
}

#[test]
fn test_calculate_simple_similarity() {
    assert_eq!(calculate_simple_similarity("hello world", "hello world") as f64 / 1e6, 1.0);
    assert_eq!(calculate_simple_similarity("hello", "hello world") as f64 / 1e6, 1.0);
    assert_eq!(calculate_simple_similarity("hello world", "hello") as f64 / 1e6, 0.5);
    assert_eq!(calculate_simple_similarity("", "hello world") as f64 / 1e6, 0.0);
    assert_eq!(calculate_simple_similarity("xyz", "hello world") as f64 / 1e6, 0.0);
}

#[test]
fn recency_factor_in_millionths() {
    let now: u64 = 100 * DAY_SECONDS * SECOND_NS;
    assert_eq!(calculate_recency_factor(now, now), 1_100_000);
    assert_eq!(calculate_recency_factor(now - 15 * DAY_SECONDS * SECOND_NS, now), 1_050_000);
    assert_eq!(calculate_recency_factor(now - 30 * DAY_SECONDS * SECOND_NS, now), 1_000_000);
    assert_eq!(calculate_recency_factor(now - 31 * DAY_SECONDS * SECOND_NS, now), 1_000_000);
    assert_eq!(calculate_recency_factor(now + 5, now), 1_100_000);
    assert_eq!(calculate_simple_similarity("a b c", "xa yb"), 666_666);
}

#[test]
fn relevance_adds_boosts_times_recency_and_stops_at_one() {
    let now: u64 = 100 * DAY_SECONDS * SECOND_NS;
    let old = now - 40 * DAY_SECONDS * SECOND_NS;
    let mut m = memory("m", 1, "text", old);
    m.tags = vec!["Rust".to_string(), "go".to_string()];
    m.metadata = vec![
        ("lang".to_string(), "RUST".to_string()),
        ("rusty".to_string(), "x".to_string()),
        ("a".to_string(), "b".to_string()),
    ];
    assert_eq!(calculate_relevance_score(&m, "rust", 300_000, now), 700_000);
    assert_eq!(calculate_relevance_score(&m, "zig", 300_000, now), 300_000);
    assert_eq!(calculate_relevance_score(&m, "rust", 800_000, now), 1_000_000);
    m.created_at = now - 15 * DAY_SECONDS * SECOND_NS;
    assert_eq!(calculate_relevance_score(&m, "zig", 300_000, now), 315_000);
    assert_eq!(calculate_relevance_score(&m, "zig", -300_000, now), -315_000);
    assert_eq!(calculate_relevance_score(&m, "zig", 999_999, now), 1_000_000);
}

#[test]
fn tag_filters_ignore_case_and_match_parts() {
    let tags = vec!["Database".to_string(), "cache".to_string()];
    assert!(tags_pass(&tags, &None));
    assert!(tags_pass(&tags, &Some(Vec::new())));
    assert!(tags_pass(&tags, &Some(vec!["DATA".to_string()])));
    assert!(tags_pass(&tags, &Some(vec!["x".to_string(), "Cache".to_string()])));
    assert!(!tags_pass(&tags, &Some(vec!["databases".to_string()])));
    assert!(!tags_pass(&Vec::new(), &Some(vec!["a".to_string()])));
}

#[test]
fn filters_keep_what_passes_in_order() {
    let result = |id: &str, owner: u8, at: u64, score: i64, tag: &str, meta: (&str, &str)| {
        let mut m = memory(id, owner, "c", at);
        m.tags = vec![tag.to_string()];
        m.metadata = vec![(meta.0.to_string(), meta.1.to_string())];
        SearchResult { memory: m, similarity_score: score }
    };
    let results = || {
        vec![
            result("a", 1, 10, 900_000, "rust", ("lang", "Rust")),
            result("b", 2, 20, 800_000, "rust", ("lang", "Rust")),
            result("c", 1, 30, 700_000, "go", ("lang", "Go")),
            result("d", 1, 40, 600_000, "rust", ("topic", "Rust")),
        ]
    };
    let none = SearchFilters {
        user_filter: None,
        tags: None,
        metadata_filters: None,
        date_range: None,
        min_similarity: None,
    };
    let ids = |v: Vec<SearchResult>| -> Vec<String> { v.into_iter().map(|r| r.memory.id).collect() };
    assert_eq!(ids(apply_search_filters(results(), &none)), vec!["a", "b", "c", "d"]);
    let by_user = SearchFilters { user_filter: Some(user(1)), ..none };
    assert_eq!(ids(apply_search_filters(results(), &by_user)), vec!["a", "c", "d"]);
    let by_tag = SearchFilters { user_filter: None, tags: Some(vec!["RUS".to_string()]), metadata_filters: None, date_range: None, min_similarity: None };
    assert_eq!(ids(apply_search_filters(results(), &by_tag)), vec!["a", "b", "d"]);
    let by_meta = SearchFilters { user_filter: None, tags: None, metadata_filters: Some(vec![("lang".to_string(), "rust".to_string())]), date_range: None, min_similarity: None };
    assert_eq!(ids(apply_search_filters(results(), &by_meta)), vec!["a", "b"]);
    let by_date = SearchFilters { user_filter: None, tags: None, metadata_filters: None, date_range: Some((20, 30)), min_similarity: None };
    assert_eq!(ids(apply_search_filters(results(), &by_date)), vec!["b", "c"]);
    let by_score = SearchFilters { user_filter: None, tags: None, metadata_filters: None, date_range: None, min_similarity: Some(700_000) };
    assert_eq!(ids(apply_search_filters(results(), &by_score)), vec!["a", "b", "c"]);
    let no_tags = SearchFilters { user_filter: None, tags: Some(Vec::new()), metadata_filters: None, date_range: None, min_similarity: None };
    assert!(apply_search_filters(results(), &no_tags).is_empty());
}

#[test]
fn semantic_search_filters_and_keeps_the_rank_order() {
    let mut manager = RegionManager::new();
    let mut store = Store::new(&mut manager).unwrap();
    let mut vectors = small_vectors(&mut manager);
    let mut suggestions = SuggestionsEngine::new();
    let now: u64 = 100 * DAY_SECONDS * SECOND_NS;
    let old = now - 40 * DAY_SECONDS * SECOND_NS;
    for (id, owner, tag) in [("a", 1u8, "x"), ("b", 2, "x"), ("c", 1, "y"), ("d", 1, "x"), ("e", 1, "x")] {
        let mut m = memory(id, owner, "content", old);
        m.embedding = vec![1, 2];
        m.tags = vec![tag.to_string()];
        store_memory(&mut store, &mut vectors, &mut suggestions, m, 0, 0, old).unwrap();
    }
    let scores = || {
        vec![
            scored("e", 710_000),
            scored("a", 900_000),
            scored("gone", 990_000),
            scored("b", 950_000),
            scored("c", 800_000),
            scored("d", 800_000),
            scored("low", 100_000),
        ]
    };
    let found = semantic_search(&store, &vectors, &[0, 0], scores(), "none", 10, None, &None, now).unwrap();
    let ids: Vec<(&str, i64)> = found.iter().map(|r| (r.memory.id.as_str(), r.similarity_score)).collect();
    assert_eq!(ids, vec![("b", 950_000), ("a", 900_000), ("c", 800_000), ("d", 800_000), ("e", 710_000)]);
    let mine = semantic_search(&store, &vectors, &[0, 0], scores(), "none", 10, Some(&user(1)), &Some(vec!["X".to_string()]), now).unwrap();
    let ids: Vec<&str> = mine.iter().map(|r| r.memory.id.as_str()).collect();
    assert_eq!(ids, vec!["a", "d", "e"]);
    // Twice the limit is looked at: "gone", "b", "a", "c" for a limit of two.
    let two = semantic_search(&store, &vectors, &[0, 0], scores(), "none", 2, Some(&user(1)), &None, now).unwrap();
    let ids: Vec<&str> = two.iter().map(|r| r.memory.id.as_str()).collect();
    assert_eq!(ids, vec!["a", "c"]);
    let again = semantic_search(&store, &vectors, &[0, 0], scores(), "none", 2, Some(&user(1)), &None, now).unwrap();
    let ids_again: Vec<&str> = again.iter().map(|r| r.memory.id.as_str()).collect();
    assert_eq!(ids, ids_again);
    assert!(semantic_search(&store, &vectors, &[0], scores(), "none", 2, None, &None, now).is_err());
}

#[test]
fn keyword_search_scores_by_shared_words() {
    let mut manager = RegionManager::new();
    let mut store = Store::new(&mut manager).unwrap();
    let mut suggestions = SuggestionsEngine::new();
    store_memory_sync(&mut store, &mut suggestions, memory("a", 1, "In-Memory cache layer", 1), 0).unwrap();
    store_memory_sync(&mut store, &mut suggestions, memory("b", 1, "the in-memory cache", 2), 0).unwrap();
    store_memory_sync(&mut store, &mut suggestions, memory("c", 2, "an in-memory cache", 3), 0).unwrap();
    store_memory_sync(&mut store, &mut suggestions, memory("d", 1, "relational database", 4), 0).unwrap();
    let found = search_memories_simple(&store, "in-memory CACHE", 10, &None, Some(&user(1))).unwrap();
    let got: Vec<(&str, i64)> = found.iter().map(|r| (r.memory.id.as_str(), r.similarity_score)).collect();
    assert_eq!(got, vec![("a", 1_000_000), ("b", 1_000_000)]);
    let found = search_memories_simple(&store, "cache", 1, &None, None).unwrap();
    assert_eq!(found.len(), 1);
    assert_eq!(found[0].memory.id, "a");
    assert!(search_memories_simple(&store, "graph", 10, &None, None).unwrap().is_empty());
}

#[test]
fn searches_are_recorded_per_user_and_as_popular() {
    let mut engine = SuggestionsEngine::new();
    let u = user(1);
    for i in 0..105u64 {
        engine.record_search(&u, &format!("query number {}", i), 2, i);
    }
    engine.record_search(&user(2), "query number 7", 4, 500);
    assert_eq!(engine.histories.len(), 2);
    assert_eq!(engine.histories[0].queries.len(), 100);
    assert_eq!(engine.histories[0].queries[0].query, "query number 5");
    assert_eq!(engine.histories[0].queries[99].timestamp, 104);
    assert_eq!(engine.popular.len(), 100);
    assert_eq!(engine.popular[0].query, "query number 7");
    assert_eq!(engine.popular[0].search_count, 2);
    assert_eq!(engine.popular[0].total_results, 6);
    assert_eq!(engine.popular[0].last_searched, 500);
    assert_eq!(engine.times_seen("query"), 106);
    assert_eq!(engine.times_seen("number"), 106);
    assert_eq!(engine.times_seen("7"), 0);

    engine.record_click(&u, "query number 104", "m1".to_string());
    engine.record_click(&u, "query number 0", "m2".to_string());
    engine.record_click(&user(3), "query number 104", "m3".to_string());
    assert_eq!(engine.histories[0].queries[99].clicked_results, vec!["m1".to_string()]);
    assert!(engine.histories[0].queries.iter().all(|q| !q.clicked_results.contains(&"m2".to_string())));

    let thirty_days: u64 = 30 * DAY_SECONDS * SECOND_NS;
    engine.cleanup_old_data(thirty_days + 100);
    assert_eq!(engine.histories[0].queries.len(), 4);
    assert_eq!(engine.histories[0].queries[0].timestamp, 101);
    assert_eq!(engine.histories[1].queries.len(), 1);
    assert_eq!(engine.popular.len(), 5);
}

#[test]
fn candidates_come_from_five_sources() {
    let mut engine = SuggestionsEngine::new();
    let u = user(1);
    engine.record_search(&u, "typescript generics", 3, 10);
    engine.record_search(&u, "python", 1, 20);
    engine.record_search(&u, "Typing fast", 2, 30);
    engine.record_click(&u, "Typing fast", "m1".to_string());
    let recent = engine.get_recent_search_suggestions(&u, "typ");
    let texts: Vec<&str> = recent.iter().map(|c| c.text.as_str()).collect();
    assert_eq!(texts, vec!["Typing fast", "typescript generics"]);
    assert_eq!((recent[0].timestamp, recent[0].result_count, recent[0].clicks), (30, 2, 1));
    assert_eq!(recent[0].suggestion_type, SuggestionType::RecentSearch);
    assert!(engine.get_recent_search_suggestions(&user(2), "typ").is_empty());
    assert!(engine.get_recent_search_suggestions(&u, "typing fast").is_empty());

    let popular = engine.get_popular_query_suggestions("typ");
    assert_eq!(popular.len(), 2);
    assert_eq!(popular[0].suggestion_type, SuggestionType::PopularQuery);
    assert_eq!(popular[0].search_count, 1);

    let mut m = memory("m", 1, "types types types typical", 0);
    m.tags = vec!["TypeScript".to_string(), "typescript".to_string(), "Go".to_string()];
    engine.index_memory_content(&m);
    assert_eq!(engine.tags, vec!["typescript".to_string(), "go".to_string()]);
    let tags = engine.get_tag_suggestions("type");
    assert_eq!(tags.len(), 1);
    assert_eq!(tags[0].text, "tag:typescript");
    assert_eq!(tags[0].detail, "typescript");
    let keywords = engine.get_keyword_suggestions("typ");
    let texts: Vec<(&str, u32)> = keywords.iter().map(|c| (c.text.as_str(), c.frequency)).collect();
    assert_eq!(texts, vec![("types", 3)]);

    let auto = SuggestionsEngine::get_autocomplete_suggestions("wh");
    let texts: Vec<(&str, &str)> = auto.iter().map(|c| (c.text.as_str(), c.detail.as_str())).collect();
    assert_eq!(
        texts,
        vec![("what is the purpose of", "definition"), ("when should I", "timing"), ("why does", "explanation")]
    );
    assert!(SuggestionsEngine::get_autocomplete_suggestions("w").is_empty());
    assert!(SuggestionsEngine::get_autocomplete_suggestions("why").is_empty());
}

#[test]
fn suggestions_are_ranked_by_score_then_text() {
    let s = |text: &str, score: i64| SearchSuggestion {
        text: text.to_string(),
        suggestion_type: SuggestionType::AutoComplete,
        score,
        metadata: Vec::new(),
    };
    let ranked = SuggestionsEngine::get_suggestions(
        vec![s("b", 1_500_000), s("c", 2_000_000), s("a", 1_500_000), s("d", 100)],
        3,
    );
    let texts: Vec<&str> = ranked.iter().map(|x| x.text.as_str()).collect();
    assert_eq!(texts, vec!["c", "a", "b"]);
}

#[test]
fn popular_queries_outrank_rarer_ones() {
    // A popular query scores log10(count) + mean results / 10.
    let score = |c: &SuggestionCandidate| -> i64 {
        let mean = c.total_results as f64 / c.search_count as f64;
        (((c.search_count as f64).log10() + mean / 10.0) * 1e6).round() as i64
    };
    let mut engine = SuggestionsEngine::new();
    let u = user(1);
    engine.record_search(&u, "typescript", 3, 1);
    engine.record_search(&u, "typescript", 3, 2);
    engine.record_search(&u, "typing fast", 1, 3);
    let candidates = engine.get_popular_query_suggestions("typ");
    let scored: Vec<SearchSuggestion> = candidates
        .iter()
        .map(|c| SearchSuggestion {
            text: c.text.clone(),
            suggestion_type: c.suggestion_type,
            score: score(c),
            metadata: Vec::new(),
        })
        .collect();
    let ranked = SuggestionsEngine::get_suggestions(scored, 5);
    let texts: Vec<&str> = ranked.iter().map(|x| x.text.as_str()).collect();
    assert_eq!(texts, vec!["typescript", "typing fast"]);
}

#[test]
fn time_keys_and_names() {
    let day: u64 = 86_400 * SECOND_NS;
    assert_eq!(ClusteringEngine::get_time_cluster_key(0, &TimePeriod::Day), "day_0");
    assert_eq!(ClusteringEngine::get_time_cluster_key(day - 1, &TimePeriod::Day), "day_0");
    assert_eq!(ClusteringEngine::get_time_cluster_key(day, &TimePeriod::Day), "day_1");
    assert_eq!(ClusteringEngine::get_time_cluster_key(14 * day, &TimePeriod::Week), "week_2");
    assert_eq!(ClusteringEngine::get_time_cluster_key(61 * day, &TimePeriod::Month), "month_2");
    assert_eq!(ClusteringEngine::get_time_cluster_key(730 * day, &TimePeriod::Year), "year_2");
    assert_eq!(
        ClusteringEngine::format_time_cluster_name("week_2", &TimePeriod::Week),
        "Weekly memories: week_2"
    );
    assert_eq!(
        ClusteringEngine::generate_cluster_description(&vec!["a".to_string(), "b".to_string()]),
        "Automatically generated cluster with 2 memories"
    );
}

#[test]
fn memories_are_clustered_by_tag_time_and_content() {
    let mut manager = RegionManager::new();
    let mut store = Store::new(&mut manager).unwrap();
    let mut suggestions = SuggestionsEngine::new();
    let day: u64 = 86_400 * SECOND_NS;
    let mut a = memory("a", 1, "A programming framework and its library with code and an algorithm for a database API in software", 0);
    a.tags = vec!["rust".to_string(), "db".to_string()];
    let mut b = memory("b", 1, "marketing", day);
    b.tags = vec!["go".to_string()];
    let mut c = memory("c", 1, "My diary: a private personal thought, an idea and a reflection", day + 5);
    c.tags = vec!["rust".to_string()];
    let d = memory("d", 1, "nothing special", 3 * day);
    for m in [a, b, c, d] {
        store_memory_sync(&mut store, &mut suggestions, m, 0).unwrap();
    }
    let mut engine = ClusteringEngine::new();
    engine.init_categories();
    let ids: Vec<String> = ["a", "b", "missing", "c", "d"].iter().map(|s| s.to_string()).collect();
    let owner = Principal::from_text("rrkah-fqaaa-aaaaa-aaaaq-cai").unwrap();

    let by_tag = engine.cluster_by_tags(&store, &owner, &ids, 77).unwrap();
    assert_eq!(by_tag.clustering_score, 900_000);
    assert_eq!(by_tag.method_used, ClusteringMethod::TagBased);
    assert_eq!(by_tag.unclustered_memories, vec!["d".to_string()]);
    assert_eq!(by_tag.clusters.len(), 2);
    assert_eq!(by_tag.clusters[0].id, "tag_rrkah-fqaaa-aaaaa-aaaaq-cai_rust");
    assert_eq!(by_tag.clusters[0].name, "#rust");
    assert_eq!(by_tag.clusters[0].description, "Memories tagged with 'rust'");
    assert_eq!(by_tag.clusters[0].memory_ids, vec!["a".to_string(), "c".to_string()]);
    assert_eq!(by_tag.clusters[0].tags, vec!["rust".to_string()]);
    assert_eq!(by_tag.clusters[0].cluster_type, ClusterType::Semantic);
    assert_eq!((by_tag.clusters[0].created_at, by_tag.clusters[0].updated_at), (77, 77));
    assert_eq!(by_tag.clusters[1].memory_ids, vec!["b".to_string()]);

    let by_time = engine.cluster_by_time(&store, &owner, &ids, TimePeriod::Day, 77).unwrap();
    assert_eq!(by_time.clustering_score, 1_000_000);
    assert!(by_time.unclustered_memories.is_empty());
    let groups: Vec<(&str, Vec<String>)> =
        by_time.clusters.iter().map(|c| (c.name.as_str(), c.memory_ids.clone())).collect();
    assert_eq!(
        groups,
        vec![
            ("Daily memories: day_0", vec!["a".to_string()]),
            ("Daily memories: day_1", vec!["b".to_string(), "c".to_string()]),
            ("Daily memories: day_3", vec!["d".to_string()]),
        ]
    );
    assert_eq!(by_time.clusters[1].id, "time_rrkah-fqaaa-aaaaa-aaaaq-cai_day_1");
    assert_eq!(by_time.clusters[1].description, "Memories from day_1");

    let by_content = engine.cluster_by_content(&store, &owner, &ids, 77).unwrap();
    assert_eq!(by_content.clustering_score, 800_000);
    assert_eq!(by_content.method_used, ClusteringMethod::ContentBased);
    assert_eq!(by_content.unclustered_memories, vec!["b".to_string(), "d".to_string()]);
    let groups: Vec<(&str, &str, Vec<String>)> = by_content
        .clusters
        .iter()
        .map(|c| (c.id.as_str(), c.name.as_str(), c.memory_ids.clone()))
        .collect();
    assert_eq!(
        groups,
        vec![
            ("content_rrkah-fqaaa-aaaaa-aaaaq-cai_tech", "Technology", vec!["a".to_string()]),
            ("content_rrkah-fqaaa-aaaaa-aaaaq-cai_personal", "Personal", vec!["c".to_string()]),
        ]
    );
    assert_eq!(by_content.clusters[0].tags.len(), 9);
    assert_eq!(by_content.clusters[0].cluster_type, ClusterType::Category);
}

#[test]
fn a_memory_is_of_a_category_from_its_threshold() {
    let mut engine = ClusteringEngine::new();
    engine.init_categories();
    // Six of nine keywords are 0.667, below 0.7; one matching tag adds 0.056.
    let mut m = memory("m", 1, "programming software technology code algorithm database", 0);
    assert_eq!(engine.classify_memory(&m), None);
    m.tags = vec!["Framework".to_string()];
    assert_eq!(engine.classify_memory(&m), Some("tech".to_string()));
    // Personal needs 0.6: six keywords do.
    let p = memory("p", 1, "personal private diary thought idea reflection", 0);
    assert_eq!(engine.classify_memory(&p), Some("personal".to_string()));
    let five = memory("p", 1, "personal private diary thought idea", 0);
    assert_eq!(engine.classify_memory(&five), None);
    let none = ClusteringEngine::new();
    assert_eq!(none.classify_memory(&p), None);
}

#[test]
fn groups_form_in_the_order_of_their_first_member() {
    let k = |id: &str, key: Option<&str>| Keyed { id: id.to_string(), key: key.map(|s| s.to_string()) };
    let (groups, rest) = group_by_key(vec![
        k("1", Some("b")),
        k("2", None),
        k("3", Some("a")),
        k("4", Some("b")),
        k("5", None),
    ]);
    assert_eq!(
        groups,
        vec![
            ("b".to_string(), vec!["1".to_string(), "4".to_string()]),
            ("a".to_string(), vec!["3".to_string()]),
        ]
    );
    assert_eq!(rest, vec!["2".to_string(), "5".to_string()]);
}

#[test]
fn kmeans_starts_strided_and_takes_the_nearest() {
    assert_eq!(ClusteringEngine::initialize_centroids(4, 2), vec![0, 2]);
    assert_eq!(ClusteringEngine::initialize_centroids(10, 3), vec![0, 3, 6]);
    assert_eq!(ClusteringEngine::initialize_centroids(2, 5), vec![0, 0, 0, 0, 0]);
    assert_eq!(ClusteringEngine::initialize_centroids(3, 3), vec![0, 1, 2]);
    assert_eq!(ClusteringEngine::nearest_centroid(&vec![5, 3, 3, 9]), 1);
    assert_eq!(ClusteringEngine::nearest_centroid(&vec![7]), 0);
    assert_eq!(ClusteringEngine::nearest_centroid(&vec![2, 2]), 0);
}

#[test]
fn kmeans_members_and_refusals() {
    let mut manager = RegionManager::new();
    let mut store = Store::new(&mut manager).unwrap();
    let mut suggestions = SuggestionsEngine::new();
    let mut a = memory("a", 1, "a", 0);
    a.embedding = vec![1, 2];
    store_memory_sync(&mut store, &mut suggestions, a, 0).unwrap();
    store_memory_sync(&mut store, &mut suggestions, memory("b", 1, "b", 0), 0).unwrap();
    let ids: Vec<String> = ["a", "b", "c"].iter().map(|s| s.to_string()).collect();
    assert_eq!(ClusteringEngine::kmeans_members(&store, &ids, 1).unwrap(), vec!["a".to_string()]);
    // Three ids, but only one memory with an embedding: too few for two clusters.
    let e = ClusteringEngine::kmeans_members(&store, &ids, 2).unwrap_err();
    assert_eq!(e.to_string(), "Validation error in 'memory_ids': Not enough memories for clustering");
    let e = ClusteringEngine::kmeans_members(&store, &ids, 4).unwrap_err();
    assert_eq!(e.to_string(), "Validation error in 'memory_ids': Not enough memories for clustering");
    let e = ClusteringEngine::kmeans_members(&store, &vec!["b".to_string()], 1).unwrap_err();
    assert_eq!(e.to_string(), "Validation error in 'memory_ids': No memories with embeddings found");
    let e = ClusteringEngine::kmeans_members(&store, &ids, 0).unwrap_err();
    assert_eq!(e.to_string(), "Validation error in 'k': Invalid input for k-means");
}

fn distance(a: &[f32], b: &[f32]) -> f32 {
    a.iter().zip(b.iter()).map(|(x, y)| (x - y).powi(2)).sum::<f32>().sqrt()
}

#[test]
fn kmeans_of_two_far_pairs_gives_two_clusters() {
    let mut manager = RegionManager::new();
    let mut store = Store::new(&mut manager).unwrap();
    let mut suggestions = SuggestionsEngine::new();
    let points: Vec<Vec<f32>> = vec![vec![0.0, 0.0], vec![0.0, 1.0], vec![10.0, 10.0], vec![10.0, 11.0]];
    let ids: Vec<String> = (0..4).map(|i| format!("#{}", i)).collect();
    for (id, p) in ids.iter().zip(points.iter()) {
        let mut m = memory(id, 1, "point", 0);
        m.embedding = p.iter().map(|x| x.to_bits()).collect();
        m.tags = vec![if p[0] < 5.0 { "near".to_string() } else { "far".to_string() }];
        store_memory_sync(&mut store, &mut suggestions, m, 0).unwrap();
    }
    let k = 2;
    let members = ClusteringEngine::kmeans_members(&store, &ids, k).unwrap();
    assert_eq!(members, ids);
    let mut centroids: Vec<Vec<f32>> = ClusteringEngine::initialize_centroids(points.len(), k)
        .into_iter()
        .map(|i| points[i].clone())
        .collect();
    let mut assignments = vec![0usize; points.len()];
    for _ in 0..10 {
        for (i, p) in points.iter().enumerate() {
            let distances: Vec<i64> =
                centroids.iter().map(|c| (distance(p, c) as f64 * 1e6).round() as i64).collect();
            assignments[i] = ClusteringEngine::nearest_centroid(&distances);
        }
        for j in 0..k {
            let mine: Vec<&Vec<f32>> =
                points.iter().enumerate().filter(|(i, _)| assignments[*i] == j).map(|(_, p)| p).collect();
            if !mine.is_empty() {
                centroids[j] = (0..2).map(|d| mine.iter().map(|p| p[d]).sum::<f32>() / mine.len() as f32).collect();
            }
        }
    }
    let mean: f32 = points.iter().enumerate().map(|(i, p)| distance(p, &centroids[assignments[i]])).sum::<f32>() / 4.0;
    let score = ((1.0 / (1.0 + mean)) as f64 * 1e6).round() as i64;
    let bits: Vec<Vec<u32>> = centroids.iter().map(|c| c.iter().map(|x| x.to_bits()).collect()).collect();
    let owner = Principal::from_text("rrkah-fqaaa-aaaaa-aaaaq-cai").unwrap();
    let result =
        ClusteringEngine::cluster_memories_kmeans(&store, &owner, &members, &assignments, &bits, score, 9);
    assert_eq!(result.method_used, ClusteringMethod::KMeans);
    assert!(result.unclustered_memories.is_empty());
    assert_eq!(result.clusters.len(), 2);
    assert_eq!(result.clusters[0].memory_ids, vec!["#0".to_string(), "#1".to_string()]);
    assert_eq!(result.clusters[1].memory_ids, vec!["#2".to_string(), "#3".to_string()]);
    assert_eq!(result.clusters[0].id, "cluster_rrkah-fqaaa-aaaaa-aaaaq-cai_0");
    assert_eq!(result.clusters[1].name, "Cluster 2");
    assert_eq!(result.clusters[0].description, "Automatically generated cluster with 2 memories");
    assert_eq!(result.clusters[0].tags, vec!["near".to_string()]);
    assert_eq!(result.clusters[1].centroid, vec![10.0f32.to_bits(), 10.5f32.to_bits()]);
    assert_eq!(result.clusters[0].cluster_type, ClusterType::Automatic);
    assert!(result.clustering_score as f64 / 1e6 > 0.2);
    let sizes: usize = result.clusters.iter().map(|c| c.memory_ids.len()).sum();
    assert_eq!(sizes, 4);
}

#[test]
fn cluster_sizes_sum_to_the_number_of_assigned_ids() {
    let mut manager = RegionManager::new();
    let store = Store::new(&mut manager).unwrap();
    let ids: Vec<String> = (0..7).map(|i| format!("m{}", i)).collect();
    let assignments = vec![2, 0, 2, 2, 0, 3, 2];
    let centroids = vec![vec![0u32], vec![1], vec![2], vec![3]];
    let result = ClusteringEngine::cluster_memories_kmeans(&store, &user(1), &ids, &assignments, &centroids, 0, 0);
    let sizes: Vec<usize> = result.clusters.iter().map(|c| c.memory_ids.len()).collect();
    assert_eq!(sizes, vec![2, 4, 1]);
    assert_eq!(sizes.iter().sum::<usize>(), 7);
    let names: Vec<&str> = result.clusters.iter().map(|c| c.name.as_str()).collect();
    assert_eq!(names, vec!["Cluster 1", "Cluster 3", "Cluster 4"]);
    let fewer = vec![vec![0u32], vec![1]];
    let result = ClusteringEngine::cluster_memories_kmeans(&store, &user(1), &ids, &assignments, &fewer, 0, 0);
    assert_eq!(result.clusters.iter().map(|c| c.memory_ids.len()).sum::<usize>(), 2);
}

#[test]
fn stored_clusters_are_found_by_their_owner() {
    let cluster = |id: &str, owner: u8, name: &str| MemoryCluster {
        id: id.to_string(),
        name: name.to_string(),
        description: String::new(),
        memory_ids: vec!["m".to_string()],
        centroid: Vec::new(),
        tags: Vec::new(),
        created_at: 0,
        updated_at: 0,
        user_id: user(owner),
        cluster_type: ClusterType::Manual,
    };
    let mut engine = ClusteringEngine::new();
    engine.store_cluster(cluster("c1", 1, "first")).unwrap();
    engine.store_cluster(cluster("c2", 1, "second")).unwrap();
    engine.store_cluster(cluster("c3", 2, "third")).unwrap();
    engine.store_cluster(cluster("c1", 1, "renamed")).unwrap();
    let mine = engine.get_user_clusters(&user(1));
    let names: Vec<&str> = mine.iter().map(|c| c.name.as_str()).collect();
    assert_eq!(names, vec!["renamed", "second"]);
    assert_eq!(engine.get_user_clusters(&user(2)).len(), 1);
    assert!(engine.get_user_clusters(&user(3)).is_empty());
}

#[test]
fn one_write_of_a_principal_at_a_time() {
    let mut locks = openmemory::locks::WriteLocks::new();
    let a = openmemory::types::Principal::from_slice(&[1]).unwrap();
    let b = openmemory::types::Principal::from_slice(&[2]).unwrap();
    assert!(!locks.is_held(&a));
    assert!(locks.acquire(&a));
    assert!(locks.is_held(&a) && !locks.is_held(&b));
    assert!(!locks.acquire(&a));
    assert!(locks.acquire(&b));
    locks.release(&a);
    assert!(!locks.is_held(&a) && locks.is_held(&b));
    assert!(locks.acquire(&a));
    locks.release(&b);
    locks.release(&b);
    assert!(locks.is_held(&a) && !locks.is_held(&b));
}

#[test]
fn a_batch_of_vectors_is_stored_one_after_the_other() {
    let mut manager = RegionManager::new();
    let mut vectors = small_vectors(&mut manager);
    let input = |id: &str, vector: Vec<u32>, norm: u32, bucket: u64| {
        openmemory::vector_store::VectorInput { id: id.to_string(), vector, norm, bucket }
    };
    let outcomes = vectors.add_vectors_batch(
        vec![
            input("a", vec![1, 2], 3, 7),
            input("b", vec![1, 2, 3], 4, 7),
            input("c", vec![5, 6], 5, 8),
            input("a", vec![9, 9], 6, 7),
        ],
        50,
    );
    assert_eq!(outcomes.len(), 4);
    assert!(outcomes[0].is_ok() && outcomes[2].is_ok() && outcomes[3].is_ok());
    assert_eq!(
        outcomes[1].as_ref().unwrap_err().to_string(),
        "Validation error in 'vector': Vector dimension does not match expected dimension"
    );
    assert_eq!(vectors.get_vector_count(), 2);
    let a = vectors.get_vector("a").unwrap().unwrap();
    assert_eq!((a.vector, a.norm, a.created_at), (vec![9, 9], 6, 50));
    assert!(vectors.get_vector("b").unwrap().is_none());
    assert!(vectors.add_vectors_batch(Vec::new(), 51).is_empty());
    assert_eq!(vectors.get_vector_count(), 2);
}

#[test]
fn the_dimension_is_fixed_while_vectors_are_stored() {
    let mut manager = RegionManager::new();
    let mut vectors = small_vectors(&mut manager);
    let wider = VectorStoreConfig {
        dimension: 3,
        similarity_function: SimilarityFunction::Cosine,
        max_vectors: 100,
        index_threshold: 700_000,
    };
    vectors.update_config(wider).unwrap();
    assert_eq!(vectors.get_config().dimension, 3);
    vectors.add_vector("a".to_string(), vec![1, 2, 3], 0, 0, 0).unwrap();
    let narrow = VectorStoreConfig { dimension: 2, ..wider };
    let e = vectors.update_config(narrow).unwrap_err();
    assert_eq!(
        e.to_string(),
        "Validation error in 'dimension': Dimension cannot change while vectors are stored"
    );
    assert_eq!(vectors.get_config().dimension, 3);
    let stricter = VectorStoreConfig { index_threshold: 900_000, ..wider };
    vectors.update_config(stricter).unwrap();
    assert_eq!(vectors.get_config().index_threshold, 900_000);
    assert!(vectors.remove_vector("a").unwrap());
    vectors.update_config(narrow).unwrap();
    assert_eq!(vectors.get_config().dimension, 2);
}

#[test]
fn results_by_meaning_are_ordered_by_their_relevance() {
    let mut manager = RegionManager::new();
    let mut store = Store::new(&mut manager).unwrap();
    let mut vectors = small_vectors(&mut manager);
    let mut suggestions = SuggestionsEngine::new();
    let day: u64 = 86_400_000_000_000;
    let mut plain = memory("plain", 1, "nothing of the kind", 0);
    plain.embedding = vec![1, 1];
    let mut tagged = memory("tagged", 1, "something else", 0);
    tagged.embedding = vec![2, 2];
    tagged.tags = vec!["rust-lang".to_string()];
    store_memory(&mut store, &mut vectors, &mut suggestions, plain, 0, 0, 0).unwrap();
    store_memory(&mut store, &mut vectors, &mut suggestions, tagged, 0, 0, 0).unwrap();
    let scores = vec![
        ScoredId { id: "plain".to_string(), score: 800_000 },
        ScoredId { id: "tagged".to_string(), score: 750_000 },
    ];
    // Both memories are forty days old: no recency; the tag holds the query.
    let found = semantic_search(&store, &vectors, &[0, 0], scores, "rust", 5, None, &None, 40 * day)
        .unwrap();
    let order: Vec<(&str, i64)> =
        found.iter().map(|r| (r.memory.id.as_str(), r.similarity_score)).collect();
    assert_eq!(order, vec![("tagged", 950_000), ("plain", 800_000)]);
    let scores = vec![
        ScoredId { id: "plain".to_string(), score: 800_000 },
        ScoredId { id: "tagged".to_string(), score: 750_000 },
    ];
    let first = semantic_search(&store, &vectors, &[0, 0], scores, "rust", 1, None, &None, 40 * day)
        .unwrap();
    assert_eq!(first.len(), 1);
    assert_eq!(first[0].memory.id, "tagged");
}

#[test]
fn a_round_of_assignment_sends_every_point_to_its_nearest_centroid() {
    let distances = vec![vec![5, 3, 3], vec![1, 2, 3], vec![9, 9, 8], vec![4, 4, 4]];
    assert_eq!(ClusteringEngine::assign_nearest(&distances, 3), vec![1, 0, 2, 0]);
    assert!(ClusteringEngine::assign_nearest(&Vec::new(), 3).is_empty());
}
