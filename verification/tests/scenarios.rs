use openmemory::auth::{authenticate_request, KeyTable};
use openmemory::http_handlers::{handle_get_config, handle_get_memory, handle_list_memories};
use openmemory::pipeline::{
    add_memory, add_memory_strict, handle_create_token, handle_delete_memory,
    handle_save_conversation, handle_semantic_search, prepare_memory, prepare_search, Core,
    Embedded,
};
use openmemory::validation::SearchRequest;
use openmemory::errors::OpenMemoryError;
use openmemory::region::RegionManager;
use openmemory::search::{semantic_search, EmbeddedQuery};
use openmemory::settings::save_user_config;
use openmemory::storage::{get_memory, index_list, list_user_memories};
use openmemory::tokens::{get_user_tokens, DAY_NS};
use openmemory::types::{
    AddMemoryRequest, CreateTokenRequest, HttpRequest, Permission, Principal,
    SaveConversationRequest,
};
use openmemory::vector_store::{ScoredId, SimilarityFunction, VectorStoreConfig};

fn user(n: u8) -> Principal {
    Principal::from_slice(&[n]).unwrap()
}

fn service(manager: &mut RegionManager) -> Core {
    let mut core = Core::new(manager).unwrap();
    let config = VectorStoreConfig {
        dimension: 2,
        similarity_function: SimilarityFunction::Cosine,
        max_vectors: 100,
        index_threshold: 700_000,
    };
    core.vectors.update_config(config).unwrap();
    core
}

fn bearer(token: &str) -> HttpRequest {
    HttpRequest {
        method: "POST".to_string(),
        url: "/memories".to_string(),
        headers: vec![("Authorization".to_string(), format!("Bearer {}", token))],
        body: Vec::new(),
    }
}

fn no_keys() -> KeyTable {
    KeyTable { entries: Vec::new(), fallback: None }
}

fn embedded(x: f32, y: f32) -> Embedded {
    Embedded {
        vector: vec![x.to_bits(), y.to_bits()],
        norm: (x * x + y * y).sqrt().to_bits(),
        bucket: 1,
    }
}

fn content(text: &str) -> AddMemoryRequest {
    AddMemoryRequest { content: text.to_string(), metadata: None, tags: None }
}

#[test]
fn ingest_and_search_round_trip() {
    let mut manager = RegionManager::new();
    let mut core = service(&mut manager);
    let a = user(1);
    let now: u64 = 1_000;
    let request = CreateTokenRequest {
        description: Some("e2e".to_string()),
        permissions: None,
        expires_in_days: Some(1),
    };
    let token = handle_create_token(&mut core, &a, request, now).unwrap();
    assert!(token.token.starts_with("om_token_"));
    assert_eq!(token.permissions, vec![Permission::Read, Permission::Write]);
    assert_eq!(token.expires_at, now + DAY_NS);
    let caller =
        authenticate_request(&bearer(&token.token), &mut core.store, &no_keys(), &no_keys(), now + 1)
            .unwrap();
    assert_eq!(caller.bytes, vec![1]);

    let first = prepare_memory(&core.store, &caller, &content("Redis is an in-memory key-value store")).unwrap();
    let m1 = add_memory(&mut core, &caller, first, Some(embedded(1.0, 0.0)), now + 2).unwrap();
    let second = prepare_memory(&core.store, &caller, &content("Postgres is a relational database")).unwrap();
    let m2 = add_memory(&mut core, &caller, second, Some(embedded(0.0, 1.0)), now + 3).unwrap();
    assert_ne!(m1.id, m2.id);
    assert_eq!(m1.created_at, now + 2);

    // The stub embedder gives cos(M1, q) = 0.82 and cos(M2, q) = 0.41.
    let scores = vec![
        ScoredId { id: m2.id.clone(), score: (0.41f64 * 1e6) as i64 },
        ScoredId { id: m1.id.clone(), score: (0.82f64 * 1e6) as i64 },
    ];
    let far = now + 40 * DAY_NS;
    let found = semantic_search(
        &core.store,
        &core.vectors,
        &[0, 0],
        scores,
        "in-memory cache",
        5,
        Some(&caller),
        &None,
        far,
    )
    .unwrap();
    assert_eq!(found.len(), 1);
    assert_eq!(found[0].memory.id, m1.id);
    assert_eq!(found[0].memory.content, "Redis is an in-memory key-value store");
    assert_eq!(found[0].similarity_score, 820_000);
}

#[test]
fn another_principal_cannot_delete_and_learns_nothing() {
    let mut manager = RegionManager::new();
    let mut core = service(&mut manager);
    let a = user(1);
    let b = user(2);
    let p = prepare_memory(&core.store, &a, &content("mine")).unwrap();
    let m1 = add_memory(&mut core, &a, p, None, 5).unwrap();

    let refused = handle_delete_memory(&mut core, &m1.id, &b).unwrap_err();
    let missing = handle_delete_memory(&mut core, "no-such-id", &b).unwrap_err();
    assert_eq!(refused.status_code(), 404);
    assert_eq!(missing.status_code(), 404);
    assert_eq!(refused.category(), missing.category());
    assert_eq!(refused.to_string(), format!("memory '{}' not found", m1.id));
    assert!(get_memory(&core.store, &m1.id).unwrap().is_some());
    assert!(index_list(&core.store.user_memories, &b, "t").unwrap().is_empty());

    handle_delete_memory(&mut core, &m1.id, &a).unwrap();
    assert!(get_memory(&core.store, &m1.id).unwrap().is_none());
    assert!(index_list(&core.store.user_memories, &a, "t").unwrap().is_empty());
}

#[test]
fn an_expired_token_is_refused_and_gone() {
    let mut manager = RegionManager::new();
    let mut core = service(&mut manager);
    let a = user(1);
    let request = CreateTokenRequest { description: None, permissions: None, expires_in_days: Some(1) };
    let token = handle_create_token(&mut core, &a, request, 0).unwrap();
    assert_eq!(get_user_tokens(&core.store, &a).unwrap().len(), 1);
    let later = 2 * DAY_NS;
    let e = authenticate_request(&bearer(&token.token), &mut core.store, &no_keys(), &no_keys(), later)
        .unwrap_err();
    assert!(matches!(e, OpenMemoryError::Authentication { .. }));
    assert_eq!(e.status_code(), 401);
    assert_eq!(e.to_string(), "Authentication error (expired): Token expired");
    assert!(get_user_tokens(&core.store, &a).unwrap().is_empty());
}

#[test]
fn requests_that_do_not_validate_are_refused_with_their_field() {
    let mut manager = RegionManager::new();
    let core = service(&mut manager);
    let a = user(1);
    let e = prepare_memory(&core.store, &a, &content("   ")).err().unwrap();
    assert_eq!(e.status_code(), 400);
    assert!(matches!(&e, OpenMemoryError::Validation { field: Some(f), .. } if f == "content"));
    let bad = AddMemoryRequest {
        content: "ok".to_string(),
        metadata: None,
        tags: Some(vec!["bad tag!".to_string()]),
    };
    let e = prepare_memory(&core.store, &a, &bad).err().unwrap();
    assert_eq!(e.status_code(), 400);
    assert!(matches!(&e, OpenMemoryError::Validation { field: Some(f), .. } if f == "tags"));
    let e = prepare_memory(&core.store, &Principal::anonymous(), &content("ok")).err().unwrap();
    assert_eq!(e.status_code(), 401);
}

#[test]
fn a_memory_is_stored_in_sanitized_form() {
    let mut manager = RegionManager::new();
    let mut core = service(&mut manager);
    let a = user(1);
    let request = AddMemoryRequest {
        content: "  Hello\x00 world \n".to_string(),
        metadata: Some(vec![(" k ".to_string(), "v\x01".to_string())]),
        tags: Some(vec!["Rust".to_string(), "web-dev".to_string()]),
    };
    let prepared = prepare_memory(&core.store, &a, &request).unwrap();
    assert_eq!(prepared.content, "Hello world");
    let added = add_memory(&mut core, &a, prepared, None, 9).unwrap();
    let stored = get_memory(&core.store, &added.id).unwrap().unwrap();
    assert_eq!(stored.content, "Hello world");
    assert_eq!(stored.metadata, vec![("k".to_string(), "v".to_string())]);
    assert_eq!(stored.tags, vec!["rust".to_string(), "web-dev".to_string()]);
    assert!(stored.embedding.is_empty());
    assert_eq!((stored.created_at, stored.updated_at), (9, 9));
    assert_eq!(core.vectors.get_vector_count(), 0);
    assert_eq!(list_user_memories(&core.store, &a, 0, 10).unwrap().len(), 1);
    assert!(core.suggestions.knows_tag("RUST"));
}

#[test]
fn the_strict_path_stores_nothing_without_an_embedding() {
    let mut manager = RegionManager::new();
    let mut core = service(&mut manager);
    let a = user(1);
    let prepared = prepare_memory(&core.store, &a, &content("needs a vector")).unwrap();
    let failure = OpenMemoryError::network("timeout", None);
    let e = add_memory_strict(&mut core, &a, prepared, Err(failure), 1).err().unwrap();
    assert_eq!(e.category(), "network");
    assert!(list_user_memories(&core.store, &a, 0, 10).unwrap().is_empty());
    let prepared = prepare_memory(&core.store, &a, &content("needs a vector")).unwrap();
    let added = add_memory_strict(&mut core, &a, prepared, Ok(embedded(3.0, 4.0)), 2).unwrap();
    let entry = core.vectors.get_vector(&added.id).unwrap().unwrap();
    assert_eq!(entry.norm, 5.0f32.to_bits());
    assert_eq!(entry.vector, vec![3.0f32.to_bits(), 4.0f32.to_bits()]);
}

#[test]
fn a_conversation_is_saved_with_its_word_count() {
    let mut manager = RegionManager::new();
    let mut core = service(&mut manager);
    let a = user(1);
    let request = SaveConversationRequest {
        title: "  Notes ".to_string(),
        content: " one  two\nthree ".to_string(),
        source: None,
        metadata: None,
    };
    let saved = handle_save_conversation(&mut core, &a, &request, 7).unwrap();
    assert_eq!(saved.title, "Notes");
    assert_eq!(saved.content, "one  two\nthree");
    assert_eq!(saved.word_count, 3);
    assert_eq!(saved.source, "api");
    assert_eq!((saved.created_at, saved.updated_at), (7, 7));
    let blank = SaveConversationRequest {
        title: " ".to_string(),
        content: "c".to_string(),
        source: None,
        metadata: None,
    };
    let e = handle_save_conversation(&mut core, &a, &blank, 8).err().unwrap();
    assert!(matches!(&e, OpenMemoryError::Validation { field: Some(f), .. } if f == "title"));
}

#[test]
fn read_handlers_answer_from_the_store() {
    let mut manager = RegionManager::new();
    let mut core = service(&mut manager);
    let a = user(1);
    let p = prepare_memory(&core.store, &a, &content("readable")).unwrap();
    let added = add_memory(&mut core, &a, p, None, 1).unwrap();
    let get = |url: String| HttpRequest { method: "GET".to_string(), url, headers: Vec::new(), body: Vec::new() };
    let found = handle_get_memory(&core.store, &get(format!("/memories/{}", added.id))).ok().unwrap();
    assert_eq!(found.content, "readable");
    assert_eq!(handle_get_memory(&core.store, &get("/memories/none".to_string())).err(), Some(404));
    assert_eq!(handle_get_memory(&core.store, &get("/memories/".to_string())).err(), Some(400));
    assert_eq!(handle_list_memories(&get("/memories?limit=500&offset=3".to_string())), (3, 100));
    assert_eq!(handle_list_memories(&get("/memories".to_string())), (0, 50));

    let fresh = handle_get_config(&core.store, &a).unwrap();
    assert!(!fresh.has_openai_key);
    assert_eq!(fresh.api_provider, "OpenAI");
    assert_eq!(fresh.updated_at, None);
    assert_eq!(fresh.available_models.len(), 3);
    save_user_config(&mut core.store, &a, "sk-1234567890".to_string(), 4).unwrap();
    let set = handle_get_config(&core.store, &a).unwrap();
    assert!(set.has_openai_key);
    assert_eq!(set.openai_key_preview, Some("sk-12345...".to_string()));
    assert_eq!(set.updated_at, Some(4));
}

#[test]
fn a_search_is_checked_and_given_its_limit() {
    let ask = |query: &str, limit: Option<usize>| SearchRequest {
        query: query.to_string(),
        limit,
        tags: None,
    };
    assert_eq!(prepare_search(&ask("redis", None)).unwrap(), 10);
    assert_eq!(prepare_search(&ask("redis", Some(5))).unwrap(), 5);
    assert_eq!(prepare_search(&ask("redis", Some(100))).unwrap(), 100);
    let e = prepare_search(&ask("   ", Some(5))).unwrap_err();
    assert_eq!(e.status_code(), 400);
    assert_eq!(e.to_string(), "Validation error in 'query': Search query cannot be empty");
    assert!(prepare_search(&ask("redis", Some(0))).is_err());
    assert!(prepare_search(&ask("redis", Some(101))).is_err());
}

#[test]
fn a_search_by_meaning_or_by_keyword_is_recorded() {
    let mut manager = RegionManager::new();
    let mut core = service(&mut manager);
    let a = user(1);
    let first = prepare_memory(&core.store, &a, &content("Redis is an in-memory key-value store")).unwrap();
    let m1 = add_memory(&mut core, &a, first, Some(embedded(1.0, 0.0)), 10).unwrap();
    let second = prepare_memory(&core.store, &a, &content("Postgres is a relational database")).unwrap();
    let m2 = add_memory(&mut core, &a, second, Some(embedded(0.0, 1.0)), 11).unwrap();

    let query = EmbeddedQuery {
        vector: vec![0, 0],
        scores: vec![
            ScoredId { id: m1.id.clone(), score: 820_000 },
            ScoredId { id: m2.id.clone(), score: 410_000 },
        ],
    };
    let far = 40 * DAY_NS;
    let found =
        handle_semantic_search(&mut core, &a, "in-memory cache", Some(query), 5, &None, far).unwrap();
    assert_eq!(found.iter().map(|r| r.memory.id.clone()).collect::<Vec<_>>(), vec![m1.id.clone()]);

    let found = handle_semantic_search(&mut core, &a, "relational", None, 5, &None, far).unwrap();
    assert_eq!(found.iter().map(|r| r.memory.id.clone()).collect::<Vec<_>>(), vec![m2.id.clone()]);
    assert_eq!(found[0].similarity_score, 1_000_000);

    let history = core.suggestions.get_recent_search_suggestions(&a, "");
    assert_eq!(history.len(), 2);
    let stranger = handle_semantic_search(&mut core, &user(2), "relational", None, 5, &None, far).unwrap();
    assert!(stranger.is_empty());
}

#[test]
fn the_service_holds_its_entities_after_a_restart() {
    let mut manager = RegionManager::new();
    let mut core = service(&mut manager);
    let a = user(1);
    let first = prepare_memory(&core.store, &a, &content("kept over the restart")).unwrap();
    let m1 = add_memory(&mut core, &a, first, Some(embedded(3.0, 4.0)), 10).unwrap();
    let request = CreateTokenRequest { description: None, permissions: None, expires_in_days: Some(1) };
    let token = handle_create_token(&mut core, &a, request, 10).unwrap();

    let mut core = core.restart();
    let read = get_memory(&core.store, &m1.id).unwrap().unwrap();
    assert_eq!(read.content, "kept over the restart");
    assert_eq!(list_user_memories(&core.store, &a, 0, 10).unwrap().len(), 1);
    let entry = core.vectors.get_vector(&m1.id).unwrap().unwrap();
    assert_eq!(f32::from_bits(entry.norm), 5.0);
    assert_eq!(core.vectors.get_config().dimension, 2);
    let caller =
        authenticate_request(&bearer(&token.token), &mut core.store, &no_keys(), &no_keys(), 11)
            .unwrap();
    assert_eq!(caller.bytes, vec![1]);
    assert!(Core::new(&mut manager).is_none());
    assert!(Core::open(&mut manager, VectorStoreConfig::default()).is_none());
}

#[test]
fn a_service_opens_over_storage_that_holds_nothing() {
    let mut manager = RegionManager::new();
    let core = Core::open(&mut manager, VectorStoreConfig::default()).unwrap();
    assert_eq!(core.vectors.get_config().dimension, 1536);
    assert_eq!(core.vectors.get_vector_count(), 0);
    assert!(get_memory(&core.store, "m1").unwrap().is_none());
}
