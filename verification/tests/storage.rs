use openmemory::conversations::{
    get_conversation, get_conversation_count, get_user_conversations, save_conversation,
};
use openmemory::records::{
    decode_conversation, decode_config, decode_ids, decode_memory, decode_token,
    encode_conversation, encode_config, encode_ids, encode_memory, encode_token,
};
use openmemory::region::RegionManager;
use openmemory::settings::{
    delete_user_openai_key, get_user_config, get_user_openai_key, save_user_config,
    update_user_config,
};
use openmemory::storage::{
    count_memories_with_tag, delete_memory, get_avg_memory_size, get_memory, get_memory_count,
    get_user_count, index_list, init_storage, list_memories, list_user_memories, rebuild_vectors,
    store_memory, DerivedVector,
    store_memory_sync, Store,
};
use openmemory::suggestions::SuggestionsEngine;
use openmemory::tokens::{
    cleanup_expired_tokens, create_access_token, get_user_tokens, revoke_access_token,
    verify_access_token, DAY_NS,
};
use openmemory::types::{
    AccessToken, ApiProvider, Conversation, Memory, Permission, Principal, UserConfig,
};
use openmemory::vector_store::{
    decode_entry, encode_entry, rank_candidates, AdvancedVectorStore, ScoredId,
    SimilarityFunction, VectorEntry, VectorStoreConfig,
};

fn user(n: u8) -> Principal {
    Principal::from_slice(&[n]).unwrap()
}

fn memory(id: &str, owner: u8, content: &str, created_at: u64) -> Memory {
    Memory {
        id: id.to_string(),
        user_id: user(owner),
        content: content.to_string(),
        embedding: Vec::new(),
        metadata: Vec::new(),
        tags: Vec::new(),
        created_at,
        updated_at: created_at,
    }
}

fn small_vectors(manager: &mut RegionManager) -> AdvancedVectorStore {
    let mut vectors = AdvancedVectorStore::init(manager).unwrap();
    let config = VectorStoreConfig {
        dimension: 2,
        similarity_function: SimilarityFunction::Cosine,
        max_vectors: 100,
        index_threshold: 700_000,
    };
    vectors.update_config(config).unwrap();
    vectors
}

fn ids_of(memories: &Vec<Memory>) -> Vec<String> {
    memories.iter().map(|m| m.id.clone()).collect()
}

#[test]
fn a_stored_memory_is_read_back_and_indexed() {
    let mut manager = RegionManager::new();
    let mut store = Store::new(&mut manager).unwrap();
    let mut vectors = small_vectors(&mut manager);
    let mut suggestions = SuggestionsEngine::new();
    let mut m = memory("m1", 1, "Redis is an in-memory key-value store", 10);
    m.tags = vec!["Cache".to_string()];
    m.metadata = vec![("source".to_string(), "notes".to_string())];
    m.embedding = vec![1.0f32.to_bits(), 0.0f32.to_bits()];
    store_memory(&mut store, &mut vectors, &mut suggestions, m, 1.0f32.to_bits(), 42, 20).unwrap();

    let read = get_memory(&store, "m1").unwrap().unwrap();
    assert_eq!(read.id, "m1");
    assert_eq!(read.user_id.bytes, vec![1]);
    assert_eq!(read.content, "Redis is an in-memory key-value store");
    assert_eq!(read.embedding, vec![1.0f32.to_bits(), 0.0f32.to_bits()]);
    assert_eq!(read.metadata, vec![("source".to_string(), "notes".to_string())]);
    assert_eq!(read.tags, vec!["Cache".to_string()]);
    assert_eq!(read.created_at, 10);
    assert_eq!(read.updated_at, 20);
    assert!(get_memory(&store, "m2").unwrap().is_none());

    assert_eq!(index_list(&store.user_memories, &user(1), "t").unwrap(), vec!["m1".to_string()]);
    assert_eq!(get_memory_count(&store), 1);
    assert_eq!(get_user_count(&store), 1);
    let entry = vectors.get_vector("m1").unwrap().unwrap();
    assert_eq!(entry.vector.len(), 2);
    assert_eq!(entry.norm, 1.0f32.to_bits());
    assert_eq!(entry.created_at, 20);
    assert_eq!(vectors.get_vector_count(), 1);
    assert!(suggestions.knows_tag("cache"));
    assert!(suggestions.knows_tag("CACHE"));
    assert_eq!(suggestions.times_seen("redis"), 1);
    assert_eq!(suggestions.times_seen("in-memory"), 1);
    assert_eq!(suggestions.times_seen("is"), 0);
}

#[test]
fn storing_again_keeps_the_creation_time_and_the_index() {
    let mut manager = RegionManager::new();
    let mut store = Store::new(&mut manager).unwrap();
    let mut suggestions = SuggestionsEngine::new();
    store_memory_sync(&mut store, &mut suggestions, memory("m1", 1, "first", 10), 11).unwrap();
    store_memory_sync(&mut store, &mut suggestions, memory("m1", 1, "second", 50), 60).unwrap();
    let read = get_memory(&store, "m1").unwrap().unwrap();
    assert_eq!((read.content.as_str(), read.created_at, read.updated_at), ("second", 10, 60));
    assert_eq!(index_list(&store.user_memories, &user(1), "t").unwrap(), vec!["m1".to_string()]);
    assert_eq!(get_memory_count(&store), 1);
}

#[test]
fn a_vector_of_the_wrong_dimension_leaves_the_memory_stored() {
    let mut manager = RegionManager::new();
    let mut store = Store::new(&mut manager).unwrap();
    let mut vectors = small_vectors(&mut manager);
    let mut suggestions = SuggestionsEngine::new();
    let mut m = memory("m1", 1, "three coordinates", 10);
    m.embedding = vec![1, 2, 3];
    store_memory(&mut store, &mut vectors, &mut suggestions, m, 0, 0, 20).unwrap();
    assert!(get_memory(&store, "m1").unwrap().is_some());
    assert_eq!(vectors.get_vector_count(), 0);
    let e = vectors.add_vector("x".to_string(), vec![1], 0, 0, 0).unwrap_err();
    assert_eq!(e.category(), "validation");
    assert_eq!(
        e.to_string(),
        "Validation error in 'vector': Vector dimension does not match expected dimension"
    );
}

#[test]
fn only_the_owner_deletes() {
    let mut manager = RegionManager::new();
    let mut store = Store::new(&mut manager).unwrap();
    let mut vectors = small_vectors(&mut manager);
    let mut suggestions = SuggestionsEngine::new();
    let mut m = memory("m1", 1, "mine", 10);
    m.embedding = vec![1, 2];
    store_memory(&mut store, &mut vectors, &mut suggestions, m, 0, 7, 20).unwrap();
    store_memory_sync(&mut store, &mut suggestions, memory("m2", 1, "also mine", 11), 21).unwrap();

    let e = delete_memory(&mut store, &mut vectors, "m1", &user(2)).unwrap_err();
    assert_eq!(e.to_string(), "Authentication error (not_owner): Permission denied");
    assert!(get_memory(&store, "m1").unwrap().is_some());
    assert_eq!(delete_memory(&mut store, &mut vectors, "nope", &user(1)).unwrap(), false);

    assert_eq!(delete_memory(&mut store, &mut vectors, "m1", &user(1)).unwrap(), true);
    assert!(get_memory(&store, "m1").unwrap().is_none());
    assert!(vectors.get_vector("m1").unwrap().is_none());
    assert_eq!(index_list(&store.user_memories, &user(1), "t").unwrap(), vec!["m2".to_string()]);
    assert_eq!(delete_memory(&mut store, &mut vectors, "m1", &user(1)).unwrap(), false);
}

#[test]
fn listing_pages_filters_and_orders() {
    let mut manager = RegionManager::new();
    let mut store = Store::new(&mut manager).unwrap();
    let mut suggestions = SuggestionsEngine::new();
    store_memory_sync(&mut store, &mut suggestions, memory("a", 1, "a", 30), 0).unwrap();
    store_memory_sync(&mut store, &mut suggestions, memory("b", 2, "b", 10), 0).unwrap();
    store_memory_sync(&mut store, &mut suggestions, memory("c", 1, "c", 20), 0).unwrap();
    store_memory_sync(&mut store, &mut suggestions, memory("d", 1, "d", 20), 0).unwrap();
    store_memory_sync(&mut store, &mut suggestions, memory("e", 1, "e", 40), 0).unwrap();

    let all = list_memories(&store, 0, 10, None).unwrap();
    assert_eq!(ids_of(&all), vec!["e", "a", "c", "d", "b"]);
    // The page is cut from the rows in id order, before the filter.
    let page = list_memories(&store, 1, 3, None).unwrap();
    assert_eq!(ids_of(&page), vec!["c", "d", "b"]);
    let mine = list_memories(&store, 1, 3, Some(&user(1))).unwrap();
    assert_eq!(ids_of(&mine), vec!["c", "d"]);
    assert!(list_memories(&store, 5, 3, None).unwrap().is_empty());
    assert!(list_memories(&store, 0, 0, None).unwrap().is_empty());

    let owned = list_user_memories(&store, &user(1), 1, 2).unwrap();
    assert_eq!(ids_of(&owned), vec!["c", "d"]);
    let owned = list_user_memories(&store, &user(1), 0, 10).unwrap();
    assert_eq!(ids_of(&owned), vec!["e", "a", "c", "d"]);
    assert!(list_user_memories(&store, &user(3), 0, 10).unwrap().is_empty());
}

#[test]
fn a_listing_never_holds_more_than_a_hundred() {
    let mut manager = RegionManager::new();
    let mut store = Store::new(&mut manager).unwrap();
    let mut suggestions = SuggestionsEngine::new();
    for i in 0..105u64 {
        let id = format!("m{:03}", i);
        store_memory_sync(&mut store, &mut suggestions, memory(&id, 1, "x", i), 0).unwrap();
    }
    assert_eq!(list_memories(&store, 0, 1000, None).unwrap().len(), 100);
    assert_eq!(list_memories(&store, 100, 1000, None).unwrap().len(), 5);
}

#[test]
fn corrupt_rows_fail_their_read_and_are_passed_over() {
    let mut manager = RegionManager::new();
    let mut store = Store::new(&mut manager).unwrap();
    let mut vectors = small_vectors(&mut manager);
    let mut suggestions = SuggestionsEngine::new();
    store_memory_sync(&mut store, &mut suggestions, memory("good", 1, "fine", 1), 0).unwrap();
    // A conversation record under a memory key does not read as a memory.
    let stray = Conversation {
        id: "bad".to_string(),
        user_id: user(1),
        title: "t".to_string(),
        content: "c".to_string(),
        source: "s".to_string(),
        metadata: Vec::new(),
        word_count: 1,
        created_at: 0,
        updated_at: 0,
    };
    let mut other = Store::new(&mut RegionManager::new()).unwrap();
    save_conversation(&mut other, stray).unwrap();
    core::mem::swap(&mut store.conversations, &mut other.memories);
    core::mem::swap(&mut store.memories, &mut other.conversations);
    // Now `store.memories` holds the conversation record, and `other.conversations` the memory.
    let e = get_memory(&store, "bad").unwrap_err();
    assert_eq!(e.category(), "storage");
    assert_eq!(e.to_string(), "Storage error in 'get_memory': Stored value is corrupt");
    assert!(list_memories(&store, 0, 10, None).unwrap().is_empty());
    assert_eq!(count_memories_with_tag(&store, "x").unwrap(), 0);
    assert_eq!(get_avg_memory_size(&store).count, 0);
    assert_eq!(get_memory_count(&store), 1);
    let e = delete_memory(&mut store, &mut vectors, "bad", &user(1)).unwrap_err();
    assert_eq!(e.to_string(), "Storage error in 'delete_memory': Stored value is corrupt");
    let e = get_conversation(&other, "good").unwrap_err();
    assert_eq!(e.category(), "storage");
}

#[test]
fn counts_and_sizes() {
    let mut manager = RegionManager::new();
    let mut store = Store::new(&mut manager).unwrap();
    let mut suggestions = SuggestionsEngine::new();
    let mut a = memory("a", 1, "four", 1);
    a.tags = vec!["x".to_string(), "y".to_string()];
    let mut b = memory("b", 2, "sixsix", 2);
    b.tags = vec!["y".to_string()];
    store_memory_sync(&mut store, &mut suggestions, a, 0).unwrap();
    store_memory_sync(&mut store, &mut suggestions, b, 0).unwrap();
    assert_eq!(count_memories_with_tag(&store, "y").unwrap(), 2);
    assert_eq!(count_memories_with_tag(&store, "x").unwrap(), 1);
    assert_eq!(count_memories_with_tag(&store, "Y").unwrap(), 0);
    let sizes = get_avg_memory_size(&store);
    assert_eq!((sizes.total_bytes, sizes.count), (10, 2));
    assert_eq!(get_user_count(&store), 2);
}

#[test]
fn records_read_back_as_what_was_written_bit_for_bit() {
    let m = Memory {
        id: "id-\u{e9}".to_string(),
        user_id: user(9),
        content: "line one\nline two \u{1F600}".to_string(),
        embedding: vec![0, 1, u32::MAX, (-1.5f32).to_bits()],
        metadata: vec![("k".to_string(), "v".to_string()), ("".to_string(), "".to_string())],
        tags: vec!["a".to_string(), "".to_string(), "b-c".to_string()],
        created_at: u64::MAX,
        updated_at: 0,
    };
    let bytes = encode_memory(&m);
    let back = decode_memory(&bytes).unwrap();
    assert_eq!(back.id, m.id);
    assert_eq!(back.user_id.bytes, m.user_id.bytes);
    assert_eq!(back.content, m.content);
    assert_eq!(back.embedding, m.embedding);
    assert_eq!(
        back.metadata,
        vec![("".to_string(), "".to_string()), ("k".to_string(), "v".to_string())]
    );
    assert_eq!(back.tags, m.tags);
    assert_eq!((back.created_at, back.updated_at), (u64::MAX, 0));
    assert_eq!(encode_memory(&back), bytes);
    assert_eq!(&bytes[0..8], &[5, 0, 0, 0, 0, 0, 0, 0]);
    assert_eq!(&bytes[8..12], &[b'i', b'd', b'-', 0xC3]);
    assert!(decode_memory(&bytes[..bytes.len() - 1]).is_none());
    assert!(decode_memory(&[]).is_none());
    let mut broken = bytes.clone();
    broken[11] = 0xFF;
    assert!(decode_memory(&broken).is_none());

    let c = Conversation {
        id: "c1".to_string(),
        user_id: user(1),
        title: "Title".to_string(),
        content: "one two".to_string(),
        source: "api".to_string(),
        metadata: vec![("a".to_string(), "b".to_string())],
        word_count: 2,
        created_at: 5,
        updated_at: 6,
    };
    let bytes = encode_conversation(&c);
    let back = decode_conversation(&bytes).unwrap();
    assert_eq!((back.title.as_str(), back.word_count, back.updated_at), ("Title", 2, 6));
    assert_eq!(encode_conversation(&back), bytes);
    assert!(decode_memory(&bytes).is_none());

    let config = UserConfig {
        user_id: user(1),
        openai_api_key: Some("sk-1".to_string()),
        openrouter_api_key: None,
        api_provider: ApiProvider::OpenRouter,
        embedding_model: "model".to_string(),
        created_at: 1,
        updated_at: 2,
    };
    let bytes = encode_config(&config);
    let back = decode_config(&bytes).unwrap();
    assert_eq!(back.openai_api_key, Some("sk-1".to_string()));
    assert_eq!(back.openrouter_api_key, None);
    assert_eq!(back.api_provider, ApiProvider::OpenRouter);
    assert_eq!(encode_config(&back), bytes);

    let token = AccessToken {
        token: "om_token_x".to_string(),
        owner_principal: user(3),
        issued_to: Some("cli".to_string()),
        permissions: vec![Permission::Read, Permission::ManageConfig, Permission::Delete],
        expires_at: 9,
        created_at: 8,
        last_used_at: Some(7),
    };
    let bytes = encode_token(&token);
    let back = decode_token(&bytes).unwrap();
    assert_eq!(back.permissions, token.permissions);
    assert_eq!(back.last_used_at, Some(7));
    assert_eq!(back.issued_to, Some("cli".to_string()));
    assert_eq!(encode_token(&back), bytes);

    let ids = vec!["a".to_string(), "".to_string(), "ccc".to_string()];
    let bytes = encode_ids(&ids);
    assert_eq!(decode_ids(&bytes).unwrap(), ids);
    assert_eq!(encode_ids(&Vec::new()), Vec::<u8>::new());
    assert_eq!(decode_ids(&[]).unwrap(), Vec::<String>::new());

    let entry = VectorEntry { id: "v".to_string(), vector: vec![1, 2, 3], created_at: 4, norm: 5 };
    let bytes = encode_entry(&entry);
    let back = decode_entry(&bytes).unwrap();
    assert_eq!((back.vector.clone(), back.created_at, back.norm), (vec![1, 2, 3], 4, 5));
    assert_eq!(encode_entry(&back), bytes);
}

#[test]
fn what_is_stored_is_there_after_a_restart() {
    let mut manager = RegionManager::new();
    let mut store = Store::new(&mut manager).unwrap();
    let mut suggestions = SuggestionsEngine::new();
    store_memory_sync(&mut store, &mut suggestions, memory("m1", 1, "kept", 3), 4).unwrap();
    create_access_token(&mut store, &user(1), None, vec![Permission::Read], 1, 0, "u").unwrap();
    let store = store.reopen();
    let read = get_memory(&store, "m1").unwrap().unwrap();
    assert_eq!((read.content.as_str(), read.created_at, read.updated_at), ("kept", 3, 4));
    assert_eq!(index_list(&store.user_memories, &user(1), "t").unwrap(), vec!["m1".to_string()]);
    assert_eq!(get_user_tokens(&store, &user(1)).unwrap().len(), 1);
}

#[test]
fn conversations_are_saved_and_listed() {
    let mut manager = RegionManager::new();
    let mut store = Store::new(&mut manager).unwrap();
    for (id, at) in [("c1", 5u64), ("c2", 9), ("c3", 7)] {
        let c = Conversation {
            id: id.to_string(),
            user_id: user(1),
            title: "t".to_string(),
            content: "some words".to_string(),
            source: "api".to_string(),
            metadata: Vec::new(),
            word_count: 2,
            created_at: at,
            updated_at: at,
        };
        save_conversation(&mut store, c).unwrap();
    }
    assert_eq!(get_conversation_count(&store), 3);
    assert_eq!(get_conversation(&store, "c2").unwrap().unwrap().created_at, 9);
    assert!(get_conversation(&store, "c9").unwrap().is_none());
    let listed = get_user_conversations(&store, &user(1), 10, 0).unwrap();
    let ids: Vec<&str> = listed.iter().map(|c| c.id.as_str()).collect();
    assert_eq!(ids, vec!["c2", "c3", "c1"]);
    let listed = get_user_conversations(&store, &user(1), 1, 1).unwrap();
    assert_eq!(listed[0].id, "c2");
    assert!(get_user_conversations(&store, &user(2), 10, 0).unwrap().is_empty());
}

#[test]
fn settings_are_made_on_the_first_write() {
    let mut manager = RegionManager::new();
    let mut store = Store::new(&mut manager).unwrap();
    assert!(get_user_config(&store, &user(1)).unwrap().is_none());
    assert_eq!(get_user_openai_key(&store, &user(1)), None);
    assert_eq!(delete_user_openai_key(&mut store, &user(1), 5).unwrap(), false);
    save_user_config(&mut store, &user(1), "sk-1".to_string(), 10).unwrap();
    let c = get_user_config(&store, &user(1)).unwrap().unwrap();
    assert_eq!(c.openai_api_key, Some("sk-1".to_string()));
    assert_eq!(c.api_provider, ApiProvider::OpenAI);
    assert_eq!(c.embedding_model, "text-embedding-ada-002");
    assert_eq!((c.created_at, c.updated_at), (10, 10));
    update_user_config(
        &mut store,
        &user(1),
        None,
        Some("or-1".to_string()),
        Some(ApiProvider::OpenRouter),
        Some("m".to_string()),
        20,
    )
    .unwrap();
    let c = get_user_config(&store, &user(1)).unwrap().unwrap();
    assert_eq!(c.openai_api_key, Some("sk-1".to_string()));
    assert_eq!(c.openrouter_api_key, Some("or-1".to_string()));
    assert_eq!(c.api_provider, ApiProvider::OpenRouter);
    assert_eq!((c.embedding_model.as_str(), c.created_at, c.updated_at), ("m", 10, 20));
    assert_eq!(get_user_openai_key(&store, &user(1)), Some("sk-1".to_string()));
    assert_eq!(delete_user_openai_key(&mut store, &user(1), 30).unwrap(), true);
    assert_eq!(get_user_openai_key(&store, &user(1)), None);
    assert_eq!(get_user_config(&store, &user(1)).unwrap().unwrap().updated_at, 30);
}

#[test]
fn tokens_live_expire_and_are_revoked() {
    let mut manager = RegionManager::new();
    let mut store = Store::new(&mut manager).unwrap();
    let t = create_access_token(
        &mut store,
        &user(1),
        Some("cli".to_string()),
        vec![Permission::Read, Permission::Write],
        1,
        1_000,
        "abc",
    )
    .unwrap();
    assert_eq!(t.token, "om_token_abc");
    assert_eq!(t.expires_at, 1_000 + DAY_NS);
    assert_eq!(t.created_at, 1_000);
    assert!(t.expires_at > t.created_at);
    assert!(create_access_token(&mut store, &user(1), None, Vec::new(), 0, 0, "x").is_err());
    assert!(create_access_token(&mut store, &user(1), None, Vec::new(), 366, 0, "x").is_err());
    assert!(create_access_token(&mut store, &user(1), None, Vec::new(), 365, 0, "y").is_ok());
    assert!(create_access_token(&mut store, &user(1), None, Vec::new(), 1, u64::MAX, "z").is_err());

    assert_eq!(verify_access_token(&mut store, "om_token_abc", 2_000).unwrap().bytes, vec![1]);
    let infos = get_user_tokens(&store, &user(1)).unwrap();
    assert_eq!(infos.len(), 2);
    assert_eq!(infos[0].description, Some("cli".to_string()));
    assert_eq!(infos[0].last_used_at, Some(2_000));
    assert_eq!(infos[0].permissions, vec![Permission::Read, Permission::Write]);
    assert!(get_user_tokens(&store, &user(2)).unwrap().is_empty());
    // At the moment of expiry the token is still alive.
    assert!(verify_access_token(&mut store, "om_token_abc", 1_000 + DAY_NS).is_ok());
    let e = verify_access_token(&mut store, "om_token_abc", 1_001 + DAY_NS).unwrap_err();
    assert_eq!(e.status_code(), 401);
    assert_eq!(e.to_string(), "Authentication error (expired): Token expired");
    let e = verify_access_token(&mut store, "om_token_abc", 2_000).unwrap_err();
    assert_eq!(e.to_string(), "Authentication error (invalid_token): Invalid token");
    assert_eq!(get_user_tokens(&store, &user(1)).unwrap().len(), 1);

    let e = revoke_access_token(&mut store, "om_token_y", &user(2)).unwrap_err();
    assert_eq!(e.to_string(), "Authentication error (not_owner): Unauthorized to revoke this token");
    assert_eq!(revoke_access_token(&mut store, "om_token_none", &user(1)).unwrap(), false);
    assert_eq!(revoke_access_token(&mut store, "om_token_y", &user(1)).unwrap(), true);
    assert!(get_user_tokens(&store, &user(1)).unwrap().is_empty());
}

#[test]
fn a_sweep_removes_what_is_over() {
    let mut manager = RegionManager::new();
    let mut store = Store::new(&mut manager).unwrap();
    create_access_token(&mut store, &user(1), None, Vec::new(), 1, 0, "a").unwrap();
    create_access_token(&mut store, &user(1), None, Vec::new(), 2, 0, "b").unwrap();
    create_access_token(&mut store, &user(2), None, Vec::new(), 3, 0, "c").unwrap();
    assert_eq!(cleanup_expired_tokens(&mut store, DAY_NS).unwrap(), 0);
    assert_eq!(cleanup_expired_tokens(&mut store, 2 * DAY_NS + 1).unwrap(), 2);
    assert!(get_user_tokens(&store, &user(1)).unwrap().is_empty());
    assert_eq!(get_user_tokens(&store, &user(2)).unwrap().len(), 1);
    assert_eq!(cleanup_expired_tokens(&mut store, 2 * DAY_NS + 1).unwrap(), 0);
}

#[test]
fn vectors_are_bucketed_and_excised() {
    let mut manager = RegionManager::new();
    let mut vectors = small_vectors(&mut manager);
    vectors.add_vector("a".to_string(), vec![1, 2], 3, 7, 100).unwrap();
    vectors.add_vector("b".to_string(), vec![3, 4], 5, 7, 101).unwrap();
    vectors.add_vector("c".to_string(), vec![5, 6], 7, 8, 102).unwrap();
    vectors.add_vector("a".to_string(), vec![9, 9], 9, 7, 103).unwrap();
    assert_eq!(vectors.get_vector_count(), 3);
    assert_eq!(vectors.get_vector("a").unwrap().unwrap().vector, vec![9, 9]);
    let stats = vectors.get_statistics();
    assert_eq!((stats.total_vectors, stats.dimension), (3, 2));
    assert_eq!(stats.norms, vec![9, 5, 7]);
    assert_eq!(stats.similarity_function, SimilarityFunction::Cosine);
    let entries = vectors.entries();
    let ids: Vec<&str> = entries.iter().map(|e| e.id.as_str()).collect();
    assert_eq!(ids, vec!["a", "b", "c"]);
    assert_eq!(vectors.remove_vector("a").unwrap(), true);
    assert_eq!(vectors.remove_vector("a").unwrap(), false);
    assert_eq!(vectors.remove_vector("c").unwrap(), true);
    assert_eq!(vectors.get_vector_count(), 1);
    assert_eq!(vectors.get_config().dimension, 2);
    assert_eq!(VectorStoreConfig::default().dimension, 1536);
    assert_eq!(VectorStoreConfig::default().index_threshold, 700_000);
}

#[test]
fn candidates_are_ranked_by_score_then_id() {
    let scored = |id: &str, score: i64| ScoredId { id: id.to_string(), score };
    let ranked = rank_candidates(
        vec![scored("d", 800_000), scored("b", 900_000), scored("a", 800_000), scored("c", 699_999), scored("e", 700_000)],
        700_000,
        3,
    );
    let got: Vec<(&str, i64)> = ranked.iter().map(|s| (s.id.as_str(), s.score)).collect();
    assert_eq!(got, vec![("b", 900_000), ("a", 800_000), ("d", 800_000)]);
    assert!(rank_candidates(vec![scored("a", 1)], 2, 10).is_empty());
    assert!(rank_candidates(vec![scored("a", 5)], 2, 0).is_empty());
    let mut manager = RegionManager::new();
    let mut vectors = small_vectors(&mut manager);
    // Nothing is stored yet: no candidate is admitted.
    let found = vectors
        .search_similar(&[0, 0], vec![scored("x", 750_000), scored("y", 600_000)], 10, None)
        .unwrap();
    assert!(found.is_empty());
    vectors.add_vector("x".to_string(), vec![1, 2], 0, 0, 0).unwrap();
    vectors.add_vector("y".to_string(), vec![3, 4], 0, 0, 0).unwrap();
    // Of two scores for one id the first counts; an id without an entry is passed over.
    let found = vectors
        .search_similar(
            &[0, 0],
            vec![scored("x", 750_000), scored("gone", 990_000), scored("x", 999_000), scored("y", 800_000)],
            10,
            None,
        )
        .unwrap();
    let got: Vec<(&str, i64)> = found.iter().map(|s| (s.id.as_str(), s.score)).collect();
    assert_eq!(got, vec![("y", 800_000), ("x", 750_000)]);
    let found = vectors
        .search_similar(&[0, 0], vec![scored("x", 750_000), scored("y", 600_000)], 10, None)
        .unwrap();
    assert_eq!(found.len(), 1);
    let found = vectors
        .search_similar(&[0, 0], vec![scored("x", 750_000), scored("y", 600_000)], 10, Some(500_000))
        .unwrap();
    assert_eq!(found.len(), 2);
    assert!(vectors.search_similar(&[0], Vec::new(), 10, None).is_err());
}

#[test]
fn a_sub_region_is_handed_out_once() {
    let mut manager = RegionManager::new();
    assert!(manager.is_free(0) && manager.is_free(7) && !manager.is_free(255));
    let first = Store::new(&mut manager);
    assert!(first.is_some());
    assert!(!manager.is_free(0) && !manager.is_free(5) && manager.is_free(6));
    assert!(Store::new(&mut manager).is_none());
    assert!(init_storage(&mut manager).is_none());
    assert!(AdvancedVectorStore::init(&mut manager).is_some());
    assert!(AdvancedVectorStore::open(&mut manager, Default::default()).is_none());
    assert!(!manager.is_free(6) && !manager.is_free(7) && manager.is_free(8));
}

#[test]
fn storage_that_holds_nothing_opens_empty() {
    let mut manager = RegionManager::new();
    let store = init_storage(&mut manager).unwrap();
    assert_eq!(get_memory_count(&store), 0);
    assert!(get_memory(&store, "m1").unwrap().is_none());
}

#[test]
fn vectors_are_there_after_a_restart() {
    let mut manager = RegionManager::new();
    let mut vectors = small_vectors(&mut manager);
    vectors.add_vector("m1".to_string(), vec![1, 2], 9, 4, 5).unwrap();
    let vectors = vectors.reopen();
    let entry = vectors.get_vector("m1").unwrap().unwrap();
    assert_eq!((entry.vector, entry.norm, entry.created_at), (vec![1, 2], 9, 5));
    assert_eq!(vectors.get_vector_count(), 1);
    assert_eq!(vectors.get_config().dimension, 2);
}

#[test]
fn a_rebuild_gives_stored_embeddings_their_vectors() {
    let mut manager = RegionManager::new();
    let mut store = Store::new(&mut manager).unwrap();
    let mut vectors = small_vectors(&mut manager);
    let mut suggestions = SuggestionsEngine::new();
    let mut with_vector = memory("m1", 1, "has a vector", 3);
    with_vector.embedding = vec![7, 8];
    let mut wrong = memory("m2", 1, "has three numbers", 3);
    wrong.embedding = vec![1, 2, 3];
    store_memory_sync(&mut store, &mut suggestions, with_vector, 4).unwrap();
    store_memory_sync(&mut store, &mut suggestions, wrong, 4).unwrap();
    store_memory_sync(&mut store, &mut suggestions, memory("m3", 1, "has none", 3), 4).unwrap();
    assert_eq!(vectors.get_vector_count(), 0);
    let derived = vec![
        DerivedVector { id: "m1".to_string(), norm: 11, bucket: 5 },
        DerivedVector { id: "m2".to_string(), norm: 12, bucket: 5 },
        DerivedVector { id: "m3".to_string(), norm: 13, bucket: 5 },
        DerivedVector { id: "gone".to_string(), norm: 14, bucket: 5 },
    ];
    assert_eq!(rebuild_vectors(&store, &mut vectors, &derived, 9), 1);
    assert_eq!(vectors.get_vector_count(), 1);
    let entry = vectors.get_vector("m1").unwrap().unwrap();
    assert_eq!((entry.vector, entry.norm, entry.created_at), (vec![7, 8], 11, 9));
    assert!(vectors.get_vector("m2").unwrap().is_none());
    assert_eq!(rebuild_vectors(&store, &mut vectors, &derived, 10), 1);
    assert_eq!(vectors.get_vector_count(), 1);
}

#[test]
fn metadata_is_written_in_the_byte_order_of_its_keys() {
    let pair = |k: &str, v: &str| (k.to_string(), v.to_string());
    let mut a = memory("m", 1, "text", 1);
    a.metadata = vec![pair("b", "2"), pair("a", "1"), pair("\u{e9}", "3"), pair("B", "4")];
    let mut b = memory("m", 1, "text", 1);
    b.metadata = vec![pair("B", "4"), pair("\u{e9}", "3"), pair("a", "0"), pair("b", "2"), pair("a", "1")];
    assert_eq!(encode_memory(&a), encode_memory(&b));
    let back = decode_memory(&encode_memory(&b)).unwrap();
    assert_eq!(
        back.metadata,
        vec![pair("B", "4"), pair("a", "1"), pair("b", "2"), pair("\u{e9}", "3")]
    );
    assert_eq!(openmemory::metadata::order_pairs(&back.metadata), back.metadata);
    let mut other = memory("m", 1, "text", 1);
    other.metadata = vec![pair("a", "1"), pair("b", "3")];
    assert_ne!(encode_memory(&a), encode_memory(&other));

    let mut manager = RegionManager::new();
    let mut store = Store::new(&mut manager).unwrap();
    let mut suggestions = SuggestionsEngine::new();
    store_memory_sync(&mut store, &mut suggestions, a, 2).unwrap();
    let read = get_memory(&store, "m").unwrap().unwrap();
    assert_eq!(read.metadata[0], pair("B", "4"));
    assert_eq!(read.metadata.len(), 4);
}

#[test]
fn an_id_stands_once_in_the_list_of_its_owner() {
    let mut manager = RegionManager::new();
    let mut store = Store::new(&mut manager).unwrap();
    let mut suggestions = SuggestionsEngine::new();
    store_memory_sync(&mut store, &mut suggestions, memory("a", 1, "one", 1), 1).unwrap();
    store_memory_sync(&mut store, &mut suggestions, memory("b", 1, "two", 2), 2).unwrap();
    store_memory_sync(&mut store, &mut suggestions, memory("a", 1, "one again", 3), 3).unwrap();
    assert_eq!(
        index_list(&store.user_memories, &user(1), "t").unwrap(),
        vec!["a".to_string(), "b".to_string()]
    );
    let read = get_memory(&store, "a").unwrap().unwrap();
    assert_eq!((read.content.as_str(), read.created_at, read.updated_at), ("one again", 1, 3));
}
