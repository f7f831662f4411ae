use openmemory::auth::{
    extract_api_key, generate_auth_token, is_anonymous, is_token_expired, verify_api_key,
    verify_token, KeyTable,
};
use openmemory::config::{AuthMethod, Config};
use openmemory::embedding::{check_embedding_status, generate_embedding_for_user, should_retry};
use openmemory::errors::{ErrorResponse, OpenMemoryError};
use openmemory::http_handlers::{
    handle_cors_preflight, handle_get_categories, handle_http_request, handle_http_request_update,
    parse_count, route_query, route_update, QueryRoute, UpdateRoute,
};
use openmemory::internet_identity::{
    create_ii_session, extract_ii_session, extract_principal_from_delegation,
    extract_session_from_cookie, generate_session_key, verify_delegation_chain, IIDelegationData,
    SessionRegistry,
};
use openmemory::search::preprocess_query;
use openmemory::settings::{get_available_models, key_preview};
use openmemory::text::{
    decimal_string, parse_number, str_blank, str_contains, str_starts_with, str_strip_prefix,
    str_trim, word_count,
};
use openmemory::types::{ApiProvider, AuthToken, HttpRequest, Principal, UserConfig};
use openmemory::utils::{
    create_cors_headers, error_response, extract_bearer_token, extract_path, extract_path_param,
    generate_uuid, get_param, parse_query_params, success_response, IdCounter,
};

fn request(method: &str, url: &str, headers: Vec<(&str, &str)>) -> HttpRequest {
    HttpRequest {
        method: method.to_string(),
        url: url.to_string(),
        headers: headers.into_iter().map(|(k, v)| (k.to_string(), v.to_string())).collect(),
        body: Vec::new(),
    }
}

#[test]
fn test_extract_session_from_cookie() {
    let cookie = "theme=dark; ii_session=abc123; lang=en";
    assert_eq!(extract_session_from_cookie(cookie), Some("abc123".to_string()));

    let cookie_no_session = "theme=dark; lang=en";
    assert_eq!(extract_session_from_cookie(cookie_no_session), None);
}

#[test]
fn test_preprocess_query() {
    assert_eq!(preprocess_query("  Hello, World!  "), "hello world");
    assert_eq!(preprocess_query("Test@#$%Query"), "testquery");
    assert_eq!(preprocess_query("multiple   spaces"), "multiple spaces");
}

#[test]
fn test_extract_path_param() {
    assert_eq!(extract_path_param("/memories/123", "/memories/{id}"), Some("123".to_string()));
    assert_eq!(
        extract_path_param("/users/abc/memories", "/users/{id}/memories"),
        Some("abc".to_string())
    );
}

#[test]
fn test_extract_path() {
    assert_eq!(extract_path("/memories"), "/memories");
    assert_eq!(extract_path("/memories?q=test"), "/memories");
    assert_eq!(extract_path("memories/123"), "/memories/123");
}

#[test]
fn test_parse_query_params() {
    let params = parse_query_params("/search?q=test&limit=5");
    assert_eq!(get_param(&params, "q"), Some("test".to_string()));
    assert_eq!(get_param(&params, "limit"), Some("5".to_string()));
}

#[test]
fn test_verify_token() {
    let tokens = KeyTable {
        entries: vec![("test-token".to_string(), Principal::from_slice(&[1]).unwrap())],
        fallback: None,
    };
    // Test with valid test token
    let known = verify_token(&tokens, "test-token");
    assert!(known.is_ok());

    // Test with invalid token
    let unknown = verify_token(&tokens, "invalid-token");
    // This should return an error
    assert!(unknown.is_err());
}

#[test]
fn test_is_token_expired() {
    let now: u64 = 1_000_000;
    let token = AuthToken {
        token: "test".to_string(),
        user_id: Principal::anonymous(),
        expires_at: now - 1000, // Expired
    };
    assert!(is_token_expired(&token, now));

    let token = AuthToken {
        token: "test".to_string(),
        user_id: Principal::anonymous(),
        expires_at: now + 1000, // Not expired
    };
    assert!(!is_token_expired(&token, now));
}

#[test]
fn test_is_anonymous() {
    assert!(is_anonymous(&Principal::anonymous()));
    assert!(!is_anonymous(&Principal::from_text("rdmx6-jaaaa-aaaaa-aaadq-cai").unwrap()));
}

#[test]
fn test_session_key_generation() {
    let caller = Principal::from_text("rdmx6-jaaaa-aaaaa-aaadq-cai").unwrap();
    let key1 = generate_session_key(1, &caller);
    let key2 = generate_session_key(2, &caller);
    assert_ne!(key1, key2);
    assert_eq!(key1.len(), 64); // SHA256 hex string length
}

#[test]
fn principal_text_goes_there_and_back() {
    let p = Principal::from_text("rrkah-fqaaa-aaaaa-aaaaq-cai").unwrap();
    assert_eq!(p.bytes, vec![0, 0, 0, 0, 0, 0, 0, 1, 1, 1]);
    assert_eq!(p.to_text(), "rrkah-fqaaa-aaaaa-aaaaq-cai");
    assert_eq!(Principal::anonymous().to_text(), "2vxsx-fae");
    assert!(Principal::from_text("not a principal").is_none());
    assert!(Principal::from_slice(&[0u8; 29]).is_some());
    assert!(Principal::from_slice(&[0u8; 30]).is_none());
}

#[test]
fn session_key_is_the_hex_digest_of_time_and_caller() {
    // SHA-256 of "0" followed by "2vxsx-fae".
    let key = generate_session_key(0, &Principal::anonymous());
    assert_eq!(key.len(), 64);
    assert!(key.chars().all(|c| c.is_ascii_hexdigit() && !c.is_ascii_uppercase()));
    assert_eq!(key, generate_session_key(0, &Principal::anonymous()));
}

#[test]
fn uuid_has_the_shape_of_an_id_and_counts_on() {
    let mut counter = IdCounter::new();
    let caller = Principal::from_slice(&[7]).unwrap();
    let a = generate_uuid(&mut counter, 5, &caller);
    let b = generate_uuid(&mut counter, 5, &caller);
    assert_eq!(counter.count, 2);
    assert_ne!(a, b);
    let groups: Vec<&str> = a.split('-').collect();
    let lengths: Vec<usize> = groups.iter().map(|g| g.len()).collect();
    assert_eq!(lengths, vec![8, 4, 4, 4, 12]);
    assert!(a.chars().all(|c| c == '-' || (c.is_ascii_hexdigit() && !c.is_ascii_uppercase())));
    let mut again = IdCounter::new();
    assert_eq!(generate_uuid(&mut again, 5, &caller), a);
}

#[test]
fn uuid_of_a_known_seed() {
    // SHA-256 of sixteen zero bytes and the byte 4 starts with these bytes.
    let mut counter = IdCounter { count: u64::MAX };
    let id = generate_uuid(&mut counter, 0, &Principal::anonymous());
    assert_eq!(counter.count, 0);
    assert_eq!(id.len(), 36);
    let mut other = IdCounter { count: u64::MAX };
    assert_ne!(generate_uuid(&mut other, 1, &Principal::anonymous()), id);
}

#[test]
fn delegation_names_a_principal_by_its_digest() {
    // "aGVsbG8=" is the base-64 text of "hello".
    let text = extract_principal_from_delegation(b"hello");
    assert_eq!(text, "2vxsx-fae-2cf24dba5fb0a30e26e8");
    let chain = vec![IIDelegationData { delegation: "aGVsbG8=".to_string(), signature: String::new() }];
    // The text above is no principal, so the chain is refused on the principal.
    let e = verify_delegation_chain(&chain, "").unwrap_err();
    assert_eq!(e.to_string(), "Authentication error (delegation): Invalid principal");
    let bad = vec![IIDelegationData { delegation: "***".to_string(), signature: String::new() }];
    let e = verify_delegation_chain(&bad, "").unwrap_err();
    assert_eq!(e.to_string(), "Authentication error (delegation): Invalid delegation encoding");
    let e = verify_delegation_chain(&Vec::new(), "").unwrap_err();
    assert_eq!(e.to_string(), "Authentication error (delegation): Empty delegation chain");
}

#[test]
fn sessions_open_expire_and_close() {
    let mut registry = SessionRegistry::new();
    let user = Principal::from_slice(&[9]).unwrap();
    let chain = vec![IIDelegationData { delegation: "d".to_string(), signature: "s".to_string() }];
    let session = create_ii_session(user, chain, "key".to_string(), 100).unwrap();
    assert_eq!(session.expires_at, 100 + 86_400_000_000_000);
    assert_eq!(session.delegation_chain.len(), 1);
    assert_eq!(session.delegation_chain[0].expiration, session.expires_at);
    registry.open_session(session);
    assert_eq!(registry.verify_ii_session("key", 200).unwrap().bytes, vec![9]);
    assert_eq!(registry.list_active_sessions(200).len(), 1);
    assert_eq!(registry.list_active_sessions(200)[0].session_key, "key");
    let late = 100 + 86_400_000_000_000 + 1;
    assert_eq!(
        registry.verify_ii_session("key", late).unwrap_err().to_string(),
        "Authentication error (session): Session expired"
    );
    assert_eq!(
        registry.verify_ii_session("other", 200).unwrap_err().to_string(),
        "Authentication error (session): Invalid session"
    );
    assert!(registry.list_active_sessions(late).is_empty());
    assert!(!registry.revoke_session("other"));
    registry.cleanup_expired_sessions(late);
    assert_eq!(registry.sessions.len(), 0);
    assert!(!registry.revoke_session("key"));
}

#[test]
fn session_is_read_from_header_before_cookie() {
    let req = request(
        "GET",
        "/",
        vec![("Cookie", "a=b; ii_session=from-cookie"), ("X-II-Session", "from-header")],
    );
    assert_eq!(extract_ii_session(&req), Some("from-header".to_string()));
    let req = request("GET", "/", vec![("cookie", "a=b;  ii_session=from-cookie ")]);
    assert_eq!(extract_ii_session(&req), Some("from-cookie".to_string()));
    let req = request("GET", "/", vec![("cookie", "a=b")]);
    assert_eq!(extract_ii_session(&req), None);
}

#[test]
fn bearer_token_and_api_key_are_read_from_headers() {
    let headers = vec![
        ("Content-Type".to_string(), "application/json".to_string()),
        ("AUTHORIZATION".to_string(), "Basic abc".to_string()),
        ("Authorization".to_string(), "Bearer om_token_1".to_string()),
        ("X-API-Key".to_string(), "key-1".to_string()),
    ];
    assert_eq!(extract_bearer_token(&headers), Some("om_token_1".to_string()));
    assert_eq!(extract_api_key(&headers), Some("key-1".to_string()));
    let headers = vec![("x-oc-api-key".to_string(), "key-2".to_string())];
    assert_eq!(extract_bearer_token(&headers), None);
    assert_eq!(extract_api_key(&headers), Some("key-2".to_string()));
    assert_eq!(extract_api_key(&Vec::new()), None);
}

#[test]
fn api_keys_map_to_configured_principals() {
    let dev = Principal::from_slice(&[1]).unwrap();
    let other = Principal::from_slice(&[2]).unwrap();
    let keys = KeyTable { entries: vec![("dev-key".to_string(), dev)], fallback: Some(other) };
    assert_eq!(verify_api_key(&keys, "dev-key").unwrap().bytes, vec![1]);
    assert_eq!(verify_api_key(&keys, "om_12345678").unwrap().bytes, vec![2]);
    assert!(verify_api_key(&keys, "om_1234567").is_err());
    assert!(verify_api_key(&keys, "xx_12345678").is_err());
    let strict = KeyTable { entries: Vec::new(), fallback: None };
    let e = verify_api_key(&strict, "om_12345678").unwrap_err();
    assert_eq!(e.status_code(), 401);
    assert_eq!(e.to_string(), "Authentication error (api_key): Invalid API key");
}

#[test]
fn auth_token_lives_one_day() {
    let t = generate_auth_token(Principal::from_slice(&[1]).unwrap(), "t".to_string(), 5);
    assert_eq!(t.expires_at, 5 + 86_400_000_000_000);
    assert!(!is_token_expired(&t, t.expires_at));
    assert!(is_token_expired(&t, t.expires_at + 1));
    let late = generate_auth_token(Principal::from_slice(&[1]).unwrap(), "t".to_string(), u64::MAX);
    assert_eq!(late.expires_at, u64::MAX);
}

#[test]
fn paths_and_parameters() {
    assert_eq!(extract_path("/a/b?x=1#frag"), "/a/b");
    assert_eq!(extract_path(""), "/");
    assert_eq!(extract_path_param("/memories", "/memories/{id}"), None);
    assert_eq!(extract_path_param("/a/b", "/a/b"), None);
    assert_eq!(extract_path_param("/a//c", "/a/{x}/c"), Some(String::new()));
    let params = parse_query_params("/s?q=a%20b&q=c&flag&empty=&bad=%ff");
    assert_eq!(
        params,
        vec![
            ("q".to_string(), "a b".to_string()),
            ("q".to_string(), "c".to_string()),
            ("empty".to_string(), "".to_string()),
            ("bad".to_string(), "".to_string()),
        ]
    );
    assert_eq!(get_param(&params, "q"), Some("c".to_string()));
    assert_eq!(get_param(&params, "flag"), None);
    assert!(parse_query_params("/s").is_empty());
}

#[test]
fn responses_carry_the_fixed_headers() {
    let headers = create_cors_headers();
    assert_eq!(headers.len(), 6);
    assert_eq!(headers[0], ("Access-Control-Allow-Origin".to_string(), "*".to_string()));
    assert_eq!(
        headers[1],
        ("Access-Control-Allow-Methods".to_string(), "GET, POST, PUT, DELETE, OPTIONS".to_string())
    );
    assert_eq!(
        headers[2],
        (
            "Access-Control-Allow-Headers".to_string(),
            "Content-Type, Authorization, X-API-Key, X-Requested-With".to_string()
        )
    );
    assert_eq!(headers[4], ("Access-Control-Max-Age".to_string(), "86400".to_string()));
    let ok = success_response(b"{}".to_vec(), 201);
    assert_eq!((ok.status_code, ok.body.clone(), ok.upgrade), (201, b"{}".to_vec(), None));
    assert_eq!(ok.headers, headers);
    let bad = error_response(404, b"nope".to_vec());
    assert_eq!((bad.status_code, bad.body, bad.upgrade), (404, b"nope".to_vec(), None));
    let preflight = handle_cors_preflight();
    assert_eq!(preflight.status_code, 204);
    assert!(preflight.body.is_empty());
    assert_eq!(preflight.upgrade, Some(false));
    assert_eq!(preflight.headers, headers);
}

#[test]
fn requests_are_routed_by_method_and_path() {
    assert_eq!(route_query("GET", "/health"), QueryRoute::Health);
    assert_eq!(route_query("GET", "/stats"), QueryRoute::Stats);
    assert_eq!(route_query("GET", "/stats/vectors"), QueryRoute::VectorStats);
    assert_eq!(route_query("GET", "/suggestions"), QueryRoute::Suggestions);
    assert_eq!(route_query("GET", "/memories/search"), QueryRoute::SearchNeedsPost);
    assert_eq!(route_query("GET", "/memories/42"), QueryRoute::GetMemory);
    assert_eq!(route_query("GET", "/memories"), QueryRoute::ListMemories);
    assert_eq!(route_query("POST", "/memories"), QueryRoute::Upgrade);
    assert_eq!(route_query("GET", "/config"), QueryRoute::Upgrade);
    assert_eq!(route_query("DELETE", "/auth/tokens/om_token_x"), QueryRoute::Upgrade);
    assert_eq!(route_query("OPTIONS", "/anything"), QueryRoute::Preflight);
    assert_eq!(route_query("PUT", "/memories"), QueryRoute::NotFound);
    assert_eq!(route_query("get", "/health"), QueryRoute::NotFound);
    assert_eq!(route_update("POST", "/memories/search"), UpdateRoute::SemanticSearch);
    assert_eq!(route_update("POST", "/memories"), UpdateRoute::AddMemory);
    assert_eq!(route_update("DELETE", "/memories/42"), UpdateRoute::DeleteMemory);
    assert_eq!(route_update("DELETE", "/memories/bulk"), UpdateRoute::BulkDelete);
    assert_eq!(route_update("POST", "/conversations"), UpdateRoute::SaveConversation);
    assert_eq!(route_update("GET", "/conversations"), UpdateRoute::ListConversations);
    assert_eq!(route_update("POST", "/clusters"), UpdateRoute::CreateClusters);
    assert_eq!(route_update("POST", "/auth/tokens"), UpdateRoute::CreateToken);
    assert_eq!(route_update("GET", "/auth/tokens"), UpdateRoute::ListTokens);
    assert_eq!(route_update("DELETE", "/auth/tokens/t"), UpdateRoute::RevokeToken);
    assert_eq!(route_update("POST", "/config"), UpdateRoute::UpdateConfig);
    assert_eq!(route_update("GET", "/nothing"), UpdateRoute::NotFound);
    let req = request("get", "/memories/7?x=1", Vec::new());
    assert_eq!(handle_http_request(&req), QueryRoute::GetMemory);
    let req = request("delete", "/memories/7", Vec::new());
    assert_eq!(handle_http_request_update(&req), UpdateRoute::DeleteMemory);
    assert_eq!(handle_get_categories().len(), 10);
    assert_eq!(handle_get_categories()[0], "work");
}

#[test]
fn counts_are_parsed_with_default_and_cap() {
    assert_eq!(parse_count(&Some("5".to_string()), 50, 100), 5);
    assert_eq!(parse_count(&Some("500".to_string()), 50, 100), 100);
    assert_eq!(parse_count(&Some("five".to_string()), 50, 100), 50);
    assert_eq!(parse_count(&None, 50, 100), 50);
    assert_eq!(parse_number("0012"), Some(12));
    assert_eq!(parse_number(""), None);
    assert_eq!(parse_number("-1"), None);
    assert_eq!(parse_number("99999999999999999999999999"), None);
    assert_eq!(parse_number(&usize::MAX.to_string()), Some(usize::MAX));
}

#[test]
fn text_primitives() {
    assert!(str_blank(" \t\n\u{3000}"));
    assert!(str_blank(""));
    assert!(!str_blank(" x "));
    assert_eq!(str_trim("\u{a0} a b \r\n"), "a b");
    assert_eq!(str_trim("   "), "");
    assert!(str_contains("hello world", "lo w"));
    assert!(str_contains("abc", ""));
    assert!(!str_contains("abc", "abcd"));
    assert!(str_starts_with("om_token_x", "om_token_"));
    assert_eq!(str_strip_prefix("Bearer x", "Bearer "), Some("x".to_string()));
    assert_eq!(str_strip_prefix("bearer x", "Bearer "), None);
    assert_eq!(word_count("  one two\tthree\n"), 3);
    assert_eq!(word_count(""), 0);
    assert_eq!(decimal_string(0), "0");
    assert_eq!(decimal_string(18_446_744_073_709_551_615), "18446744073709551615");
}

#[test]
fn every_error_has_its_message_code_and_category() {
    let cases: Vec<(OpenMemoryError, &str, u16, &str, bool)> = vec![
        (OpenMemoryError::storage("m", "op"), "Storage error in 'op': m", 500, "storage", false),
        (
            OpenMemoryError::authentication("m", "bearer"),
            "Authentication error (bearer): m",
            401,
            "authentication",
            false,
        ),
        (OpenMemoryError::openai("m", Some(429)), "OpenAI API error (429): m", 429, "openai", true),
        (OpenMemoryError::openai("m", Some(599)), "OpenAI API error (599): m", 599, "openai", true),
        (OpenMemoryError::openai("m", Some(400)), "OpenAI API error (400): m", 400, "openai", false),
        (OpenMemoryError::openai("m", None), "OpenAI API error: m", 500, "openai", false),
        (OpenMemoryError::validation("m", None), "Validation error: m", 400, "validation", false),
        (OpenMemoryError::not_found("memory", "7"), "memory '7' not found", 404, "not_found", false),
        (
            OpenMemoryError::rate_limit("m", Some(60)),
            "Rate limit exceeded: m (retry after 60s)",
            429,
            "rate_limit",
            true,
        ),
        (OpenMemoryError::rate_limit("m", None), "Rate limit exceeded: m", 429, "rate_limit", true),
        (
            OpenMemoryError::network("m", Some("http://x")),
            "Network error for 'http://x': m",
            502,
            "network",
            true,
        ),
        (OpenMemoryError::network("m", None), "Network error: m", 502, "network", true),
        (
            OpenMemoryError::configuration("m", Some("k")),
            "Configuration error for 'k': m",
            500,
            "configuration",
            false,
        ),
        (OpenMemoryError::configuration("m", None), "Configuration error: m", 500, "configuration", false),
        (OpenMemoryError::internal("m", Some("c")), "Internal error in 'c': m", 500, "internal", false),
        (OpenMemoryError::internal("m", None), "Internal error: m", 500, "internal", false),
    ];
    for (e, text, code, category, retriable) in cases {
        assert_eq!(e.to_string(), text);
        assert_eq!(e.status_code(), code);
        assert_eq!(e.category(), category);
        assert_eq!(e.is_retriable(), retriable);
    }
}

#[test]
fn plain_messages_are_sorted_into_the_taxonomy() {
    assert_eq!(OpenMemoryError::from_message("row not found".to_string()).category(), "not_found");
    assert_eq!(OpenMemoryError::from_message("bad token".to_string()).category(), "authentication");
    assert_eq!(OpenMemoryError::from_message("Storage down".to_string()).category(), "storage");
    assert_eq!(OpenMemoryError::from_message("boom".to_string()).category(), "internal");
    let body = ErrorResponse::from_error(OpenMemoryError::rate_limit("slow down", Some(7)));
    assert_eq!(body.error, "Rate limit exceeded: slow down (retry after 7s)");
    assert_eq!((body.code, body.category.as_str(), body.retry_after, body.context), (429, "rate_limit", Some(7), None));
    let body = ErrorResponse::from_error(OpenMemoryError::validation("m", Some("tags")));
    assert_eq!(body.context, Some("tags".to_string()));
}

#[test]
fn embedding_calls_are_planned_from_the_settings() {
    let mut config = UserConfig {
        user_id: Principal::from_slice(&[1]).unwrap(),
        openai_api_key: Some("sk-1".to_string()),
        openrouter_api_key: None,
        api_provider: ApiProvider::OpenAI,
        embedding_model: "text-embedding-3-small".to_string(),
        created_at: 0,
        updated_at: 0,
    };
    let call = generate_embedding_for_user("hello", Some(&config)).unwrap();
    assert_eq!(call.url, "https://api.openai.com/v1/embeddings");
    assert_eq!(
        call.headers,
        vec![
            ("Content-Type".to_string(), "application/json".to_string()),
            ("Authorization".to_string(), "Bearer sk-1".to_string()),
        ]
    );
    assert_eq!(call.request.model, "text-embedding-3-small");
    assert_eq!(call.request.input, "hello");
    assert_eq!(call.request.encoding_format, "float");
    assert_eq!(call.max_response_bytes, 8192);
    config.api_provider = ApiProvider::OpenRouter;
    let e = generate_embedding_for_user("hello", Some(&config)).err().unwrap();
    assert_eq!(e.category(), "configuration");
    config.openrouter_api_key = Some("or-1".to_string());
    let call = generate_embedding_for_user("hello", Some(&config)).unwrap();
    assert_eq!(call.url, "https://openrouter.ai/api/v1/embeddings");
    assert_eq!(call.headers.len(), 4);
    assert_eq!(call.headers[1].1, "Bearer or-1");
    assert_eq!(call.headers[3], ("X-Title".to_string(), "OpenMemory".to_string()));
    assert_eq!(generate_embedding_for_user(" ", Some(&config)).err().unwrap().category(), "validation");
    assert_eq!(generate_embedding_for_user("x", None).err().unwrap().category(), "configuration");
    assert!(check_embedding_status(200, "").is_ok());
    let e = check_embedding_status(503, "busy").unwrap_err();
    assert_eq!(e.to_string(), "OpenAI API error (503): busy");
    assert!(e.is_retriable());
    assert!(should_retry(1, 3));
    assert!(!should_retry(3, 3));
}

#[test]
fn models_and_key_previews() {
    let models = get_available_models(&ApiProvider::OpenRouter);
    assert_eq!(models.len(), 3);
    assert_eq!(models[0].id, "text-embedding-ada-002");
    assert_eq!(models[0].name, "OpenAI: text-embedding-ada-002");
    assert_eq!(models[0].provider, "OpenRouter");
    assert_eq!(models[1].context_length, 8191);
    assert_eq!(models[2].pricing.unwrap().prompt, 130_000);
    let models = get_available_models(&ApiProvider::OpenAI);
    assert_eq!(models[1].name, "text-embedding-3-small");
    assert_eq!(models[1].pricing.unwrap().completion, 20_000);
    assert_eq!(key_preview("sk-abcdefghij", "sk-***"), "sk-abcde...");
    assert_eq!(key_preview("sk-abcde", "sk-***"), "sk-***");
}

#[test]
fn client_settings_name_their_network() {
    let mut config = Config::default();
    assert!(matches!(config.auth_method, AuthMethod::LocalIdentity));
    assert_eq!(config.canister_id, "77fv5-oiaaa-aaaal-qsoea-cai");
    assert_eq!(config.get_network_url(), "https://ic0.app");
    config.network = "local".to_string();
    assert_eq!(config.get_network_url(), "http://localhost:4943");
    config.network = "https://example.org".to_string();
    assert_eq!(config.get_network_url(), "https://example.org");
}

#[test]
fn an_id_is_cut_from_the_first_sixteen_bytes_of_a_digest() {
    let digest: Vec<u8> = (0u8..32).map(|b| b.wrapping_mul(17)).collect();
    assert_eq!(
        openmemory::utils::format_id(&digest),
        "00112233-4455-6677-8899-aabbccddeeff"
    );
    let low: Vec<u8> = vec![0, 1, 2, 3, 4, 5, 6, 7, 8, 9, 10, 11, 12, 13, 14, 15];
    assert_eq!(
        openmemory::utils::format_id(&low),
        "00010203-0405-0607-0809-0a0b0c0d0e0f"
    );
}

#[test]
fn a_path_comes_from_the_parsed_address_or_from_the_plain_text() {
    assert_eq!(openmemory::utils::local_address_of("/memories?x=1"), "http://localhost/memories?x=1");
    assert_eq!(openmemory::utils::local_address_of("memories"), "http://localhost/memories");
    assert_eq!(openmemory::utils::local_address_of(""), "http://localhost/");
    assert_eq!(openmemory::utils::path_from("/a?b", Some("/parsed".to_string())), "/parsed");
    assert_eq!(openmemory::utils::path_from("/a/b?c=d", None), "/a/b");
    assert_eq!(openmemory::utils::path_from("a/b?c=d", None), "/a/b");
    assert_eq!(openmemory::utils::path_from("", None), "/");
}

#[test]
fn words_are_joined_by_single_spaces() {
    let words = |texts: &[&str]| -> Vec<Vec<char>> {
        texts.iter().map(|t| t.chars().collect()).collect()
    };
    assert_eq!(openmemory::search::join_words(&words(&[])), "");
    assert_eq!(openmemory::search::join_words(&words(&["one"])), "one");
    assert_eq!(openmemory::search::join_words(&words(&["one", "two", "three"])), "one two three");
}

#[test]
fn a_chain_that_names_no_principal_opens_no_session() {
    let mut registry = SessionRegistry::new();
    let caller = Principal::from_slice(&[9]).unwrap();
    let ask = |delegations: &[&str]| openmemory::internet_identity::IIAuthRequest {
        delegation_chain: delegations
            .iter()
            .map(|d| IIDelegationData { delegation: d.to_string(), signature: String::new() })
            .collect(),
        user_public_key: String::new(),
    };
    let e = registry.authenticate_with_ii(ask(&[]), 100, &caller).unwrap_err();
    assert_eq!(e.to_string(), "Authentication error (delegation): Empty delegation chain");
    let e = registry.authenticate_with_ii(ask(&["***"]), 100, &caller).unwrap_err();
    assert_eq!(e.to_string(), "Authentication error (delegation): Invalid delegation encoding");
    let e = registry.authenticate_with_ii(ask(&["aGVsbG8="]), 100, &caller).unwrap_err();
    assert_eq!(e.to_string(), "Authentication error (delegation): Invalid principal");
    assert!(registry.list_active_sessions(100).is_empty());
}

#[test]
fn closing_a_session_leaves_the_others_in_order() {
    let mut registry = SessionRegistry::new();
    for (key, owner) in [("a", 1u8), ("b", 2), ("c", 3)] {
        let session =
            create_ii_session(Principal::from_slice(&[owner]).unwrap(), Vec::new(), key.to_string(), 100)
                .unwrap();
        registry.open_session(session);
    }
    // Opening a session of a known key takes the place of the known one.
    let again =
        create_ii_session(Principal::from_slice(&[9]).unwrap(), Vec::new(), "b".to_string(), 100).unwrap();
    registry.open_session(again);
    assert_eq!(registry.sessions.len(), 3);
    assert!(registry.revoke_session("b"));
    let keys: Vec<&str> = registry.sessions.iter().map(|s| s.session_key.as_str()).collect();
    assert_eq!(keys, vec!["a", "c"]);
    assert!(registry.verify_ii_session("b", 200).is_err());
    assert_eq!(registry.verify_ii_session("a", 200).unwrap().bytes, vec![1]);
    assert_eq!(registry.verify_ii_session("c", 200).unwrap().bytes, vec![3]);
    assert!(!registry.revoke_session("b"));
    assert_eq!(registry.sessions.len(), 2);
}

#[test]
fn an_id_has_thirty_six_characters() {
    let mut counter = IdCounter::new();
    let caller = Principal::from_slice(&[7, 7]).unwrap();
    let a = generate_uuid(&mut counter, 5, &caller);
    let b = generate_uuid(&mut counter, 5, &caller);
    assert_eq!((a.len(), b.len()), (36, 36));
    assert_ne!(a, b);
    assert_eq!(a.chars().filter(|c| *c == '-').count(), 4);
}
