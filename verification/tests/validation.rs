use openmemory::errors::OpenMemoryError;
use openmemory::types::{AddMemoryRequest, CreateTokenRequest, Principal, SaveConversationRequest};
use openmemory::validation::{
    is_valid_tag, sanitize_content, sanitize_metadata, sanitize_tags,
    validate_add_memory_request, validate_create_token_request, validate_pagination,
    validate_save_conversation_request, validate_search_request, validate_user_quota,
    SearchRequest, MAX_MEMORY_CONTENT_SIZE,
};

fn field_of(e: &OpenMemoryError) -> Option<String> {
    match e {
        OpenMemoryError::Validation { field, .. } => field.clone(),
        _ => panic!("not a validation error"),
    }
}

#[test]
fn test_validate_add_memory_request() {
    // Valid request
    let valid_req = AddMemoryRequest {
        content: "This is a valid memory".to_string(),
        tags: Some(vec!["tag1".to_string(), "tag-2".to_string()]),
        metadata: None,
    };
    assert!(validate_add_memory_request(&valid_req).is_ok());

    // Empty content
    let empty_content = AddMemoryRequest { content: "".to_string(), tags: None, metadata: None };
    assert!(validate_add_memory_request(&empty_content).is_err());

    // Content too large
    let large_content = AddMemoryRequest {
        content: "x".repeat(MAX_MEMORY_CONTENT_SIZE + 1),
        tags: None,
        metadata: None,
    };
    assert!(validate_add_memory_request(&large_content).is_err());

    // Invalid tag
    let invalid_tag = AddMemoryRequest {
        content: "Valid content".to_string(),
        tags: Some(vec!["invalid tag!".to_string()]),
        metadata: None,
    };
    assert!(validate_add_memory_request(&invalid_tag).is_err());
}

#[test]
fn test_is_valid_tag() {
    assert!(is_valid_tag("valid_tag"));
    assert!(is_valid_tag("valid-tag"));
    assert!(is_valid_tag("validtag123"));
    assert!(!is_valid_tag("invalid tag"));
    assert!(!is_valid_tag("invalid@tag"));
    assert!(!is_valid_tag(""));
}

#[test]
fn test_sanitize_content() {
    let content = "Hello\x00world\x01with\x02control\x03chars\nand\ttabs";
    let sanitized = sanitize_content(content, 100);
    assert_eq!(sanitized, "Helloworldwithcontrolchars\nand\ttabs");

    let long_content = "x".repeat(200);
    let sanitized = sanitize_content(&long_content, 50);
    assert_eq!(sanitized.len(), 50);
}

#[test]
fn test_sanitize_tags() {
    let tags = vec![
        "Valid_Tag".to_string(),
        "invalid tag!".to_string(),
        "another-valid".to_string(),
        "".to_string(),
    ];

    let sanitized = sanitize_tags(&tags);
    assert_eq!(sanitized, vec!["valid_tag", "invalidtag", "another-valid"]);
}

#[test]
fn blank_content_is_rejected_on_content() {
    let req = AddMemoryRequest { content: "   ".to_string(), tags: None, metadata: None };
    let e = validate_add_memory_request(&req).unwrap_err();
    assert_eq!(field_of(&e), Some("content".to_string()));
    assert_eq!(e.status_code(), 400);
    assert_eq!(e.to_string(), "Validation error in 'content': Content cannot be empty");
}

#[test]
fn bad_tag_is_rejected_on_tags() {
    let req = AddMemoryRequest {
        content: "ok".to_string(),
        tags: Some(vec!["bad tag!".to_string()]),
        metadata: None,
    };
    let e = validate_add_memory_request(&req).unwrap_err();
    assert_eq!(field_of(&e), Some("tags".to_string()));
    assert_eq!(
        e.to_string(),
        "Validation error in 'tags': Invalid tag 'bad tag!': must contain only alphanumeric characters, hyphens, and underscores"
    );
}

#[test]
fn content_of_exactly_ten_kib_passes() {
    let req = AddMemoryRequest {
        content: "x".repeat(MAX_MEMORY_CONTENT_SIZE),
        tags: None,
        metadata: None,
    };
    assert!(validate_add_memory_request(&req).is_ok());
}

#[test]
fn too_many_tags_are_rejected() {
    let tags: Vec<String> = (0..21).map(|i| format!("t{}", i)).collect();
    let req = AddMemoryRequest { content: "ok".to_string(), tags: Some(tags), metadata: None };
    let e = validate_add_memory_request(&req).unwrap_err();
    assert_eq!(e.to_string(), "Validation error in 'tags': Too many tags (max 20)");
    let tags: Vec<String> = (0..20).map(|i| format!("t{}", i)).collect();
    let req = AddMemoryRequest { content: "ok".to_string(), tags: Some(tags), metadata: None };
    assert!(validate_add_memory_request(&req).is_ok());
}

#[test]
fn long_tag_is_rejected_before_its_characters_are_looked_at() {
    let req = AddMemoryRequest {
        content: "ok".to_string(),
        tags: Some(vec!["!".repeat(51)]),
        metadata: None,
    };
    let e = validate_add_memory_request(&req).unwrap_err();
    assert_eq!(e.to_string(), "Validation error in 'tags': Tag too long (max 50 characters)");
}

#[test]
fn non_ascii_letters_are_no_tag_characters() {
    assert!(!is_valid_tag("caf\u{e9}"));
    assert_eq!(sanitize_tags(&["Caf\u{e9}".to_string()]), vec!["caf"]);
}

#[test]
fn metadata_limits() {
    let ok = AddMemoryRequest {
        content: "ok".to_string(),
        tags: None,
        metadata: Some(vec![("k".repeat(100), "v".repeat(500))]),
    };
    assert!(validate_add_memory_request(&ok).is_ok());
    let long_key = AddMemoryRequest {
        content: "ok".to_string(),
        tags: None,
        metadata: Some(vec![("k".repeat(101), "v".to_string())]),
    };
    let e = validate_add_memory_request(&long_key).unwrap_err();
    assert_eq!(field_of(&e), Some("metadata".to_string()));
    let long_value = AddMemoryRequest {
        content: "ok".to_string(),
        tags: None,
        metadata: Some(vec![("k".to_string(), "v".repeat(501))]),
    };
    assert!(validate_add_memory_request(&long_value).is_err());
    let blank_key = AddMemoryRequest {
        content: "ok".to_string(),
        tags: None,
        metadata: Some(vec![(" ".to_string(), "v".to_string())]),
    };
    assert_eq!(
        validate_add_memory_request(&blank_key).unwrap_err().to_string(),
        "Validation error in 'metadata': Metadata key cannot be empty"
    );
    let many: Vec<(String, String)> = (0..21).map(|i| (format!("k{}", i), "v".to_string())).collect();
    let too_many = AddMemoryRequest { content: "ok".to_string(), tags: None, metadata: Some(many) };
    assert!(validate_add_memory_request(&too_many).is_err());
}

#[test]
fn the_first_failing_check_is_reported() {
    let req = AddMemoryRequest {
        content: " ".to_string(),
        tags: Some(vec!["bad tag!".to_string()]),
        metadata: None,
    };
    assert_eq!(field_of(&validate_add_memory_request(&req).unwrap_err()), Some("content".to_string()));
}

#[test]
fn conversation_limits() {
    let ok = SaveConversationRequest {
        title: "t".repeat(200),
        content: "c".repeat(100 * 1024),
        source: None,
        metadata: None,
    };
    assert!(validate_save_conversation_request(&ok).is_ok());
    let long_title = SaveConversationRequest {
        title: "t".repeat(201),
        content: "c".to_string(),
        source: None,
        metadata: None,
    };
    assert_eq!(
        field_of(&validate_save_conversation_request(&long_title).unwrap_err()),
        Some("title".to_string())
    );
    let blank_title = SaveConversationRequest {
        title: "\t".to_string(),
        content: "c".to_string(),
        source: None,
        metadata: None,
    };
    assert!(validate_save_conversation_request(&blank_title).is_err());
    let large = SaveConversationRequest {
        title: "t".to_string(),
        content: "c".repeat(100 * 1024 + 1),
        source: None,
        metadata: None,
    };
    assert_eq!(
        validate_save_conversation_request(&large).unwrap_err().to_string(),
        "Validation error in 'content': Content too large (max 102400 bytes)"
    );
}

#[test]
fn search_request_limits() {
    let ok = SearchRequest { query: "q".to_string(), limit: Some(100), tags: Some(vec!["a-b".to_string()]) };
    assert!(validate_search_request(&ok).is_ok());
    let blank = SearchRequest { query: " ".to_string(), limit: None, tags: None };
    assert_eq!(field_of(&validate_search_request(&blank).unwrap_err()), Some("query".to_string()));
    let long = SearchRequest { query: "q".repeat(1001), limit: None, tags: None };
    assert!(validate_search_request(&long).is_err());
    let zero = SearchRequest { query: "q".to_string(), limit: Some(0), tags: None };
    assert_eq!(field_of(&validate_search_request(&zero).unwrap_err()), Some("limit".to_string()));
    let big = SearchRequest { query: "q".to_string(), limit: Some(101), tags: None };
    assert!(validate_search_request(&big).is_err());
    let bad_tag = SearchRequest { query: "q".to_string(), limit: None, tags: Some(vec!["a b".to_string()]) };
    assert_eq!(field_of(&validate_search_request(&bad_tag).unwrap_err()), Some("tags".to_string()));
}

#[test]
fn pagination_defaults_and_limits() {
    assert_eq!(validate_pagination(None, None).unwrap(), (20, 0));
    assert_eq!(validate_pagination(Some(100), Some(7)).unwrap(), (100, 7));
    assert!(validate_pagination(Some(0), None).is_err());
    assert!(validate_pagination(Some(101), None).is_err());
}

#[test]
fn quota_is_ten_thousand() {
    let user = Principal::from_slice(&[1, 2, 3]).unwrap();
    assert!(validate_user_quota(&user, 9_999).is_ok());
    let e = validate_user_quota(&user, 10_000).unwrap_err();
    assert_eq!(field_of(&e), Some("user_quota".to_string()));
}

#[test]
fn token_request_limits() {
    let ok = CreateTokenRequest { description: Some("cli".to_string()), permissions: None, expires_in_days: Some(365) };
    assert!(validate_create_token_request(&ok).is_ok());
    let none = CreateTokenRequest { description: None, permissions: None, expires_in_days: None };
    assert!(validate_create_token_request(&none).is_ok());
    let zero = CreateTokenRequest { description: None, permissions: None, expires_in_days: Some(0) };
    assert_eq!(
        field_of(&validate_create_token_request(&zero).unwrap_err()),
        Some("expires_in_days".to_string())
    );
    let long = CreateTokenRequest { description: None, permissions: None, expires_in_days: Some(366) };
    assert!(validate_create_token_request(&long).is_err());
    let blank = CreateTokenRequest { description: Some(" ".to_string()), permissions: None, expires_in_days: None };
    assert_eq!(
        field_of(&validate_create_token_request(&blank).unwrap_err()),
        Some("description".to_string())
    );
    let wordy = CreateTokenRequest { description: Some("d".repeat(201)), permissions: None, expires_in_days: None };
    assert!(validate_create_token_request(&wordy).is_err());
}

#[test]
fn sanitizing_twice_changes_nothing_more() {
    let content = "  a\x07b \u{85} ";
    let once = sanitize_content(content, 100);
    assert_eq!(once, "ab");
    assert_eq!(sanitize_content(&once, 100), once);

    let tags = vec!["Rust Lang".to_string(), "!!!".to_string(), "A".repeat(60)];
    let once = sanitize_tags(&tags);
    assert_eq!(once, vec!["rustlang".to_string(), "a".repeat(50)]);
    assert_eq!(sanitize_tags(&once), once);

    let metadata = vec![
        (" key ".to_string(), " value\x00 ".to_string()),
        ("\x01".to_string(), "dropped".to_string()),
    ];
    let once = sanitize_metadata(&metadata);
    assert_eq!(once, vec![("key".to_string(), "value".to_string())]);
    assert_eq!(sanitize_metadata(&once), once);
}

#[test]
fn sanitizers_cut_to_their_limits() {
    let tags: Vec<String> = (0..30).map(|i| format!("tag{}", i)).collect();
    assert_eq!(sanitize_tags(&tags).len(), 20);
    let metadata: Vec<(String, String)> =
        (0..30).map(|i| (format!("k{}", i), "v".repeat(600))).collect();
    let clean = sanitize_metadata(&metadata);
    assert_eq!(clean.len(), 20);
    assert_eq!(clean[0].1.len(), 500);
    assert_eq!(sanitize_content("abcdef", 3), "abc");
    assert_eq!(sanitize_content("ab  cd", 3), "ab");
}
