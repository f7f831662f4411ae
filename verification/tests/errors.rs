use openmemory::errors::OpenMemoryError;

#[test]
fn test_error_creation() {
    let storage_err = OpenMemoryError::storage("Database connection failed", "save_memory");
    assert_eq!(storage_err.status_code(), 500);
    assert_eq!(storage_err.category(), "storage");
    assert!(!storage_err.is_retriable());

    let auth_err = OpenMemoryError::authentication("Invalid token", "bearer");
    assert_eq!(auth_err.status_code(), 401);
    assert_eq!(auth_err.category(), "authentication");

    let not_found_err = OpenMemoryError::not_found("memory", "mem_123");
    assert_eq!(not_found_err.status_code(), 404);
    assert_eq!(not_found_err.category(), "not_found");
}

#[test]
fn test_retriable_errors() {
    let network_err = OpenMemoryError::network("Connection timeout", Some("https://api.openai.com"));
    assert!(network_err.is_retriable());

    let rate_limit_err = OpenMemoryError::rate_limit("Too many requests", Some(60));
    assert!(rate_limit_err.is_retriable());

    let openai_err = OpenMemoryError::openai("Service unavailable", Some(503));
    assert!(openai_err.is_retriable());
}

#[test]
fn test_error_display() {
    let err = OpenMemoryError::validation("Content too long", Some("content"));
    assert_eq!(err.to_string(), "Validation error in 'content': Content too long");

    let err = OpenMemoryError::not_found("memory", "mem_123");
    assert_eq!(err.to_string(), "memory 'mem_123' not found");
}
