use llm_workbench::validation::{
    validate_document_content, validate_length, validate_max_tokens, validate_name,
    validate_not_empty, validate_query, validate_range, validate_top_k, ValidationError,
};

#[test]
fn test_validate_not_empty() {
    assert!(validate_not_empty("test", "hello").is_ok());
    assert!(validate_not_empty("test", "").is_err());
    assert!(validate_not_empty("test", "   ").is_err());
}

#[test]
fn test_validate_length() {
    assert!(validate_length("test", "hello", Some(1), Some(10)).is_ok());
    assert!(validate_length("test", "hello", Some(10), None).is_err());
    assert!(validate_length("test", "hello", None, Some(3)).is_err());
}

#[test]
fn test_validate_range() {
    assert!(validate_range("test", 5, 1, 10).is_ok());
    assert!(validate_range("test", 0, 1, 10).is_err());
    assert!(validate_range("test", 11, 1, 10).is_err());
}

#[test]
fn test_validate_name() {
    assert!(validate_name("name", "My Project").is_ok());
    assert!(validate_name("name", "").is_err());
    assert!(validate_name("name", "test\0name").is_err());
}

#[test]
fn unicode_white_space_counts_as_empty() {
    assert!(matches!(
        validate_not_empty("f", "\t\u{a0}\u{3000}\n"),
        Err(ValidationError::EmptyField { field }) if field == "f"
    ));
    assert!(validate_not_empty("f", " x ").is_ok());
}

#[test]
fn length_errors_carry_bounds() {
    assert!(matches!(
        validate_length("f", "hello", Some(10), Some(3)),
        Err(ValidationError::TooShort { min_len: 10, .. })
    ));
    assert!(matches!(
        validate_length("f", "hello", None, Some(3)),
        Err(ValidationError::TooLong { max_len: 3, .. })
    ));
    // bytes, not characters
    assert!(validate_length("f", "éé", None, Some(3)).is_err());
}

#[test]
fn range_error_in_decimal() {
    match validate_range("count", 1234567, 0, 99) {
        Err(ValidationError::OutOfRange { field, value, min, max }) => {
            assert_eq!(field, "count");
            assert_eq!(value, "1234567");
            assert_eq!(min, "0");
            assert_eq!(max, "99");
        }
        _ => panic!("expected OutOfRange"),
    }
}

#[test]
fn top_k_and_max_tokens_bounds() {
    assert!(validate_top_k(1).is_ok());
    assert!(validate_top_k(100).is_ok());
    assert!(validate_top_k(0).is_err());
    assert!(validate_top_k(101).is_err());
    assert!(validate_max_tokens(100_000).is_ok());
    assert!(matches!(
        validate_max_tokens(0),
        Err(ValidationError::OutOfRange { field, .. }) if field == "max_tokens"
    ));
}

#[test]
fn name_rules() {
    assert!(matches!(validate_name("n", "a\rb"), Err(ValidationError::InvalidCharacters { .. })));
    assert!(matches!(validate_name("n", "a\nb"), Err(ValidationError::InvalidCharacters { .. })));
    assert!(validate_name("n", &"x".repeat(200)).is_ok());
    assert!(matches!(
        validate_name("n", &"x".repeat(201)),
        Err(ValidationError::TooLong { max_len: 200, .. })
    ));
}

#[test]
fn content_and_query_limits() {
    assert!(validate_document_content("text").is_ok());
    assert!(matches!(validate_document_content("  "), Err(ValidationError::EmptyField { .. })));
    assert!(validate_query(&"q".repeat(10_000)).is_ok());
    assert!(matches!(
        validate_query(&"q".repeat(10_001)),
        Err(ValidationError::TooLong { max_len: 10_000, .. })
    ));
}
