use padagonia::server_middleware::{accepted_request_id, generated_request_id, needs_structured_error};

#[test]
fn supplied_request_ids_are_kept_when_short_and_non_empty() {
    assert_eq!(accepted_request_id(Some("abc")), Some("abc".to_string()));
    assert_eq!(accepted_request_id(Some("")), None);
    assert_eq!(accepted_request_id(Some(&"x".repeat(129))), None);
    assert_eq!(accepted_request_id(Some(&"x".repeat(128))), Some("x".repeat(128)));
    assert_eq!(accepted_request_id(None), None);
}

#[test]
fn generated_request_ids_name_process_and_sequence() {
    assert_eq!(generated_request_id(4711, 12), "pad-4711-12");
    assert_eq!(generated_request_id(0, 0), "pad-0-0");
}

#[test]
fn only_unstructured_error_responses_are_rewritten() {
    assert!(needs_structured_error(404, Some("text/plain; charset=utf-8")));
    assert!(needs_structured_error(500, None));
    assert!(!needs_structured_error(400, Some("application/json")));
    assert!(!needs_structured_error(413, Some("application/json; charset=utf-8")));
    assert!(!needs_structured_error(200, None));
    assert!(!needs_structured_error(399, Some("text/plain")));
    assert!(needs_structured_error(599, Some("application/jso")));
}
