use orion_serve::error::EngineError;

#[test]
fn capacity_errors_are_retryable() {
    assert!(EngineError::QueueFull {
        queued: 10,
        limit: 10
    }
    .is_retryable());
    assert!(EngineError::CacheExhausted {
        needed: 4,
        available: 0
    }
    .is_retryable());
    assert!(!EngineError::Internal("boom".into()).is_retryable());
}

#[test]
fn client_errors_are_classified_separately_from_retryable_ones() {
    let e = EngineError::ContextLengthExceeded {
        prompt_tokens: 5000,
        max_tokens: 200,
        context_len: 4096,
    };
    assert!(e.is_client_error());
    assert!(!e.is_retryable());
}

#[test]
fn error_codes_are_distinct() {
    let codes = [
        EngineError::InvalidRequest(String::new()).code(),
        EngineError::QueueFull {
            queued: 0,
            limit: 0,
        }
        .code(),
        EngineError::Cancelled.code(),
        EngineError::EngineShutdown.code(),
    ];
    let unique: std::collections::HashSet<_> = codes.iter().collect();
    assert_eq!(unique.len(), codes.len());
}

#[test]
fn internal_errors_are_neither_client_nor_retryable() {
    let e = EngineError::Internal("block table desynced".into());
    assert!(!e.is_client_error());
    assert!(!e.is_retryable());
}
