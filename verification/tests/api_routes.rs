use orion_serve::api::responses::content_chunk;
use orion_serve::api::types::{check_unsupported, ApiError};
use orion_serve::error::EngineError;

#[test]
fn status_codes_follow_the_error_classification() {
    let cases: Vec<(EngineError, u16)> = vec![
        (
            EngineError::InvalidRequest("bad".into()),
            400,
        ),
        (
            EngineError::ContextLengthExceeded {
                prompt_tokens: 1,
                max_tokens: 1,
                context_len: 1,
            },
            400,
        ),
        (
            EngineError::QueueFull {
                queued: 1,
                limit: 1,
            },
            429,
        ),
        (
            EngineError::CacheExhausted {
                needed: 1,
                available: 0,
            },
            503,
        ),
        (
            EngineError::Timeout {
                elapsed_ms: 1,
                state: "decoding",
            },
            504,
        ),
        (EngineError::EngineShutdown, 503),
        (
            EngineError::Internal("secret".into()),
            500,
        ),
    ];

    for (err, expected) in cases {
        let got = ApiError(err).status();
        assert_eq!(got, expected);
    }
}

#[test]
fn multiple_completions_are_refused_explicitly() {
    // Better an honest 400 than silently returning one completion for a
    // request that asked for four.
    assert!(check_unsupported(Some(4)).is_err());
    assert!(check_unsupported(Some(1)).is_ok());
    assert!(check_unsupported(None).is_ok());
}

#[test]
fn a_content_chunk_carries_only_the_delta() {
    let c = content_chunk("id", 0, "m", "hello");
    assert_eq!(c.choices[0].delta.content.as_deref(), Some("hello"));
    assert!(c.choices[0].delta.role.is_none());
    assert_eq!(c.object, "chat.completion.chunk");
}

#[test]
fn only_faults_of_the_server_are_logged() {
    assert!(ApiError(EngineError::Internal("secret".into())).is_logged());
    assert!(!ApiError(EngineError::InvalidRequest("x".into())).is_logged());
}
