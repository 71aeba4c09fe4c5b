use orion_serve::api::types::{
    build_params, finish_reason_str, new_id, ErrorResponse, ModelList, PromptField, StopField,
    Usage,
};
use orion_serve::error::EngineError;
use orion_serve::float::WrittenFloat;
use orion_serve::sequence::FinishReason;

fn written(v: f32) -> WrittenFloat {
    WrittenFloat::new(v.to_bits(), format!("{v}"))
}

fn number(v: &WrittenFloat) -> f32 {
    f32::from_bits(v.value.bits)
}

#[test]
fn a_single_prompt_is_accepted_in_either_form() {
    let s = PromptField::Single("hello".into());
    assert_eq!(s.single().unwrap(), "hello");

    let m = PromptField::Multiple(vec!["hello".into()]);
    assert_eq!(m.single().unwrap(), "hello");
}

#[test]
fn batched_prompts_are_rejected_rather_than_truncated() {
    // Answering one of three prompts would be a wrong answer, not a
    // degraded one.
    let m = PromptField::Multiple(vec!["a".into(), "b".into(), "c".into()]);
    let err = m.single().unwrap_err();
    assert!(matches!(err, EngineError::InvalidRequest(_)));
    assert!(err.message().contains('3'), "should name the count");
}

#[test]
fn params_default_when_unspecified() {
    let p = build_params(None, None, None, None, None, None, None, None, None, 128).unwrap();
    assert_eq!(number(&p.temperature), 1.0);
    assert_eq!(number(&p.top_p), 1.0);
    assert_eq!(p.max_tokens, 128, "server default applies");
    assert!(p.seed.is_none());
}

#[test]
fn explicit_params_override_defaults() {
    let p = build_params(
        Some(written(0.5)),
        Some(written(0.9)),
        Some(40),
        Some(64),
        Some(4),
        Some(written(1.2)),
        None,
        Some(7),
        Some(StopField::Single("STOP".into())),
        128,
    )
    .unwrap();

    assert_eq!(number(&p.temperature), 0.5);
    assert_eq!(p.top_k, 40);
    assert_eq!(p.max_tokens, 64);
    assert_eq!(p.min_tokens, 4);
    assert_eq!(number(&p.repetition_penalty), 1.2);
    assert_eq!(p.seed, Some(7));
    assert_eq!(p.stop_sequences, vec!["STOP"]);
}

#[test]
fn an_explicit_repetition_penalty_beats_presence_penalty() {
    // The two are different formulations; the explicit one must win rather
    // than being silently overwritten.
    let p = build_params(
        None,
        None,
        None,
        None,
        None,
        Some(written(1.5)),
        Some(written(1.0 + 0.8)),
        None,
        None,
        16,
    )
    .unwrap();
    assert_eq!(number(&p.repetition_penalty), 1.5);
}

#[test]
fn presence_penalty_maps_onto_repetition_penalty_when_alone() {
    let p = build_params(
        None,
        None,
        None,
        None,
        None,
        None,
        Some(written(1.0 + 0.5)),
        None,
        None,
        16,
    )
    .unwrap();
    assert_eq!(number(&p.repetition_penalty), 1.5);
}

#[test]
fn invalid_params_are_rejected_with_a_named_field() {
    let err = build_params(
        Some(written(-1.0)),
        None,
        None,
        None,
        None,
        None,
        None,
        None,
        None,
        16,
    )
    .unwrap_err();
    assert!(matches!(err, EngineError::InvalidRequest(_)));
    assert!(err.message().contains("temperature"));
}

#[test]
fn usage_totals_are_consistent() {
    let u = Usage::new(10, 5);
    assert_eq!(u.total_tokens, 15);
}

#[test]
fn internal_errors_are_opaque_to_clients() {
    // The message names block ids and invariants; none of that should leak.
    let e = EngineError::Internal("block 42 desynced from sequence 7".into());
    let body = ErrorResponse::from_engine(&e);

    assert_eq!(body.error.message, "internal server error");
    assert!(!body.error.message.contains("block"));
    assert_eq!(body.error.code, "internal_error");
    assert_eq!(body.error.kind, "server_error");
}

#[test]
fn client_errors_keep_their_detail() {
    let e = EngineError::ContextLengthExceeded {
        prompt_tokens: 5000,
        max_tokens: 100,
        context_len: 4096,
    };
    let body = ErrorResponse::from_engine(&e);
    assert!(body.error.message.contains("5000"), "detail is useful here");
    assert_eq!(body.error.kind, "invalid_request_error");
}

#[test]
fn overload_errors_are_typed_for_retry() {
    let e = EngineError::QueueFull {
        queued: 100,
        limit: 100,
    };
    assert_eq!(
        ErrorResponse::from_engine(&e).error.kind,
        "server_overloaded"
    );
}

#[test]
fn finish_reasons_use_the_openai_vocabulary() {
    assert_eq!(finish_reason_str(&FinishReason::Stop), "stop");
    assert_eq!(finish_reason_str(&FinishReason::Length), "length");
    assert_eq!(
        finish_reason_str(&FinishReason::StopSequence("X".into())),
        "stop",
        "internal distinctions collapse to what clients expect"
    );
}



#[test]
fn ids_are_unique() {
    let a = new_id("chatcmpl");
    let b = new_id("chatcmpl");
    assert_ne!(a, b);
}

#[test]
fn stop_fields_become_lists() {
    assert_eq!(StopField::Single("END".into()).into_vec(), vec!["END"]);
    assert_eq!(
        StopField::Multiple(vec!["A".into(), "B".into()]).into_vec(),
        vec!["A", "B"]
    );
}

#[test]
fn new_ids_are_prefixed_random_hex() {
    let id = new_id("chatcmpl");
    let suffix = id.strip_prefix("chatcmpl-").unwrap();
    assert_eq!(suffix.len(), 32);
    assert!(suffix
        .chars()
        .all(|c| c.is_ascii_digit() || ('a'..='f').contains(&c)));
}

#[test]
fn the_model_list_has_one_card() {
    let list = ModelList::of("m".to_string(), 7);
    assert_eq!(list.object, "list");
    assert_eq!(list.data.len(), 1);
    assert_eq!(list.data[0].id, "m");
    assert_eq!(list.data[0].created, 7);
    assert_eq!(list.data[0].owned_by, "orionserve");
}
