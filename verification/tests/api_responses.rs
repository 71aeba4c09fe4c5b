use orion_serve::api::responses::{
    encode_chat, encode_completion, render_chat, ChatStream, Collector, Progress, DONE_SENTINEL,
};
use orion_serve::api::types::{ChatCompletionRequest, ChatMessage, PromptField, StopField};
use orion_serve::engine::StreamEvent;
use orion_serve::error::EngineError;
use orion_serve::float::{Float32, WrittenFloat};
use orion_serve::id::TokenId;
use orion_serve::sequence::FinishReason;
use orion_serve::tokenizer::hf::Tokenizer;
use orion_serve::tokenizer::stop::StopSequenceMatcher;
use orion_serve::tokenizer::template::ChatTemplate;
use tokenizers::Tokenizer as HfTokenizer;

/// A byte-level tokenizer without merges: every byte is a token.
fn byte_tokenizer() -> Tokenizer {
    let mut vocab = String::from("{");
    let mut unprintable = 0u32;
    for b in 0..256u32 {
        let c = match b {
            0x21..=0x7e | 0xa1..=0xac | 0xae..=0xff => b,
            _ => {
                unprintable += 1;
                255 + unprintable
            }
        };
        let ch = char::from_u32(c).unwrap().to_string();
        if b > 0 {
            vocab.push(',');
        }
        vocab.push_str(&format!("{}:{}", serde_json::to_string(&ch).unwrap(), b));
    }
    vocab.push('}');
    let json = format!(
        r#"{{
            "version": "1.0", "truncation": null, "padding": null, "added_tokens": [],
            "normalizer": null,
            "pre_tokenizer": {{"type": "ByteLevel", "add_prefix_space": false,
                               "trim_offsets": true, "use_regex": true}},
            "post_processor": null,
            "decoder": {{"type": "ByteLevel", "add_prefix_space": false,
                         "trim_offsets": true, "use_regex": true}},
            "model": {{
                "type": "BPE", "dropout": null, "unk_token": null,
                "continuing_subword_prefix": null, "end_of_word_suffix": null,
                "fuse_unk": false, "byte_fallback": false, "ignore_merges": false,
                "vocab": {vocab}, "merges": []
            }}
        }}"#
    );
    let inner: HfTokenizer = json.parse().unwrap();
    Tokenizer::from_hf(inner)
}

fn token(t: u8) -> StreamEvent {
    StreamEvent::Token {
        token: t as TokenId,
        text: String::new(),
        index: 0,
    }
}

fn done(n: usize) -> StreamEvent {
    StreamEvent::Done {
        reason: FinishReason::Length,
        prompt_tokens: 3,
        completion_tokens: n,
    }
}

fn matcher(stops: &[&str]) -> StopSequenceMatcher {
    StopSequenceMatcher::new(stops.iter().map(|s| s.to_string()).collect())
}

fn collect(text: &str, stops: &[&str]) -> (String, String, usize) {
    let t = byte_tokenizer();
    let mut c = Collector::new(matcher(stops));
    let mut complete = false;
    for b in text.bytes() {
        if matches!(c.on_event(&t, token(b)).unwrap(), Progress::Complete) {
            complete = true;
            break;
        }
    }
    if !complete {
        c.on_event(&t, done(text.len())).unwrap();
    }
    let r = c.into_chat_response("id".to_string(), 7, "m".to_string(), 3);
    assert_eq!(r.object, "chat.completion");
    assert_eq!(r.usage.prompt_tokens, 3);
    (
        r.choices[0].message.content.clone().unwrap(),
        r.choices[0].finish_reason.clone(),
        r.usage.completion_tokens,
    )
}

fn stream(text: &str, stops: &[&str]) -> (String, String) {
    let t = byte_tokenizer();
    let mut s = ChatStream::new("id".to_string(), 7, "m".to_string(), matcher(stops));
    assert_eq!(
        s.opening().choices[0].delta.role.as_deref(),
        Some("assistant")
    );
    let mut out = String::new();
    let mut events: Vec<StreamEvent> = text.bytes().map(token).collect();
    events.push(done(text.len()));
    for e in events {
        let (chunk, progress) = s.on_event(&t, e);
        if let Some(c) = chunk {
            out.push_str(c.choices[0].delta.content.as_deref().unwrap());
        }
        if matches!(progress, Progress::Complete) {
            break;
        }
    }
    let last = s.closing(3);
    (out, last.choices[0].finish_reason.clone().unwrap())
}

#[test]
fn a_response_is_collected_from_its_events() {
    assert_eq!(
        collect("hi \u{65e5}\u{672c}", &[]),
        ("hi \u{65e5}\u{672c}".to_string(), "length".to_string(), 9)
    );
}

#[test]
fn a_stop_sequence_truncates_the_collected_text() {
    let (text, reason, _) = collect("hello STOP world", &["STOP"]);
    assert_eq!(text, "hello ");
    assert_eq!(reason, "stop");
}

#[test]
fn streaming_and_collecting_give_the_same_text() {
    let (collected, a, _) = collect("caf\u{e9} \u{1f680}!", &[]);
    let (streamed, b) = stream("caf\u{e9} \u{1f680}!", &[]);
    assert_eq!(collected, streamed);
    assert_eq!(a, b);
}

fn pieces(pieces: &[&str], stops: &[&str]) -> (Vec<String>, String) {
    let mut s = ChatStream::new("id".to_string(), 7, "m".to_string(), matcher(stops));
    let mut out = Vec::new();
    for p in pieces {
        let (chunk, progress) = s.accept_piece(p);
        if let Some(c) = chunk {
            out.push(c.choices[0].delta.content.clone().unwrap());
        }
        if matches!(progress, Progress::Complete) {
            break;
        }
    }
    if let Some(c) = s.flush() {
        out.push(c.choices[0].delta.content.clone().unwrap());
    }
    (out, s.closing(3).choices[0].finish_reason.clone().unwrap())
}

#[test]
fn a_stop_string_cut_in_two_is_not_sent() {
    let (sent, reason) = pieces(&["hello ST", "OP now"], &["STOP"]);
    assert_eq!(sent.concat(), "hello ");
    assert_eq!(reason, "stop");
    assert_eq!(DONE_SENTINEL, "[DONE]");
    // What only looked like the beginning of one is sent after all.
    let (sent, reason) = pieces(&["hello ST", "ART", " S"], &["STOP"]);
    assert_eq!(sent, ["hello ", "START", " ", "S"]);
    assert_eq!(reason, "length");
    // The longest beginning counts, of any of them.
    let (sent, _) = pieces(&["aab", "ab", "c"], &["abc", "bX"]);
    assert_eq!(sent, ["a", "ab"]);
}

#[test]
fn a_stop_string_over_several_tokens_is_not_streamed() {
    for stops in [&["STOP"][..], &["P w", "TOP"], &["lo", "hello S"]] {
        let (collected, a, _) = collect("hello STOP world", stops);
        let (streamed, b) = stream("hello STOP world", stops);
        assert_eq!(collected, streamed);
        assert_eq!(a, b);
    }
    assert_eq!(stream("say S", &["STOP"]).0, "say S");
}

#[test]
fn an_engine_error_ends_the_collection() {
    let t = byte_tokenizer();
    let mut c = Collector::new(matcher(&[]));
    let e = StreamEvent::from_error(&EngineError::EngineShutdown);
    assert!(c.on_event(&t, e).is_err());
}

#[test]
fn an_echoed_completion_begins_with_its_prompt() {
    let t = byte_tokenizer();
    let mut c = Collector::new(matcher(&[]));
    c.on_event(&t, token(b'x')).unwrap();
    c.on_event(&t, done(1)).unwrap();
    let r = c.into_completion_response("id".to_string(), 7, "m".to_string(), 2, Some("ab"));
    assert_eq!(r.choices[0].text, "abx");
    assert_eq!(r.usage.total_tokens, 3);
    assert_eq!(r.object, "text_completion");
}

#[test]
fn an_empty_conversation_is_refused() {
    let err = render_chat(ChatTemplate::Plain, &vec![]).unwrap_err();
    assert_eq!(
        err.message(),
        "invalid request: `messages` must not be empty"
    );
    let t = byte_tokenizer();
    assert!(encode_chat(&t, ChatTemplate::Plain, &vec![]).is_err());
}

#[test]
fn a_conversation_is_rendered_and_encoded() {
    let messages = vec![
        ChatMessage {
            role: "user".to_string(),
            content: Some("a".to_string()),
        },
        ChatMessage {
            role: "assistant".to_string(),
            content: None,
        },
    ];
    assert_eq!(
        render_chat(ChatTemplate::Plain, &messages).unwrap(),
        "a\n\n"
    );
    let t = byte_tokenizer();
    assert_eq!(
        encode_chat(&t, ChatTemplate::Plain, &messages).unwrap(),
        vec![b'a' as u32, 10, 10]
    );
    assert_eq!(DONE_SENTINEL, "[DONE]");
}

fn written(text: &str) -> WrittenFloat {
    WrittenFloat {
        value: Float32 {
            bits: text.parse::<f32>().unwrap().to_bits(),
        },
        text: text.to_string(),
    }
}

#[test]
fn a_request_states_its_parameters() {
    let req = ChatCompletionRequest {
        model: "m".to_string(),
        messages: vec![],
        temperature: None,
        top_p: None,
        top_k: Some(5),
        max_tokens: None,
        max_completion_tokens: Some(9),
        min_tokens: None,
        frequency_penalty: Some(written("1.25")),
        presence_penalty: None,
        repetition_penalty: None,
        seed: Some(1),
        stop: Some(StopField::Single("END".to_string())),
        stream: false,
        n: None,
        user: None,
    };
    let both = ChatCompletionRequest {
        presence_penalty: Some(written("1.5")),
        ..req.clone()
    };
    let p = req.into_params(128).unwrap();
    // A frequency penalty counts where no presence penalty is given.
    assert_eq!(p.repetition_penalty.text, "1.25");
    assert_eq!(both.into_params(128).unwrap().repetition_penalty.text, "1.5");
    assert_eq!(p.max_tokens, 9);
    assert_eq!(p.top_k, 5);
    assert_eq!(p.seed, Some(1));
    assert_eq!(p.stop_sequences, vec!["END"]);
}

#[test]
fn vocabulary_and_special_tokens_are_reported() {
    let t = byte_tokenizer();
    assert_eq!(t.vocab_size(), 256);
    assert!(t.can_decode(&[], true));
}

#[test]
fn a_completion_prompt_is_encoded_as_it_stands() {
    let t = byte_tokenizer();
    let ids = encode_completion(&t, &PromptField::Single("hi".into())).unwrap();
    assert_eq!(t.decode(&ids, false).unwrap(), "hi");
    assert_eq!(
        encode_completion(&t, &PromptField::Multiple(vec!["hi".into()])).unwrap(),
        ids
    );
    let err = encode_completion(&t, &PromptField::Multiple(vec!["a".into(), "b".into()]));
    assert_eq!(
        err.unwrap_err().message(),
        "invalid request: batched prompts are not supported: got 2 prompts, expected 1"
    );
}
