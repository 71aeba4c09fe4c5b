use orion_serve::api::responses::{encode_chat, encode_completion};
use orion_serve::api::types::{ChatMessage, PromptField};
use orion_serve::error::EngineError;
use orion_serve::tokenizer::decoder::IncrementalDecoder;
use orion_serve::tokenizer::hf::Tokenizer;
use orion_serve::tokenizer::stop::StopSequenceMatcher;
use orion_serve::tokenizer::template::ChatTemplate;
use tokenizers::models::unigram::Unigram;
use tokenizers::Tokenizer as HfTokenizer;

/// A tiny byte-level BPE tokenizer, built from the same JSON format a real
/// `tokenizer.json` uses, so tests exercise the production load path.
///
/// Byte-level with no merges means every byte is its own token, which is
/// exactly what is needed to exercise the multi-byte incremental-decode
/// case without shipping a real vocabulary.
fn test_tokenizer() -> Tokenizer {
    // Byte-level BPE maps each of the 256 bytes to a printable placeholder
    // character; this is the standard GPT-2 byte encoder alphabet.
    let mut vocab = String::from("{");
    for b in 0..256u32 {
        let ch = byte_to_unicode(b as u8);
        if b > 0 {
            vocab.push(',');
        }
        vocab.push_str(&format!("{}:{}", serde_json::to_string(&ch).unwrap(), b));
    }
    vocab.push('}');

    let json = format!(
        r#"{{
            "version": "1.0",
            "truncation": null,
            "padding": null,
            "added_tokens": [],
            "normalizer": null,
            "pre_tokenizer": {{"type": "ByteLevel", "add_prefix_space": false,
                               "trim_offsets": true, "use_regex": true}},
            "post_processor": null,
            "decoder": {{"type": "ByteLevel", "add_prefix_space": false,
                         "trim_offsets": true, "use_regex": true}},
            "model": {{
                "type": "BPE", "dropout": null, "unk_token": null,
                "continuing_subword_prefix": null, "end_of_word_suffix": null,
                "fuse_unk": false, "byte_fallback": false, "ignore_merges": false,
                "vocab": {vocab}, "merges": []
            }}
        }}"#
    );

    let inner: HfTokenizer = json.parse().expect("test tokenizer JSON is valid");
    Tokenizer::from_hf(inner)
}

/// GPT-2's byte-to-unicode mapping, which byte-level BPE vocabularies use
/// so that every byte has a printable representation.
fn byte_to_unicode(b: u8) -> String {
    let c = match b {
        b'!'..=b'~' => b as u32,
        0xA1..=0xAC | 0xAE..=0xFF => b as u32,
        _ => 256 + b as u32,
    };
    char::from_u32(c).unwrap().to_string()
}

#[test]
fn encode_and_decode_round_trip() {
    let t = test_tokenizer();
    let ids = t.encode("hello world", false).unwrap();
    assert!(!ids.is_empty());
    let text = t.decode(&ids, true).unwrap();
    assert!(text.contains("hello"), "got {text:?}");
}

#[test]
fn special_token_ids_come_from_the_model_config() {
    let t = test_tokenizer().with_special_tokens(Some(1), vec![2, 3]);
    assert_eq!(t.bos_token_id(), Some(1));
    assert_eq!(t.eos_token_ids(), &[2, 3]);
    assert!(t.is_eos(2));
    assert!(t.is_eos(3));
    assert!(!t.is_eos(1));
}

#[test]
fn incremental_decoding_reproduces_the_full_text() {
    // The core property: streaming must yield exactly what one batch decode
    // would have produced.
    let t = test_tokenizer();
    let ids = t.encode("hello world testing", false).unwrap();
    let expected = t.decode(&ids, true).unwrap();

    let mut dec = IncrementalDecoder::new(true);
    let mut streamed = String::new();
    for &id in &ids {
        streamed.push_str(&dec.push(&t, id).unwrap());
    }
    streamed.push_str(&dec.finish(&t).unwrap());

    assert_eq!(streamed, expected, "streaming diverged from batch decode");
    assert_eq!(dec.text(), expected);
    assert_eq!(dec.num_tokens(), ids.len());
}

#[test]
fn multi_byte_text_streams_identically_to_a_batch_decode() {
    // The contract that matters: whatever the tokenizer produces for the
    // whole sequence, streaming must reproduce byte for byte. Multi-byte
    // characters are exactly where a naive per-token decode diverges.
    let t = test_tokenizer();
    let ids = t.encode("日本語 café 🚀", false).unwrap();
    let expected = t.decode(&ids, true).unwrap();

    let mut dec = IncrementalDecoder::new(true);
    let mut streamed = String::new();
    for &id in &ids {
        streamed.push_str(&dec.push(&t, id).unwrap());
    }
    streamed.push_str(&dec.finish(&t).unwrap());

    assert_eq!(streamed, expected, "streaming diverged from batch decode");
}

#[test]
fn no_chunk_ever_ends_mid_character() {
    // Every chunk handed to a client must be valid text on its own. A chunk
    // ending in a replacement character renders as a broken glyph in the
    // middle of a stream, which is what the hold-back logic prevents.
    let t = test_tokenizer();
    let ids = t.encode("日本語 café 🚀", false).unwrap();

    let mut dec = IncrementalDecoder::new(true);
    for &id in &ids {
        let chunk = dec.push(&t, id).unwrap();
        assert!(
            !chunk.ends_with('\u{FFFD}'),
            "emitted a chunk ending mid-character: {chunk:?}"
        );
    }
}

#[test]
fn the_first_token_emits_immediately() {
    let t = test_tokenizer();
    let mut dec = IncrementalDecoder::new(true);
    let out = dec.push(&t, 1).unwrap();
    assert!(!out.is_empty(), "the first token should produce text");
}

#[test]
fn a_bounded_window_still_matches_a_full_decode() {
    // A small window must not change the emitted text, only the cost.
    let t = test_tokenizer();
    let ids = t.encode("hello world testing hello world", false).unwrap();
    let expected = t.decode(&ids, true).unwrap();

    let mut dec = IncrementalDecoder::new(true).with_window(2);
    let mut streamed = String::new();
    for &id in &ids {
        streamed.push_str(&dec.push(&t, id).unwrap());
    }
    streamed.push_str(&dec.finish(&t).unwrap());
    assert_eq!(streamed, expected);
}

#[test]
fn finish_is_idempotent_once_everything_is_emitted() {
    let t = test_tokenizer();
    let mut dec = IncrementalDecoder::new(true);
    dec.push(&t, 1).unwrap();
    dec.finish(&t).unwrap();
    assert_eq!(dec.finish(&t).unwrap(), "", "nothing left to flush");
}

#[test]
fn llama3_template_renders_headers_and_opens_the_assistant_turn() {
    let msgs = vec![
        ("system".to_string(), "Be brief.".to_string()),
        ("user".to_string(), "Hi".to_string()),
    ];
    let out = ChatTemplate::Llama3.render(&msgs);

    assert!(out.contains("<|start_header_id|>system<|end_header_id|>"));
    assert!(out.contains("Be brief.<|eot_id|>"));
    assert!(out.contains("<|start_header_id|>user<|end_header_id|>"));
    assert!(
        out.ends_with("<|start_header_id|>assistant<|end_header_id|>\n\n"),
        "must open the assistant turn so the model continues"
    );
}

#[test]
fn chatml_template_renders_im_markers() {
    let msgs = vec![("user".to_string(), "Hi".to_string())];
    let out = ChatTemplate::ChatMl.render(&msgs);
    assert!(out.contains("<|im_start|>user\nHi<|im_end|>"));
    assert!(out.ends_with("<|im_start|>assistant\n"));
}

#[test]
fn plain_template_just_concatenates() {
    let msgs = vec![
        ("user".to_string(), "one".to_string()),
        ("assistant".to_string(), "two".to_string()),
    ];
    assert_eq!(ChatTemplate::Plain.render(&msgs), "one\ntwo\n");
}

#[test]
fn templates_are_selected_by_architecture() {
    assert_eq!(
        ChatTemplate::for_architecture("llama"),
        ChatTemplate::Llama3
    );
    assert_eq!(
        ChatTemplate::for_architecture("qwen2"),
        ChatTemplate::ChatMl
    );
    assert_eq!(
        ChatTemplate::for_architecture("something-else"),
        ChatTemplate::Plain
    );
}

#[test]
fn stop_matcher_finds_a_sequence_split_across_pushes() {
    // The reason matching is over text, not tokens: "STOP" may arrive in
    // pieces that no token-level check would catch.
    let mut m = StopSequenceMatcher::new(vec!["STOP".to_string()]);
    assert_eq!(m.push("hello ST"), None);
    assert_eq!(m.push("OP now"), Some("STOP".to_string()));
}

#[test]
fn stop_matcher_ignores_text_without_a_match() {
    let mut m = StopSequenceMatcher::new(vec!["END".to_string()]);
    for chunk in ["hello ", "world ", "again"] {
        assert_eq!(m.push(chunk), None);
    }
}

#[test]
fn an_empty_matcher_never_fires() {
    let mut m = StopSequenceMatcher::new(vec![]);
    assert!(m.is_empty());
    assert_eq!(m.push("anything at all"), None);
}

#[test]
fn stop_matcher_buffer_stays_bounded() {
    // Without truncation the buffer would grow with the whole generation.
    let mut m = StopSequenceMatcher::new(vec!["XY".to_string()]);
    for _ in 0..1000 {
        m.push("aaaaaaaaaa");
    }
    assert!(m.buffered() < 100, "buffer grew to {}", m.buffered());
    // It must still detect a match after truncation.
    assert_eq!(m.push("XY"), Some("XY".to_string()));
}

#[test]
fn stop_matcher_truncation_respects_utf8_boundaries() {
    let mut m = StopSequenceMatcher::new(vec!["ZZ".to_string()]);
    for _ in 0..100 {
        // Multi-byte characters; a naive byte slice would panic.
        m.push("日本語テキスト");
    }
    assert_eq!(m.push("ZZ"), Some("ZZ".to_string()));
}

#[test]
fn truncate_at_stop_cuts_at_the_earliest_match() {
    let m = StopSequenceMatcher::new(vec!["END".to_string(), "STOP".to_string()]);
    assert_eq!(m.truncate_at_stop("hello STOP world END"), "hello ");
    assert_eq!(m.truncate_at_stop("no match here"), "no match here");
}

/// A tokenizer of single characters with the given parts.
fn letters(truncation: &str, processor: &str, dropout: &str) -> Tokenizer {
    let json = format!(
        r#"{{
            "version": "1.0", "truncation": {truncation}, "padding": null,
            "added_tokens": [], "normalizer": null, "pre_tokenizer": null,
            "post_processor": {processor}, "decoder": null,
            "model": {{
                "type": "BPE", "dropout": {dropout}, "unk_token": null,
                "continuing_subword_prefix": null, "end_of_word_suffix": null,
                "fuse_unk": false, "byte_fallback": false, "ignore_merges": false,
                "vocab": {{"a": 0, "b": 1, "c": 2, "ab": 3}}, "merges": ["a b"]
            }}
        }}"#
    );
    let inner: HfTokenizer = json.parse().expect("test tokenizer JSON is valid");
    Tokenizer::from_hf(inner)
}

const BEGIN: &str = r#"{"type": "TemplateProcessing",
    "single": [{"SpecialToken": {"id": "c", "type_id": 0}}, {"Sequence": {"id": "A", "type_id": 0}}],
    "pair": [{"Sequence": {"id": "A", "type_id": 0}}, {"Sequence": {"id": "B", "type_id": 1}}],
    "special_tokens": {"c": {"id": "c", "ids": [2], "tokens": ["c"]}}}"#;

fn truncation(length: usize, stride: usize) -> String {
    format!(
        r#"{{"direction": "Right", "max_length": {length}, "strategy": "LongestFirst", "stride": {stride}}}"#
    )
}

#[test]
fn text_is_encoded_by_the_merges_of_the_model() {
    let t = letters("null", BEGIN, "null");
    assert!(t.is_repeatable());
    assert!(t.can_encode());
    assert_eq!(t.encode("abca", false).unwrap(), vec![3, 2, 0]);
    assert_eq!(t.encode("abca", true).unwrap(), vec![2, 3, 2, 0]);
}

#[test]
fn a_model_that_drops_merges_is_not_repeatable() {
    assert!(!letters("null", "null", "0.5").is_repeatable());
}

#[test]
fn a_truncation_must_keep_more_than_its_stride() {
    let t = letters(&truncation(3, 1), BEGIN, "null");
    assert!(t.can_encode());
    assert_eq!(t.encode("acbcab", true).unwrap(), vec![2, 0, 2]);
    // One of the three tokens is added, so two are left.
    assert!(!letters(&truncation(3, 2), BEGIN, "null").can_encode());
    assert!(letters(&truncation(3, 2), "null", "null").can_encode());
    // To keep nothing is well defined, but leaves no room for the added token.
    let t = letters(&truncation(0, 0), "null", "null");
    assert!(t.can_encode());
    assert_eq!(t.encode("abc", true).unwrap(), Vec::<u32>::new());
    assert!(!letters(&truncation(0, 0), BEGIN, "null").can_encode());
}

#[test]
fn a_template_must_define_what_it_names() {
    assert!(letters("null", BEGIN, "null").can_encode());
    let undefined = BEGIN.replace("{\"c\": {\"id\": \"c\"", "{\"d\": {\"id\": \"c\"");
    assert!(!letters("null", &undefined, "null").can_encode());
    let empty = BEGIN.replace("{\"c\": {\"id\": \"c\", \"ids\": [2], \"tokens\": [\"c\"]}}", "{}");
    assert!(!letters("null", &empty, "null").can_encode());
    let second = BEGIN.replace(
        "{\"Sequence\": {\"id\": \"A\", \"type_id\": 0}}],\n    \"pair\"",
        "{\"Sequence\": {\"id\": \"B\", \"type_id\": 0}}],\n    \"pair\"",
    );
    assert_ne!(second, BEGIN);
    assert!(!letters("null", &second, "null").can_encode());
    let chain = format!("{{\"type\": \"Sequence\", \"processors\": [{BEGIN}, {BEGIN}]}}");
    assert!(!letters("null", &chain, "null").can_encode());
    // A token may be called as a piece of a template is.
    let odd = BEGIN.replace("\"c\"", "\"SpecialToken\"");
    assert!(letters("null", &odd, "null").can_encode());
    let odd = odd.replace("{\"SpecialToken\": {\"id\": \"SpecialToken\", \"ids\"", "{\"e\": {\"id\": \"e\", \"ids\"");
    assert!(!letters("null", &odd, "null").can_encode());
    // So may one with a quotation mark in its name.
    let quoted = BEGIN.replace("\"c\"", "\"a\\\"b\"");
    let t = letters("null", &quoted, "null");
    assert!(t.can_encode());
    assert_eq!(t.encode("ab", true).unwrap(), vec![2, 3]);
}

fn with_part(part: &str, json: &str) -> Tokenizer {
    let inner: HfTokenizer = format!(
        r#"{{"version": "1.0", "truncation": null, "padding": null, "added_tokens": [],
            "normalizer": null, "{part}": {json},
            "model": {{"type": "WordLevel", "vocab": {{"a": 0, "b</w>": 1}}, "unk_token": "a"}}}}"#
    )
    .parse()
    .expect("test tokenizer JSON is valid");
    Tokenizer::from_hf(inner)
}

#[test]
fn pieces_of_no_length_cannot_be_split_off() {
    let split = |n: usize| {
        with_part(
            "pre_tokenizer",
            &format!("{{\"type\": \"FixedLength\", \"length\": {n}}}"),
        )
    };
    assert!(!split(0).can_encode());
    let t = split(1);
    assert!(t.can_encode());
    assert_eq!(t.encode("aa", false).unwrap(), vec![0, 0]);
    assert!(split(10).can_encode());
}

#[test]
fn a_decoder_of_end_marks_needs_a_token() {
    let t = with_part("decoder", "{\"type\": \"BPEDecoder\", \"suffix\": \"</w>\"}");
    assert!(!t.can_decode(&[], false));
    // There is no token with the id 9.
    assert!(!t.can_decode(&[9], false));
    assert!(t.can_decode(&[9, 1, 0], false));
    assert_eq!(t.decode(&[9, 1, 0], false).unwrap(), "b a");
    assert_eq!(t.try_decode(&[1], true).unwrap(), "b");
    assert!(matches!(
        t.try_decode(&[], false),
        Err(EngineError::Tokenizer(m)) if m == "the tokenizer cannot decode these tokens"
    ));
    let mut d = IncrementalDecoder::new(true);
    let first = d.push(&t, 1).unwrap();
    let second = d.push(&t, 0).unwrap();
    assert_eq!((first + &second).trim_end(), "b a");
    let chain = "{\"type\": \"Sequence\", \"decoders\": [{\"type\": \"BPEDecoder\", \"suffix\": \"</w>\"}]}";
    assert!(!with_part("decoder", chain).can_decode(&[1], false));
    let t = with_part("decoder", "{\"type\": \"Fuse\"}");
    assert!(t.can_decode(&[], false));
    assert_eq!(t.decode(&[1, 0], false).unwrap(), "b</w>a");
}

/// A tokenizer of whole words with the given normalizer, added tokens and
/// padding.
fn words(normalizer: &str, added: &str, padding: &str) -> Tokenizer {
    let inner: HfTokenizer = format!(
        r#"{{"version": "1.0", "truncation": null, "padding": {padding},
            "added_tokens": {added}, "normalizer": {normalizer},
            "pre_tokenizer": {{"type": "WhitespaceSplit"}},
            "model": {{"type": "WordLevel", "vocab": {{"a": 0, "b": 1, "_b": 2}}, "unk_token": "a"}}}}"#
    )
    .parse()
    .expect("test tokenizer JSON is valid");
    Tokenizer::from_hf(inner)
}

#[test]
fn a_normalizer_must_keep_characters_next_to_their_text() {
    let normalizing = |json: &str| words(json, "[]", "null");
    let t = normalizing(r#"{"type": "Lowercase"}"#);
    assert!(t.can_encode());
    assert_eq!(t.encode("A B", false).unwrap(), vec![0, 1]);
    let t = normalizing(r#"{"type": "Prepend", "prepend": "_"}"#);
    assert!(t.can_encode());
    assert_eq!(t.encode("b b", false).unwrap(), vec![2, 1]);
    let t = normalizing(
        r#"{"type": "Replace", "pattern": {"String": "-"}, "content": " "}"#,
    );
    assert!(t.can_encode());
    assert_eq!(t.encode("b-b", false).unwrap(), vec![1, 1]);
    for json in [
        r#"{"type": "Precompiled", "precompiled_charsmap": "AAAAAA=="}"#,
        r#"{"type": "Prepend", "prepend": ""}"#,
        r#"{"type": "Replace", "pattern": {"String": ""}, "content": "_"}"#,
        r#"{"type": "Replace", "pattern": {"Regex": "^"}, "content": "_"}"#,
    ] {
        assert!(!normalizing(json).can_encode(), "{json}");
        let chain = format!(
            r#"{{"type": "Sequence", "normalizers": [{{"type": "Lowercase"}}, {json}]}}"#
        );
        assert!(!normalizing(&chain).can_encode(), "{chain}");
    }
}

#[test]
fn added_tokens_may_strip_one_side_only() {
    let token = |id: usize, content: &str, left: bool, right: bool| {
        format!(
            r#"{{"id": {id}, "content": "{content}", "single_word": false, "lstrip": {left},
                "rstrip": {right}, "normalized": false, "special": true}}"#
        )
    };
    let adding = |tokens: &[String]| words("null", &format!("[{}]", tokens.join(",")), "null");
    let t = adding(&[token(3, "<x>", false, true), token(4, "<y>", false, false)]);
    assert!(t.can_encode());
    assert_eq!(t.encode("b<x> <y>b", false).unwrap(), vec![1, 3, 4, 1]);
    assert!(adding(&[token(3, "<x>", true, false)]).can_encode());
    assert!(!adding(&[token(3, "<x>", false, true), token(4, " ", true, false)]).can_encode());
}

#[test]
fn texts_are_padded_as_far_as_memory_goes() {
    let padding = |strategy: &str, multiple: &str| {
        words(
            "null",
            "[]",
            &format!(
                r#"{{"strategy": {strategy}, "direction": "Right",
                    "pad_to_multiple_of": {multiple}, "pad_id": 1, "pad_type_id": 0,
                    "pad_token": "b"}}"#
            ),
        )
    };
    let t = padding(r#"{"Fixed": 3}"#, "null");
    assert!(t.can_encode());
    assert_eq!(t.encode("a a", false).unwrap(), vec![0, 0, 1]);
    let t = padding(r#""BatchLongest""#, "4");
    assert!(t.can_encode());
    assert_eq!(t.encode("a", false).unwrap(), vec![0, 1, 1, 1]);
    assert!(padding(r#"{"Fixed": 16777216}"#, "null").can_encode());
    assert!(!padding(r#"{"Fixed": 16777217}"#, "null").can_encode());
    assert!(!padding(r#""BatchLongest""#, "18446744073709551615").can_encode());
}

#[test]
fn a_model_that_samples_pieces_cannot_encode_every_text() {
    let pieces = vec![("<unk>".to_string(), 0.0), ("a".to_string(), -1.0)];
    let mut model = Unigram::from(pieces, Some(0), false).unwrap();
    let t = Tokenizer::from_hf(HfTokenizer::new(model.clone()));
    assert!(t.can_encode());
    assert!(t.is_repeatable());
    assert_eq!(t.encode("aa", false).unwrap(), vec![1, 1]);
    model.alpha = Some(0.5);
    let t = Tokenizer::from_hf(HfTokenizer::new(model));
    assert!(!t.can_encode());
    assert!(!t.is_repeatable());
}

fn splitting(regex: &str) -> Tokenizer {
    let json = serde_json::to_string(regex).unwrap();
    with_part(
        "pre_tokenizer",
        &format!(
            r#"{{"type": "Split", "pattern": {{"Regex": {json}}}, "behavior": "Isolated", "invert": false}}"#
        ),
    )
}

#[test]
fn regular_expressions_must_not_refer_back() {
    for regex in [r"(a)\1", r"(?<x>a)\k<x>", r"a\Kb", r"(a)\g<1>", r"(?P<x>a)(?P=x)"] {
        assert!(!splitting(regex).can_encode(), "{regex}");
        let json = serde_json::to_string(regex).unwrap();
        let replacing = with_part(
            "decoder",
            &format!(r#"{{"type": "Replace", "pattern": {{"Regex": {json}}}, "content": "-"}}"#),
        );
        assert!(!replacing.can_decode(&[1], false), "{regex}");
    }
    let t = splitting(r"(?i:'s|'t)|[^\r\n\p{L}\p{N}]?\p{L}|\p{N}{1,3}|\s+(?!\S)|\s+");
    assert!(t.can_encode());
    assert_eq!(t.encode("aaa", false).unwrap(), vec![0, 0, 0]);
    let t = with_part(
        "decoder",
        r#"{"type": "Replace", "pattern": {"Regex": "</w>"}, "content": "-"}"#,
    );
    assert!(t.can_decode(&[1], false));
    assert_eq!(t.decode(&[1], false).unwrap(), "b-");
}

#[test]
fn a_search_that_takes_too_long_is_given_up() {
    let t = splitting("(?:a+)+(?=b)");
    assert!(t.can_encode());
    // No piece is found within the search's limit, so the text stays whole.
    assert_eq!(t.encode(&"a".repeat(40), false).unwrap(), vec![0]);
}

#[test]
fn a_tokenizer_that_cannot_encode_every_text_is_refused() {
    let t = splitting(r"(a)\1");
    let text = |e: EngineError| match e {
        EngineError::Tokenizer(message) => message,
        other => panic!("{other:?}"),
    };
    let messages = vec![ChatMessage {
        role: "user".to_string(),
        content: Some("a".to_string()),
    }];
    let e = encode_chat(&t, ChatTemplate::Plain, &messages).unwrap_err();
    assert_eq!(text(e), "the tokenizer cannot encode every text");
    let e = encode_completion(&t, &PromptField::Single("a".to_string())).unwrap_err();
    assert_eq!(text(e), "the tokenizer cannot encode every text");
}

#[test]
fn special_tokens_that_are_left_out_are_no_tokens_to_decode() {
    let inner: HfTokenizer = r#"{"version": "1.0", "truncation": null, "padding": null,
        "added_tokens": [{"id": 2, "content": "<s>", "single_word": false, "lstrip": false,
            "rstrip": false, "normalized": false, "special": true}],
        "normalizer": null, "decoder": {"type": "BPEDecoder", "suffix": "</w>"},
        "model": {"type": "WordLevel", "vocab": {"a": 0, "b</w>": 1}, "unk_token": "a"}}"#
        .parse()
        .expect("test tokenizer JSON is valid");
    let t = Tokenizer::from_hf(inner);
    assert!(t.can_decode(&[2], false));
    assert_eq!(t.decode(&[2], false).unwrap(), "<s>");
    assert!(!t.can_decode(&[2], true));
    assert!(t.can_decode(&[2, 1], true));
    assert_eq!(t.decode(&[2, 1], true).unwrap(), "b");
}
