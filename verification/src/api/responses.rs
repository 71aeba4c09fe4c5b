//! What becomes of a stream of generation events: one response, or a series of
//! chunks.

use crate::api::types::{
    finish_reason_str, ChatChoice, ChatChunkChoice, ChatCompletionChunk, ChatCompletionResponse,
    ChatDelta, ChatMessage, CompletionChoice, CompletionResponse, PromptField, Usage,
};
use crate::engine::StreamEvent;
use crate::error::EngineError;
use crate::id::TokenId;
use crate::sequence::FinishReason;
use crate::text::{decimal, join2, join3, owned};
use crate::tokenizer::chars::{byte_len, occurs, occurs_at};
use crate::tokenizer::decoder::{
    grows_settled, in_step, law_a_fresh_decoder_is_in_step, law_streaming_reproduces_the_whole_text,
    law_streaming_stays_in_step, DecoderModel, IncrementalDecoder,
};
use crate::tokenizer::hf::{encoded, text_of, Tokenizer};
use crate::tokenizer::stop::{
    final_part, law_enough_text_is_retained, law_holding_back_keeps_sent_text_final,
    law_sent_text_stands, law_stop_strings_are_found_across_pushes, lemma_retained_is_one,
    lemma_unheld, none_found, remembers, retained, stops_have_text, unheld, visible, MatcherModel,
    StopSequenceMatcher,
};
use crate::tokenizer::template::ChatTemplate;
use vstd::prelude::*;
use vstd::string::*;

verus! {

/// The line that ends a stream of chunks.
pub const DONE_SENTINEL: &'static str = "[DONE]";

/// The role and content of each message, with no content as an empty one.
pub open spec fn as_pairs(messages: Seq<ChatMessage>, pairs: Seq<(String, String)>) -> bool {
    &&& pairs.len() == messages.len()
    &&& forall|i: int|
        0 <= i < messages.len() ==> {
            &&& (#[trigger] pairs[i]).0@ == messages[i].role@
            &&& pairs[i].1@ == match messages[i].content {
                Some(c) => c@,
                None => Seq::empty(),
            }
        }
}

/// Whether `text` is what a template makes of chat messages.
pub open spec fn renders(template: ChatTemplate, messages: Seq<ChatMessage>, text: Seq<char>) -> bool {
    exists|pairs: Seq<(String, String)>| #[trigger]
        as_pairs(messages, pairs) && text == template.turns(pairs) + template.opening()
}

/// The prompt text of a chat, or an error where there is no message.
pub fn render_chat(template: ChatTemplate, messages: &Vec<ChatMessage>) -> (r: Result<
    String,
    EngineError,
>)
    ensures
        match r {
            Ok(text) => messages@.len() > 0 && renders(template, messages@, text@),
            Err(e) => messages@.len() == 0 && e.is_invalid_request(
                "`messages` must not be empty"@,
            ),
        },
{
    if messages.len() == 0 {
        return Err(EngineError::InvalidRequest(owned("`messages` must not be empty")));
    }
    let mut pairs: Vec<(String, String)> = Vec::new();
    let mut i: usize = 0;
    while i < messages.len()
        invariant
            i <= messages@.len(),
            as_pairs(messages@.take(i as int), pairs@),
        decreases messages@.len() - i,
    {
        let m = &messages[i];
        let content: String = match &m.content {
            Some(c) => c.clone(),
            None => String::new(),
        };
        let ghost before = pairs@;
        pairs.push((m.role.clone(), content));
        proof {
            let now = messages@.take(i + 1);
            assert forall|k: int| 0 <= k < now.len() implies {
                &&& (#[trigger] pairs@[k]).0@ == now[k].role@
                &&& pairs@[k].1@ == match now[k].content {
                    Some(c) => c@,
                    None => Seq::empty(),
                }
            } by {
                if k < i {
                    assert(before[k].0@ == messages@.take(i as int)[k].role@);
                    assert(pairs@[k] == before[k]);
                }
            }
        }
        i += 1;
    }
    proof {
        assert(messages@.take(messages@.len() as int) =~= messages@);
    }
    Ok(template.render(pairs.as_slice()))
}

/// Renders chat messages and encodes them to tokens.
///
/// The template already inserts the model's special tokens, so the tokenizer
/// does not add its own on top. A tokenizer that cannot encode every text is
/// refused.
pub fn encode_chat(tokenizer: &Tokenizer, template: ChatTemplate, messages: &Vec<ChatMessage>) -> (r:
    Result<Vec<TokenId>, EngineError>)
    ensures
        messages@.len() == 0 ==> (r matches Err(e) && e.is_invalid_request(
            "`messages` must not be empty"@,
        )),
        messages@.len() > 0 && !tokenizer.encodes() ==> (r matches Err(
            EngineError::Tokenizer(message),
        ) && message@ == "the tokenizer cannot encode every text"@),
        messages@.len() > 0 ==> (r matches Err(e) ==> e is Tokenizer),
        messages@.len() > 0 && tokenizer.encodes() && tokenizer.repeats() ==> exists|text: Seq<char>|
            #[trigger] renders(template, messages@, text) && match r {
                Ok(ids) => encoded(tokenizer.hf(), text, false) == Ok::<Seq<TokenId>, Seq<char>>(
                    ids@,
                ),
                Err(e) => e matches EngineError::Tokenizer(message) && encoded(
                    tokenizer.hf(),
                    text,
                    false,
                ) == Err::<Seq<TokenId>, Seq<char>>(message@),
            },
{
    let prompt = match render_chat(template, messages) {
        Ok(p) => p,
        Err(e) => {
            return Err(e);
        },
    };
    if !tokenizer.can_encode() {
        return Err(EngineError::Tokenizer(owned("the tokenizer cannot encode every text")));
    }
    proof {
        assert(renders(template, messages@, prompt@));
    }
    tokenizer.encode(prompt.as_str(), false)
}

/// The text of a prompt that is a single one.
pub open spec fn single_prompt(prompt: PromptField) -> Option<Seq<char>> {
    match prompt {
        PromptField::Single(s) => Some(s@),
        PromptField::Multiple(v) => if v@.len() == 1 {
            Some(v@[0]@)
        } else {
            None
        },
    }
}

/// Encodes a completion's prompt to tokens, with the tokenizer's own special
/// tokens. A batch of prompts is refused, and so is a tokenizer that cannot
/// encode every text.
pub fn encode_completion(tokenizer: &Tokenizer, prompt: &PromptField) -> (r: Result<
    Vec<TokenId>,
    EngineError,
>)
    ensures
        match single_prompt(*prompt) {
            None => prompt matches PromptField::Multiple(v) && r matches Err(e)
                && e.is_invalid_request(
                "batched prompts are not supported: got "@ + decimal(v@.len())
                    + " prompts, expected 1"@,
            ),
            Some(text) => {
                &&& r matches Err(e) ==> e is Tokenizer
                &&& !tokenizer.encodes() ==> (r matches Err(EngineError::Tokenizer(message))
                    && message@ == "the tokenizer cannot encode every text"@)
                &&& tokenizer.encodes() && tokenizer.repeats() ==> match r {
                    Ok(ids) => encoded(tokenizer.hf(), text, true) == Ok::<
                        Seq<TokenId>,
                        Seq<char>,
                    >(ids@),
                    Err(e) => e matches EngineError::Tokenizer(message) && encoded(
                        tokenizer.hf(),
                        text,
                        true,
                    ) == Err::<Seq<TokenId>, Seq<char>>(message@),
                }
            },
        },
{
    let text = match prompt.single() {
        Ok(text) => text,
        Err(e) => {
            return Err(e);
        },
    };
    if !tokenizer.can_encode() {
        return Err(EngineError::Tokenizer(owned("the tokenizer cannot encode every text")));
    }
    tokenizer.encode(text, true)
}

/// Whether the response is complete after an event.
#[derive(Debug, Clone, Copy, PartialEq, Eq, Structural)]
pub enum Progress {
    More,
    Complete,
}

/// The text of a response as it comes in: pieces, the count of tokens, and why
/// it ended.
#[derive(Debug)]
pub struct Collector {
    decoder: IncrementalDecoder,
    stop: StopSequenceMatcher,
    text: String,
    completion_tokens: usize,
    finish: FinishReason,
}

/// What a collector holds.
pub ghost struct CollectorModel {
    pub decoder: DecoderModel,
    pub stop: MatcherModel,
    pub text: Seq<char>,
    pub tokens: usize,
    pub finish: FinishReason,
}

impl View for Collector {
    type V = CollectorModel;

    closed spec fn view(&self) -> CollectorModel {
        CollectorModel {
            decoder: self.decoder@,
            stop: self.stop@,
            text: self.text@,
            tokens: self.completion_tokens,
            finish: self.finish,
        }
    }
}

/// One more than a count, as long as that can be counted.
pub open spec fn next_count(n: usize) -> usize {
    if n < usize::MAX {
        (n + 1) as usize
    } else {
        n
    }
}

/// The larger of two counts.
pub open spec fn larger(a: usize, b: usize) -> usize {
    if a >= b {
        a
    } else {
        b
    }
}

/// Whether a new piece of text completes a stop string.
pub open spec fn piece_stops(stop: MatcherModel, piece: Seq<char>) -> bool {
    &&& stop.sequences.len() > 0
    &&& piece.len() > 0
    &&& !none_found(stop.sequences, stop.buffer + piece)
}

/// A piece of text that completes a stop string ends the response.
pub open spec fn progress_on(stop: MatcherModel, piece: Seq<char>) -> Progress {
    if piece_stops(stop, piece) {
        Progress::Complete
    } else {
        Progress::More
    }
}

/// What a matcher is after a piece of text.
pub open spec fn matched(before: MatcherModel, piece: Seq<char>, after: MatcherModel) -> bool {
    &&& after.sequences == before.sequences
    &&& after.max_len == before.max_len
    &&& if before.sequences.len() == 0 || piece.len() == 0 {
        after == before
    } else {
        retained(before.buffer + piece, before.max_len, after.buffer)
    }
}

/// The decoder after a token that yielded a piece of text.
pub open spec fn decoder_after(m: DecoderModel, tokenizer: Tokenizer, token: TokenId) -> DecoderModel {
    let a = m.anchored(tokenizer.hf(), token)->Ok_0;
    a.emitting(text_of(tokenizer.hf(), a.window_tokens(), a.skip)->Ok_0)
}

impl CollectorModel {
    pub open spec fn wf(self) -> bool {
        &&& self.decoder.wf()
        &&& self.stop.wf()
    }

    /// Whether `after` is what a collector is after a piece of text, but for
    /// its decoder.
    pub open spec fn collects(self, piece: Seq<char>, after: CollectorModel) -> bool {
        &&& after.text == self.text + piece
        &&& after.tokens == next_count(self.tokens)
        &&& matched(self.stop, piece, after.stop)
        &&& after.finish == if piece_stops(self.stop, piece) {
            FinishReason::Stop
        } else {
            self.finish
        }
    }

    /// The text that is shown: all before the first stop string.
    pub open spec fn shown(self) -> Seq<char> {
        visible(self.stop.sequences, self.text)
    }
}

/// What the decoder makes of a token: a new piece of text, a failure, or
/// neither where the tokenizer's text cannot be continued.
pub open spec fn piece_of(m: DecoderModel, tokenizer: Tokenizer, token: TokenId) -> Option<
    Result<Seq<char>, Seq<char>>,
> {
    if !m.continues(tokenizer.hf(), token) {
        None
    } else {
        match m.anchored(tokenizer.hf(), token) {
            Err(message) => Some(Err(message)),
            Ok(a) => match text_of(tokenizer.hf(), a.window_tokens(), a.skip) {
                Err(message) => Some(Err(message)),
                Ok(text) => Some(Ok(a.stable_part(text))),
            },
        }
    }
}

/// What finishing the decoder yields: the rest of the text, or a failure.
pub open spec fn tail_of(m: DecoderModel, tokenizer: Tokenizer) -> Result<Seq<char>, Seq<char>> {
    match text_of(tokenizer.hf(), m.tokens, m.skip) {
        Err(message) => Err(message),
        Ok(full) => Ok(m.rest_of(full)),
    }
}

/// The text of a decode that does not continue what was emitted.
pub open spec fn broken_decode() -> Seq<char> {
    "decoded text does not continue the text before it"@
}

/// Decodes one more token.
fn next_piece(decoder: &mut IncrementalDecoder, tokenizer: &Tokenizer, token: TokenId) -> (r:
    Result<String, EngineError>)
    requires
        old(decoder).wf(),
    ensures
        final(decoder).wf(),
        match piece_of(old(decoder)@, *tokenizer, token) {
            None => {
                &&& r matches Err(e) && e.is_internal(broken_decode())
                &&& final(decoder)@ == old(decoder)@
            },
            Some(Err(message)) => r matches Err(EngineError::Tokenizer(m)) && m@ == message,
            Some(Ok(piece)) => {
                &&& r matches Ok(p) && p@ == piece
                &&& final(decoder)@ == decoder_after(old(decoder)@, *tokenizer, token)
            },
        },
{
    match decoder.try_push(tokenizer, token) {
        Ok(Some(piece)) => Ok(piece),
        Ok(None) => Err(
            EngineError::Internal(owned("decoded text does not continue the text before it")),
        ),
        Err(e) => Err(e),
    }
}

/// Flushes what the decoder held back.
fn last_piece(decoder: &mut IncrementalDecoder, tokenizer: &Tokenizer) -> (r: Result<
    String,
    EngineError,
>)
    requires
        old(decoder).wf(),
    ensures
        final(decoder).wf(),
        match tail_of(old(decoder)@, *tokenizer) {
            Err(message) => r matches Err(EngineError::Tokenizer(m)) && m@ == message,
            Ok(tail) => r matches Ok(t) && t@ == tail,
        },
{
    decoder.finish(tokenizer)
}

impl Collector {
    pub open spec fn wf(&self) -> bool {
        self@.wf()
    }

    /// A collector with nothing in it; a response without an end counts as cut
    /// off by its length.
    pub fn new(stop: StopSequenceMatcher) -> (r: Self)
        requires
            stop@.wf(),
        ensures
            r.wf(),
            r@.stop == stop@,
            r@.text == Seq::<char>::empty(),
            r@.tokens == 0,
            r@.finish == FinishReason::Length,
            r@.decoder == DecoderModel::fresh(true),
    {
        Collector {
            decoder: IncrementalDecoder::new(true),
            stop,
            text: String::new(),
            completion_tokens: 0,
            finish: FinishReason::Length,
        }
    }

    /// Takes in the text of one token, and says whether a stop string ends the
    /// response.
    pub fn accept_piece(&mut self, piece: &str) -> (r: Progress)
        requires
            old(self).wf(),
        ensures
            final(self).wf(),
            final(self)@.decoder == old(self)@.decoder,
            old(self)@.collects(piece@, final(self)@),
            r == progress_on(old(self)@.stop, piece@),
    {
        let ghost before = self@;
        self.text.append(piece);
        self.completion_tokens = self.completion_tokens.saturating_add(1);
        let found: bool = self.stop.push(piece).is_some();
        proof {
            lemma_first_found(before.stop, piece@);
        }
        if found {
            self.finish = FinishReason::Stop;
            Progress::Complete
        } else {
            Progress::More
        }
    }

    /// Takes in the end of generation, with the text that was held back.
    pub fn accept_end(&mut self, tail: &str, reason: FinishReason, completion_tokens: usize)
        requires
            old(self).wf(),
        ensures
            final(self).wf(),
            final(self)@ == (CollectorModel {
                text: old(self)@.text + tail@,
                tokens: larger(completion_tokens, old(self)@.tokens),
                finish: reason,
                ..old(self)@
            }),
    {
        self.text.append(tail);
        if completion_tokens > self.completion_tokens {
            self.completion_tokens = completion_tokens;
        }
        self.finish = reason;
    }

    /// Takes in one event. A failed generation or decode fails the response.
    pub fn on_event(&mut self, tokenizer: &Tokenizer, event: StreamEvent) -> (r: Result<
        Progress,
        EngineError,
    >)
        requires
            old(self).wf(),
        ensures
            final(self).wf(),
            match event {
                StreamEvent::Token { token, .. } => match piece_of(
                    old(self)@.decoder,
                    *tokenizer,
                    token,
                ) {
                    None => r matches Err(e) && e.is_internal(broken_decode()),
                    Some(Err(message)) => r matches Err(EngineError::Tokenizer(m)) && m@
                        == message,
                    Some(Ok(piece)) => {
                        &&& old(self)@.collects(piece, final(self)@)
                        &&& final(self)@.decoder == decoder_after(
                            old(self)@.decoder,
                            *tokenizer,
                            token,
                        )
                        &&& r matches Ok(p) && p == progress_on(old(self)@.stop, piece)
                    },
                },
                StreamEvent::Done { reason, completion_tokens, .. } => match tail_of(
                    old(self)@.decoder,
                    *tokenizer,
                ) {
                    Err(message) => r matches Err(EngineError::Tokenizer(m)) && m@ == message,
                    Ok(tail) => {
                        &&& r matches Ok(Progress::Complete)
                        &&& final(self)@.text == old(self)@.text + tail
                        &&& final(self)@.tokens == larger(
                            completion_tokens,
                            old(self)@.tokens,
                        )
                        &&& final(self)@.finish == reason
                        &&& final(self)@.stop == old(self)@.stop
                    },
                },
                StreamEvent::Error { code, message } => {
                    &&& r matches Err(e) && e.is_internal(code@ + ": "@ + message@)
                    &&& final(self)@ == old(self)@
                },
            },
    {
        match event {
            StreamEvent::Token { token, .. } => {
                let piece = match next_piece(&mut self.decoder, tokenizer, token) {
                    Ok(p) => p,
                    Err(e) => {
                        return Err(e);
                    },
                };
                Ok(self.accept_piece(piece.as_str()))
            },
            StreamEvent::Done { reason, completion_tokens, .. } => {
                let tail = match last_piece(&mut self.decoder, tokenizer) {
                    Ok(t) => t,
                    Err(e) => {
                        return Err(e);
                    },
                };
                self.accept_end(tail.as_str(), reason, completion_tokens);
                Ok(Progress::Complete)
            },
            StreamEvent::Error { code, message } => Err(
                EngineError::Internal(join3(code, ": ", message.as_str())),
            ),
        }
    }

    /// The chat response. Text after a stop string is not shown: the caller
    /// asked to stop there.
    pub fn into_chat_response(
        self,
        id: String,
        created: u64,
        model: String,
        prompt_tokens: usize,
    ) -> (r: ChatCompletionResponse)
        requires
            self.wf(),
            prompt_tokens + self@.tokens <= usize::MAX,
        ensures
            r.id@ == id@,
            r.object@ == "chat.completion"@,
            r.created == created,
            r.model@ == model@,
            r.choices@.len() == 1,
            r.choices@[0].index == 0,
            r.choices@[0].message.role@ == "assistant"@,
            r.choices@[0].message.content matches Some(c) && c@ == self@.shown(),
            r.choices@[0].finish_reason@ == self@.finish.api_label(),
            r.usage.prompt_tokens == prompt_tokens,
            r.usage.completion_tokens == self@.tokens,
            r.usage.total_tokens == prompt_tokens + self@.tokens,
    {
        let text = owned(self.stop.truncate_at_stop(self.text.as_str()));
        let mut choices: Vec<ChatChoice> = Vec::new();
        choices.push(
            ChatChoice {
                index: 0,
                message: ChatMessage { role: owned("assistant"), content: Some(text) },
                finish_reason: finish_reason_str(&self.finish),
            },
        );
        ChatCompletionResponse {
            id,
            object: "chat.completion",
            created,
            model,
            choices,
            usage: Usage::new(prompt_tokens, self.completion_tokens),
        }
    }

    /// The text completion response, with the prompt in front where it is to
    /// be echoed.
    pub fn into_completion_response(
        self,
        id: String,
        created: u64,
        model: String,
        prompt_tokens: usize,
        echoed: Option<&str>,
    ) -> (r: CompletionResponse)
        requires
            self.wf(),
            prompt_tokens + self@.tokens <= usize::MAX,
        ensures
            r.id@ == id@,
            r.object@ == "text_completion"@,
            r.created == created,
            r.model@ == model@,
            r.choices@.len() == 1,
            r.choices@[0].index == 0,
            r.choices@[0].text@ == match echoed {
                Some(prompt) => prompt@ + self@.shown(),
                None => self@.shown(),
            },
            r.choices@[0].finish_reason@ == self@.finish.api_label(),
            r.usage.prompt_tokens == prompt_tokens,
            r.usage.completion_tokens == self@.tokens,
            r.usage.total_tokens == prompt_tokens + self@.tokens,
    {
        let shown = self.stop.truncate_at_stop(self.text.as_str());
        let text: String = match echoed {
            Some(prompt) => join2(prompt, shown),
            None => owned(shown),
        };
        let mut choices: Vec<CompletionChoice> = Vec::new();
        choices.push(
            CompletionChoice { index: 0, text, finish_reason: finish_reason_str(&self.finish) },
        );
        CompletionResponse {
            id,
            object: "text_completion",
            created,
            model,
            choices,
            usage: Usage::new(prompt_tokens, self.completion_tokens),
        }
    }

    /// Tokens counted so far.
    pub fn completion_tokens(&self) -> (r: usize)
        ensures
            r == self@.tokens,
    {
        self.completion_tokens
    }
}

/// Where a stop string occurs, one of them is the first.
proof fn lemma_first_found(m: MatcherModel, piece: Seq<char>)
    ensures
        forall|i: int| #[trigger]
            crate::tokenizer::stop::first_found(m.sequences, m.buffer + piece, i) ==> !none_found(
                m.sequences,
                m.buffer + piece,
            ),
{
    assert forall|i: int| #[trigger]
        crate::tokenizer::stop::first_found(m.sequences, m.buffer + piece, i) implies !none_found(
        m.sequences,
        m.buffer + piece,
    ) by {
        assert(crate::tokenizer::chars::occurs(m.buffer + piece, m.sequences[i]));
    }
}

// ----- chunks ------------------------------------------------------------------

/// The fields that all chunks of one response share.
pub open spec fn chunk_frame(
    c: ChatCompletionChunk,
    id: Seq<char>,
    created: u64,
    model: Seq<char>,
) -> bool {
    &&& c.id@ == id
    &&& c.object@ == "chat.completion.chunk"@
    &&& c.created == created
    &&& c.model@ == model
    &&& c.choices@.len() == 1
    &&& c.choices@[0].index == 0
}

/// Whether a chunk carries exactly this piece of text.
pub open spec fn carries(c: ChatCompletionChunk, content: Seq<char>) -> bool {
    &&& c.choices@[0].delta.role is None
    &&& c.choices@[0].delta.content matches Some(t) && t@ == content
    &&& c.choices@[0].finish_reason is None
    &&& c.usage is None
}

/// A chunk with the given delta.
fn chunk(
    id: &str,
    created: u64,
    model: &str,
    delta: ChatDelta,
    finish_reason: Option<String>,
    usage: Option<Usage>,
) -> (r: ChatCompletionChunk)
    ensures
        chunk_frame(r, id@, created, model@),
        r.choices@[0].delta == delta,
        r.choices@[0].finish_reason == finish_reason,
        r.usage == usage,
{
    let mut choices: Vec<ChatChunkChoice> = Vec::new();
    choices.push(ChatChunkChoice { index: 0, delta, finish_reason });
    ChatCompletionChunk {
        id: owned(id),
        object: "chat.completion.chunk",
        created,
        model: owned(model),
        choices,
        usage,
    }
}

/// A chunk that carries a piece of text and nothing else.
pub fn content_chunk(id: &str, created: u64, model: &str, content: &str) -> (r: ChatCompletionChunk)
    ensures
        chunk_frame(r, id@, created, model@),
        carries(r, content@),
{
    chunk(
        id,
        created,
        model,
        ChatDelta { role: None, content: Some(owned(content)) },
        None,
        None,
    )
}

/// A streamed chat response: from events to chunks.
pub struct ChatStream {
    id: String,
    created: u64,
    model: String,
    decoder: IncrementalDecoder,
    stop: StopSequenceMatcher,
    /// Text that may begin a stop string, and was not sent for that.
    held: String,
    /// The text of the chunks so far.
    sent: Ghost<Seq<char>>,
    completion_tokens: usize,
    finish: FinishReason,
}

/// What a streamed response holds.
pub ghost struct StreamModel {
    pub id: Seq<char>,
    pub created: u64,
    pub model: Seq<char>,
    pub decoder: DecoderModel,
    pub stop: MatcherModel,
    pub held: Seq<char>,
    pub sent: Seq<char>,
    pub tokens: usize,
    pub finish: FinishReason,
}

impl View for ChatStream {
    type V = StreamModel;

    closed spec fn view(&self) -> StreamModel {
        StreamModel {
            id: self.id@,
            created: self.created,
            model: self.model@,
            decoder: self.decoder@,
            stop: self.stop@,
            held: self.held@,
            sent: self.sent@,
            tokens: self.completion_tokens,
            finish: self.finish,
        }
    }
}

impl StreamModel {
    pub open spec fn wf(self) -> bool {
        &&& self.decoder.wf()
        &&& self.stop.wf()
    }

    /// All text taken in: what was sent, and what is held back.
    pub open spec fn taken(self) -> Seq<char> {
        self.sent + self.held
    }

    /// Whether what was sent stands whatever follows, and the matcher
    /// remembers what it needs of the text.
    pub open spec fn in_order(self) -> bool {
        &&& self.wf()
        &&& stops_have_text(self.stop.sequences)
        &&& final_part(self.stop.sequences, self.sent, self.held)
        &&& self.stop.sequences.len() > 0 ==> remembers(
            self.stop.buffer,
            self.taken(),
            self.stop.max_len,
        )
    }

    /// The text to send on a piece: all before a stop string that the piece
    /// completes; else all that cannot begin one.
    pub open spec fn content_on(self, piece: Seq<char>) -> Seq<char> {
        let pending = self.held + piece;
        if piece_stops(self.stop, piece) {
            visible(self.stop.sequences, pending)
        } else {
            pending.take(unheld(self.stop.sequences, pending, 0))
        }
    }

    /// The text to hold back on a piece.
    pub open spec fn held_on(self, piece: Seq<char>) -> Seq<char> {
        let pending = self.held + piece;
        if piece_stops(self.stop, piece) {
            Seq::empty()
        } else {
            pending.skip(unheld(self.stop.sequences, pending, 0))
        }
    }

    /// The last text to send when generation ends with that rest of the text.
    pub open spec fn content_at_end(self, tail: Seq<char>) -> Seq<char> {
        visible(self.stop.sequences, self.held + tail)
    }

    /// Whether `after` is the same response with `content` sent and `held`
    /// held back.
    pub open spec fn sending(
        self,
        content: Seq<char>,
        held: Seq<char>,
        after: StreamModel,
    ) -> bool {
        &&& after.sent == self.sent + content
        &&& after.held == held
        &&& after.id == self.id
        &&& after.created == self.created
        &&& after.model == self.model
    }

    /// Whether `after` is what a stream is after a piece of text, but for its
    /// decoder.
    pub open spec fn streams(self, piece: Seq<char>, after: StreamModel) -> bool {
        &&& self.sending(self.content_on(piece), self.held_on(piece), after)
        &&& after.tokens == next_count(self.tokens)
        &&& matched(self.stop, piece, after.stop)
        &&& after.finish == if piece_stops(self.stop, piece) {
            FinishReason::Stop
        } else {
            self.finish
        }
    }

    /// Whether a chunk of this response carries `content`, or there is none
    /// because there is nothing to send.
    pub open spec fn sends(self, c: Option<ChatCompletionChunk>, content: Seq<char>) -> bool {
        match c {
            Some(c) => {
                &&& content.len() > 0
                &&& chunk_frame(c, self.id, self.created, self.model)
                &&& carries(c, content)
            },
            None => content.len() == 0,
        }
    }
}

impl ChatStream {
    pub open spec fn wf(&self) -> bool {
        self@.wf()
    }

    pub fn new(id: String, created: u64, model: String, stop: StopSequenceMatcher) -> (r: Self)
        requires
            stop@.wf(),
        ensures
            r.wf(),
            r@.id == id@,
            r@.created == created,
            r@.model == model@,
            r@.stop == stop@,
            r@.tokens == 0,
            r@.finish == FinishReason::Length,
            r@.decoder == DecoderModel::fresh(true),
            r@.sent == Seq::<char>::empty(),
            r@.held == Seq::<char>::empty(),
    {
        ChatStream {
            id,
            created,
            model,
            decoder: IncrementalDecoder::new(true),
            stop,
            held: String::new(),
            sent: Ghost(Seq::empty()),
            completion_tokens: 0,
            finish: FinishReason::Length,
        }
    }

    /// The first chunk: the role and no content.
    pub fn opening(&self) -> (r: ChatCompletionChunk)
        ensures
            chunk_frame(r, self@.id, self@.created, self@.model),
            r.choices@[0].delta.role matches Some(role) && role@ == "assistant"@,
            r.choices@[0].delta.content is None,
            r.choices@[0].finish_reason is None,
            r.usage is None,
    {
        chunk(
            self.id.as_str(),
            self.created,
            self.model.as_str(),
            ChatDelta { role: Some(owned("assistant")), content: None },
            None,
            None,
        )
    }

    /// A chunk with that piece of text, unless it is empty.
    fn piece_chunk(&self, content: &str) -> (r: Option<ChatCompletionChunk>)
        ensures
            self@.sends(r, content@),
    {
        if content.is_empty() {
            None
        } else {
            Some(content_chunk(self.id.as_str(), self.created, self.model.as_str(), content))
        }
    }

    /// Takes in the text of one token: the chunk to send, and whether a stop
    /// string ends the stream.
    ///
    /// The end of the text that may begin a stop string is held back, so the
    /// matched text is not sent however it was cut into pieces. Where nothing
    /// is left to send there is no chunk.
    pub fn accept_piece(&mut self, piece: &str) -> (r: (Option<ChatCompletionChunk>, Progress))
        requires
            old(self).wf(),
        ensures
            final(self).wf(),
            final(self)@.decoder == old(self)@.decoder,
            old(self)@.streams(piece@, final(self)@),
            old(self)@.sends(r.0, old(self)@.content_on(piece@)),
            r.1 == progress_on(old(self)@.stop, piece@),
    {
        let ghost before = self@;
        self.completion_tokens = self.completion_tokens.saturating_add(1);
        let found: bool = self.stop.push(piece).is_some();
        proof {
            lemma_first_found(before.stop, piece@);
        }
        let mut pending: String = self.held.clone();
        pending.append(piece);
        if found {
            let shown = self.stop.truncate_at_stop(pending.as_str());
            let c = self.piece_chunk(shown);
            self.held = String::new();
            proof {
                self.sent@ = before.sent + shown@;
            }
            self.finish = FinishReason::Stop;
            (c, Progress::Complete)
        } else {
            let n: usize = self.stop.sendable(pending.as_str());
            let len: usize = pending.as_str().unicode_len();
            let shown = pending.as_str().substring_char(0, n);
            let rest = pending.as_str().substring_char(n, len);
            let c = self.piece_chunk(shown);
            proof {
                assert(shown@ =~= pending@.take(n as int));
                assert(rest@ =~= pending@.skip(n as int));
                self.sent@ = before.sent + shown@;
            }
            self.held = rest.to_owned();
            (c, Progress::More)
        }
    }

    /// Sends what was held back, where no more text follows.
    pub fn flush(&mut self) -> (r: Option<ChatCompletionChunk>)
        requires
            old(self).wf(),
        ensures
            final(self)@ == (StreamModel {
                sent: old(self)@.sent + old(self)@.held,
                held: Seq::empty(),
                ..old(self)@
            }),
            old(self)@.sends(r, old(self)@.held),
    {
        let ghost before = self@;
        let c = self.piece_chunk(self.held.as_str());
        proof {
            self.sent@ = before.sent + before.held;
        }
        self.held = String::new();
        c
    }

    /// Takes in one event: the chunk to send, if any, and whether the stream
    /// of chunks is complete but for its closing.
    ///
    /// A failed decode ends the stream with the text taken in before.
    pub fn on_event(&mut self, tokenizer: &Tokenizer, event: StreamEvent) -> (r: (
        Option<ChatCompletionChunk>,
        Progress,
    ))
        requires
            old(self).wf(),
        ensures
            final(self).wf(),
            match event {
                StreamEvent::Token { token, .. } => match piece_of(
                    old(self)@.decoder,
                    *tokenizer,
                    token,
                ) {
                    Some(Ok(piece)) => {
                        &&& old(self)@.streams(piece, final(self)@)
                        &&& final(self)@.decoder == decoder_after(
                            old(self)@.decoder,
                            *tokenizer,
                            token,
                        )
                        &&& old(self)@.sends(r.0, old(self)@.content_on(piece))
                        &&& r.1 == progress_on(old(self)@.stop, piece)
                    },
                    _ => {
                        &&& r.1 == Progress::Complete
                        &&& old(self)@.sending(old(self)@.held, Seq::empty(), final(self)@)
                        &&& old(self)@.sends(r.0, old(self)@.held)
                        &&& final(self)@.tokens == old(self)@.tokens
                        &&& final(self)@.finish == old(self)@.finish
                    },
                },
                StreamEvent::Done { reason, completion_tokens, .. } => {
                    let content = match tail_of(old(self)@.decoder, *tokenizer) {
                        Ok(tail) => old(self)@.content_at_end(tail),
                        Err(_) => old(self)@.held,
                    };
                    &&& r.1 == Progress::Complete
                    &&& old(self)@.sending(content, Seq::empty(), final(self)@)
                    &&& old(self)@.sends(r.0, content)
                    &&& final(self)@.tokens == larger(completion_tokens, old(self)@.tokens)
                    &&& final(self)@.finish == reason
                },
                StreamEvent::Error { code, .. } => {
                    &&& r.1 == Progress::Complete
                    &&& old(self)@.sending(old(self)@.held, Seq::empty(), final(self)@)
                    &&& old(self)@.sends(r.0, old(self)@.held)
                    &&& final(self)@.tokens == old(self)@.tokens
                    &&& final(self)@.finish matches FinishReason::Error(m) && m@ == code@
                },
            },
    {
        match event {
            StreamEvent::Token { token, .. } => {
                match next_piece(&mut self.decoder, tokenizer, token) {
                    Ok(piece) => self.accept_piece(piece.as_str()),
                    Err(_) => {
                        let c = self.flush();
                        (c, Progress::Complete)
                    },
                }
            },
            StreamEvent::Done { reason, completion_tokens, .. } => {
                let ghost before = self@;
                // Flush anything the decoder was holding back.
                let c: Option<ChatCompletionChunk> = match last_piece(
                    &mut self.decoder,
                    tokenizer,
                ) {
                    Ok(tail) => {
                        let mut pending: String = self.held.clone();
                        pending.append(tail.as_str());
                        let shown = self.stop.truncate_at_stop(pending.as_str());
                        let c = self.piece_chunk(shown);
                        self.held = String::new();
                        proof {
                            self.sent@ = before.sent + shown@;
                        }
                        c
                    },
                    Err(_) => self.flush(),
                };
                if completion_tokens > self.completion_tokens {
                    self.completion_tokens = completion_tokens;
                }
                self.finish = reason;
                (c, Progress::Complete)
            },
            StreamEvent::Error { code, .. } => {
                let c = self.flush();
                self.finish = FinishReason::Error(owned(code));
                (c, Progress::Complete)
            },
        }
    }

    /// Tokens counted so far.
    pub fn completion_tokens(&self) -> (r: usize)
        ensures
            r == self@.tokens,
    {
        self.completion_tokens
    }

    /// The last chunk: the finish reason and the usage.
    pub fn closing(&self, prompt_tokens: usize) -> (r: ChatCompletionChunk)
        requires
            prompt_tokens + self@.tokens <= usize::MAX,
        ensures
            chunk_frame(r, self@.id, self@.created, self@.model),
            r.choices@[0].delta.role is None,
            r.choices@[0].delta.content is None,
            r.choices@[0].finish_reason matches Some(f) && f@ == self@.finish.api_label(),
            r.usage matches Some(u) && u.prompt_tokens == prompt_tokens && u.completion_tokens
                == self@.tokens && u.total_tokens == prompt_tokens + self@.tokens,
    {
        chunk(
            self.id.as_str(),
            self.created,
            self.model.as_str(),
            ChatDelta { role: None, content: None },
            Some(finish_reason_str(&self.finish)),
            Some(Usage::new(prompt_tokens, self.completion_tokens)),
        )
    }
}
// ----- what the content of a response is ------------------------------------------

/// A fresh stream is in order.
pub proof fn law_a_fresh_stream_is_in_order(m: StreamModel)
    requires
        m.wf(),
        stops_have_text(m.stop.sequences),
        m.stop.buffer == Seq::<char>::empty(),
        m.sent == Seq::<char>::empty(),
        m.held == Seq::<char>::empty(),
    ensures
        m.in_order(),
        m.taken() == Seq::<char>::empty(),
{
    assert(m.taken() =~= Seq::<char>::empty());
    assert forall|k: int| 0 <= k < m.stop.sequences.len() implies !occurs(
        m.taken(),
        #[trigger] m.stop.sequences[k],
    ) by {
        if occurs(m.taken(), m.stop.sequences[k]) {
            let at = choose|at: int| occurs_at(m.taken(), m.stop.sequences[k], at);
            assert(m.stop.sequences[k].len() > 0);
        }
    }
    assert(m.stop.buffer == m.taken().skip(0));
}

/// A piece of text completes a stop string in the matcher's eyes exactly if
/// one is in all the text.
proof fn lemma_piece_stops(m: StreamModel, piece: Seq<char>)
    requires
        m.in_order(),
    ensures
        piece_stops(m.stop, piece) == !none_found(m.stop.sequences, m.taken() + piece),
{
    let all = m.taken() + piece;
    if piece.len() == 0 {
        assert(all =~= m.taken());
    }
    if piece_stops(m.stop, piece) {
        let part = m.stop.buffer + piece;
        let k = choose|k: int|
            0 <= k < m.stop.sequences.len() && occurs(part, #[trigger] m.stop.sequences[k]);
        let at = choose|at: int| occurs_at(part, m.stop.sequences[k], at);
        let n = choose|n: int|
            {
                &&& 0 <= n <= m.taken().len()
                &&& m.stop.buffer == #[trigger] m.taken().skip(n)
                &&& n == 0 || byte_len(m.stop.buffer) >= m.stop.max_len
            };
        let len = m.stop.sequences[k].len();
        assert(all.subrange(n + at, n + at + len) =~= part.subrange(at, at + len));
        assert(occurs_at(all, m.stop.sequences[k], n + at));
        assert(occurs(all, m.stop.sequences[k]));
    } else if !none_found(m.stop.sequences, all) {
        let k = choose|k: int|
            0 <= k < m.stop.sequences.len() && occurs(all, #[trigger] m.stop.sequences[k]);
        let at = choose|at: int| occurs_at(all, m.stop.sequences[k], at);
        let len = m.stop.sequences[k].len();
        if at + len <= m.taken().len() {
            assert(m.taken().subrange(at, at + len) =~= all.subrange(at, at + len));
            assert(occurs_at(m.taken(), m.stop.sequences[k], at));
            assert(occurs(m.taken(), m.stop.sequences[k]));
        } else {
            law_stop_strings_are_found_across_pushes(m.taken(), m.stop, piece, k, at);
        }
    }
}

/// A stream ends by a stop string exactly if one is in all the text taken in.
/// What was sent then is what is shown of that text. Else all text is sent or
/// held back, and what was sent stands.
pub proof fn law_a_piece_keeps_a_stream_in_order(
    m: StreamModel,
    piece: Seq<char>,
    after: StreamModel,
)
    requires
        m.in_order(),
        m.streams(piece, after),
        after.wf(),
    ensures
        piece_stops(m.stop, piece) == !none_found(m.stop.sequences, m.taken() + piece),
        if piece_stops(m.stop, piece) {
            after.sent == visible(m.stop.sequences, m.taken() + piece)
        } else {
            after.in_order() && after.taken() == m.taken() + piece
        },
{
    let all = m.taken() + piece;
    let pending = m.held + piece;
    lemma_piece_stops(m, piece);
    law_sent_text_stands(m.stop.sequences, m.sent, m.held, piece);
    if !piece_stops(m.stop, piece) {
        law_holding_back_keeps_sent_text_final(m.stop.sequences, m.sent, m.held, piece);
        lemma_unheld(m.stop.sequences, pending, 0);
        let n = unheld(m.stop.sequences, pending, 0);
        assert(pending.take(n) + pending.skip(n) =~= pending);
        assert(after.taken() =~= all);
        if m.stop.sequences.len() > 0 {
            if piece.len() == 0 {
                assert(all =~= m.taken());
            } else {
                law_enough_text_is_retained(
                    m.taken(),
                    m.stop.buffer,
                    piece,
                    m.stop.max_len,
                    after.stop.buffer,
                );
            }
        }
    }
}

/// What a stream in order has sent is a beginning of what is shown of its text,
/// whatever text follows; and with the last of the text, it is all of that.
pub proof fn law_sent_text_is_shown_text(m: StreamModel, more: Seq<char>)
    requires
        m.in_order(),
    ensures
        m.sent + m.content_at_end(more) == visible(m.stop.sequences, m.taken() + more),
        m.sent.len() <= visible(m.stop.sequences, m.taken() + more).len(),
        m.sent == visible(m.stop.sequences, m.taken() + more).take(m.sent.len() as int),
{
    law_sent_text_stands(m.stop.sequences, m.sent, m.held, more);
    assert((m.sent + m.content_at_end(more)).take(m.sent.len() as int) =~= m.sent);
}

/// Whether the two are alike: one response collected and one streamed, from
/// the same events.
pub open spec fn alike(c: CollectorModel, s: StreamModel) -> bool {
    &&& c.decoder == s.decoder
    &&& c.stop == s.stop
    &&& c.text == s.taken()
    &&& c.tokens == s.tokens
    &&& c.finish == s.finish
}

/// Streaming and collecting agree: on a piece of text, a collected and a
/// streamed response stay alike, or both end there for the same reason and
/// what was sent is the text that is shown of the collected one.
pub proof fn law_streaming_and_collecting_agree(
    c: CollectorModel,
    s: StreamModel,
    piece: Seq<char>,
    c_after: CollectorModel,
    s_after: StreamModel,
)
    requires
        alike(c, s),
        s.in_order(),
        c.collects(piece, c_after),
        s.streams(piece, s_after),
        s_after.wf(),
        c_after.decoder == s_after.decoder,
    ensures
        c_after.finish == s_after.finish,
        c_after.tokens == s_after.tokens,
        if piece_stops(s.stop, piece) {
            s_after.sent == c_after.shown()
        } else {
            alike(c_after, s_after) && s_after.in_order()
        },
{
    law_a_piece_keeps_a_stream_in_order(s, piece, s_after);
    if s.stop.sequences.len() > 0 && piece.len() > 0 {
        lemma_retained_is_one(
            s.stop.buffer + piece,
            s.stop.max_len,
            c_after.stop.buffer,
            s_after.stop.buffer,
        );
    }
}

/// Streaming and collecting agree at the end of generation too: with the rest
/// of the text, what was sent is the text that is shown of the collected one.
pub proof fn law_both_responses_end_alike(c: CollectorModel, s: StreamModel, tail: Seq<char>)
    requires
        alike(c, s),
        s.in_order(),
    ensures
        s.sent + s.content_at_end(tail) == (CollectorModel { text: c.text + tail, ..c }).shown(),
{
    law_sent_text_is_shown_text(s, tail);
}

/// Whether the stages are those of a stream that takes in the tokens one after
/// the other, each of which yields a piece of text and none of which but the
/// last may complete a stop string.
pub open spec fn takes_in(
    stages: Seq<StreamModel>,
    tokenizer: Tokenizer,
    tokens: Seq<TokenId>,
) -> bool {
    &&& stages.len() == tokens.len() + 1
    &&& stages[0].decoder == DecoderModel::fresh(true)
    &&& stages[0].in_order()
    &&& stages[0].sent.len() == 0
    &&& stages[0].held.len() == 0
    &&& forall|i: int|
        #![trigger stages[i]]
        0 <= i < tokens.len() ==> {
            let m = stages[i];
            &&& piece_of(m.decoder, tokenizer, tokens[i]) matches Some(Ok(piece))
            &&& m.streams(piece, stages[i + 1])
            &&& stages[i + 1].wf()
            &&& stages[i + 1].decoder == decoder_after(m.decoder, tokenizer, tokens[i])
            &&& i < tokens.len() - 1 ==> !piece_stops(m.stop, piece)
        }
}

proof fn lemma_takes_in(
    stages: Seq<StreamModel>,
    tokenizer: Tokenizer,
    tokens: Seq<TokenId>,
    n: int,
)
    requires
        takes_in(stages, tokenizer, tokens),
        grows_settled(tokenizer.hf(), true),
        text_of(tokenizer.hf(), Seq::<TokenId>::empty(), true) == Ok::<Seq<char>, Seq<char>>(
            Seq::empty(),
        ),
        0 <= n < stages.len(),
        n < tokens.len() || n == 0 || !piece_stops(
            stages[n - 1].stop,
            piece_of(stages[n - 1].decoder, tokenizer, tokens[n - 1])->0->Ok_0,
        ),
    ensures
        stages[n].in_order(),
        stages[n].decoder.skip,
        stages[n].decoder.tokens == tokens.take(n),
        stages[n].stop.sequences == stages[0].stop.sequences,
        stages[n].taken() == stages[n].decoder.emitted,
        in_step(stages[n].decoder, tokenizer.hf()),
    decreases n,
{
    if n == 0 {
        law_a_fresh_decoder_is_in_step(stages[0].decoder, tokenizer.hf());
        assert(stages[0].taken() =~= Seq::<char>::empty());
        assert(tokens.take(0) =~= Seq::<TokenId>::empty());
    } else {
        let m = stages[n - 1];
        let token = tokens[n - 1];
        assert(stages[n - 1 + 1] == stages[n]);
        if n - 1 > 0 {
            assert(stages[n - 2 + 1] == stages[n - 1]);
            assert(stages[n - 2] == stages[n - 2]);
        }
        lemma_takes_in(stages, tokenizer, tokens, n - 1);
        let piece = piece_of(m.decoder, tokenizer, token)->0->Ok_0;
        law_a_piece_keeps_a_stream_in_order(m, piece, stages[n]);
        law_streaming_stays_in_step(m.decoder, tokenizer.hf(), token);
        assert(tokens.take(n) =~= tokens.take(n - 1).push(token));
    }
}

/// A streamed response is the shown part of the whole text: for a tokenizer
/// whose text grows in a settled way, whatever the tokens and the stop strings,
/// a stream that a stop string ends has sent what is shown of all the text
/// emitted, and one that generation ends has sent, with its last chunk, what is
/// shown of the text of all tokens.
pub proof fn law_a_stream_sends_the_shown_text(
    stages: Seq<StreamModel>,
    tokenizer: Tokenizer,
    tokens: Seq<TokenId>,
)
    requires
        takes_in(stages, tokenizer, tokens),
        grows_settled(tokenizer.hf(), true),
        text_of(tokenizer.hf(), Seq::<TokenId>::empty(), true) == Ok::<Seq<char>, Seq<char>>(
            Seq::empty(),
        ),
    ensures
        ({
            let n = tokens.len() as int;
            let last = stages[n];
            let full = text_of(tokenizer.hf(), tokens, true)->Ok_0;
            if n > 0 && piece_stops(
                stages[n - 1].stop,
                piece_of(stages[n - 1].decoder, tokenizer, tokens[n - 1])->0->Ok_0,
            ) {
                last.sent == visible(stages[0].stop.sequences, last.decoder.emitted)
            } else {
                last.sent + last.content_at_end(last.decoder.rest_of(full)) == visible(
                    stages[0].stop.sequences,
                    full,
                )
            }
        }),
{
    let n = tokens.len() as int;
    let last = stages[n];
    if n > 0 && piece_stops(
        stages[n - 1].stop,
        piece_of(stages[n - 1].decoder, tokenizer, tokens[n - 1])->0->Ok_0,
    ) {
        let m = stages[n - 1];
        lemma_takes_in(stages, tokenizer, tokens, n - 1);
        let piece = piece_of(m.decoder, tokenizer, tokens[n - 1])->0->Ok_0;
        assert(stages[n - 1 + 1] == last);
        law_a_piece_keeps_a_stream_in_order(m, piece, last);
        law_streaming_stays_in_step(m.decoder, tokenizer.hf(), tokens[n - 1]);
        assert(last.decoder.emitted == m.decoder.emitted + piece);
    } else {
        lemma_takes_in(stages, tokenizer, tokens, n);
        assert(tokens.take(n) =~= tokens);
        law_streaming_reproduces_the_whole_text(last.decoder, tokenizer.hf());
        law_sent_text_is_shown_text(
            last,
            last.decoder.rest_of(text_of(tokenizer.hf(), tokens, true)->Ok_0),
        );
    }
}

/// Whether the stages are those of a collector that takes in the tokens one
/// after the other, each of which yields a piece of text.
pub open spec fn gathers(
    stages: Seq<CollectorModel>,
    tokenizer: Tokenizer,
    tokens: Seq<TokenId>,
) -> bool {
    &&& stages.len() == tokens.len() + 1
    &&& stages[0].decoder == DecoderModel::fresh(true)
    &&& stages[0].text.len() == 0
    &&& forall|i: int|
        #![trigger stages[i]]
        0 <= i < tokens.len() ==> {
            let m = stages[i];
            &&& piece_of(m.decoder, tokenizer, tokens[i]) matches Some(Ok(piece))
            &&& m.collects(piece, stages[i + 1])
            &&& stages[i + 1].decoder == decoder_after(m.decoder, tokenizer, tokens[i])
        }
}

proof fn lemma_gathers(
    stages: Seq<CollectorModel>,
    tokenizer: Tokenizer,
    tokens: Seq<TokenId>,
    n: int,
)
    requires
        gathers(stages, tokenizer, tokens),
        grows_settled(tokenizer.hf(), true),
        text_of(tokenizer.hf(), Seq::<TokenId>::empty(), true) == Ok::<Seq<char>, Seq<char>>(
            Seq::empty(),
        ),
        0 <= n < stages.len(),
    ensures
        stages[n].text == stages[n].decoder.emitted,
        stages[n].decoder.skip,
        stages[n].decoder.tokens == tokens.take(n),
        stages[n].stop.sequences == stages[0].stop.sequences,
        in_step(stages[n].decoder, tokenizer.hf()),
    decreases n,
{
    if n == 0 {
        law_a_fresh_decoder_is_in_step(stages[0].decoder, tokenizer.hf());
        assert(stages[0].text =~= Seq::<char>::empty());
        assert(tokens.take(0) =~= Seq::<TokenId>::empty());
    } else {
        let m = stages[n - 1];
        assert(stages[n - 1 + 1] == stages[n]);
        lemma_gathers(stages, tokenizer, tokens, n - 1);
        law_streaming_stays_in_step(m.decoder, tokenizer.hf(), tokens[n - 1]);
        assert(tokens.take(n) =~= tokens.take(n - 1).push(tokens[n - 1]));
    }
}

/// A collected response is the shown part of the whole text: for a tokenizer
/// whose text grows in a settled way, it holds all the text emitted, and once
/// generation ended it shows what is shown of the text of all tokens.
pub proof fn law_a_collector_holds_the_whole_text(
    stages: Seq<CollectorModel>,
    tokenizer: Tokenizer,
    tokens: Seq<TokenId>,
)
    requires
        gathers(stages, tokenizer, tokens),
        grows_settled(tokenizer.hf(), true),
        text_of(tokenizer.hf(), Seq::<TokenId>::empty(), true) == Ok::<Seq<char>, Seq<char>>(
            Seq::empty(),
        ),
    ensures
        ({
            let last = stages[tokens.len() as int];
            let full = text_of(tokenizer.hf(), tokens, true)->Ok_0;
            &&& last.text == last.decoder.emitted
            &&& last.shown() == visible(stages[0].stop.sequences, last.decoder.emitted)
            &&& (CollectorModel {
                text: last.text + last.decoder.rest_of(full),
                ..last
            }).shown() == visible(stages[0].stop.sequences, full)
        }),
{
    let n = tokens.len() as int;
    lemma_gathers(stages, tokenizer, tokens, n);
    assert(tokens.take(n) =~= tokens);
    law_streaming_reproduces_the_whole_text(stages[n].decoder, tokenizer.hf());
}

} // verus!
