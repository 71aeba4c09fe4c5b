//! OpenAI-compatible request and response types.
//!
//! Field names and shapes match the OpenAI API so existing clients work
//! unchanged.

use crate::error::EngineError;
use crate::float::{Float32, WrittenFloat};
use crate::sampling_params::SamplingParams;
use crate::sequence::FinishReason;
use crate::text::{decimal, join3, owned, push_count};
use vstd::prelude::*;
use vstd::string::*;

verus! {

/// One message in a chat conversation.
#[derive(Debug, Clone)]
pub struct ChatMessage {
    pub role: String,
    /// `None` is legal for assistant tool calls.
    pub content: Option<String>,
}

/// `stop` is a text or a list of texts.
#[derive(Debug, Clone)]
pub enum StopField {
    Single(String),
    Multiple(Vec<String>),
}

impl StopField {
    /// The stop strings.
    pub open spec fn items(&self) -> Seq<String> {
        match self {
            StopField::Single(s) => seq![*s],
            StopField::Multiple(v) => v@,
        }
    }

    pub fn into_vec(self) -> (r: Vec<String>)
        ensures
            r@ == self.items(),
    {
        match self {
            StopField::Single(s) => {
                let mut v: Vec<String> = Vec::new();
                v.push(s);
                proof {
                    assert(v@ =~= seq![s]);
                }
                v
            },
            StopField::Multiple(v) => v,
        }
    }
}

/// `prompt` is a text or a list of texts.
#[derive(Debug, Clone)]
pub enum PromptField {
    Single(String),
    Multiple(Vec<String>),
}

impl PromptField {
    /// The single prompt this request carries.
    ///
    /// Batched prompts are rejected rather than silently truncated.
    pub fn single(&self) -> (r: Result<&str, EngineError>)
        ensures
            match *self {
                PromptField::Single(s) => r matches Ok(t) && t@ == s@,
                PromptField::Multiple(v) => if v@.len() == 1 {
                    r matches Ok(t) && t@ == v@[0]@
                } else {
                    r matches Err(e) && e.is_invalid_request(
                        "batched prompts are not supported: got "@ + decimal(v@.len())
                            + " prompts, expected 1"@,
                    )
                },
            },
    {
        match self {
            PromptField::Single(s) => Ok(s.as_str()),
            PromptField::Multiple(v) => {
                if v.len() == 1 {
                    Ok(v[0].as_str())
                } else {
                    let mut m = owned("batched prompts are not supported: got ");
                    push_count(&mut m, v.len());
                    m.append(" prompts, expected 1");
                    Err(EngineError::InvalidRequest(m))
                }
            },
        }
    }
}

/// The number given, or the default, which is written `1`.
pub open spec fn or_one(given: Option<WrittenFloat>, used: WrittenFloat) -> bool {
    match given {
        Some(f) => used == f,
        None => used.value == Float32::spec_one() && used.text@ == "1"@,
    }
}

fn float_or_one(given: Option<WrittenFloat>) -> (r: WrittenFloat)
    ensures
        or_one(given, r),
{
    match given {
        Some(f) => f,
        None => WrittenFloat { value: Float32::one(), text: owned("1") },
    }
}

/// Whether `params` are what the given fields amount to: each field as given,
/// or its default.
///
/// `presence` is the repetition penalty that a presence penalty stands for; it
/// counts only where no repetition penalty is given.
pub open spec fn params_from(
    params: SamplingParams,
    temperature: Option<WrittenFloat>,
    top_p: Option<WrittenFloat>,
    top_k: Option<usize>,
    max_tokens: Option<usize>,
    min_tokens: Option<usize>,
    repetition_penalty: Option<WrittenFloat>,
    presence: Option<WrittenFloat>,
    seed: Option<u64>,
    stop: Option<StopField>,
    default_max_tokens: usize,
) -> bool {
    &&& or_one(temperature, params.temperature)
    &&& or_one(top_p, params.top_p)
    &&& params.top_k == if top_k is Some {
        top_k->0
    } else {
        0
    }
    &&& or_one(
        if repetition_penalty is Some {
            repetition_penalty
        } else {
            presence
        },
        params.repetition_penalty,
    )
    &&& params.max_tokens == if max_tokens is Some {
        max_tokens->0
    } else {
        default_max_tokens
    }
    &&& params.min_tokens == if min_tokens is Some {
        min_tokens->0
    } else {
        0
    }
    &&& params.seed == seed
    &&& params.stop_token_ids@.len() == 0
    &&& params.stop_sequences@ == if stop is Some {
        stop->0.items()
    } else {
        Seq::empty()
    }
    &&& params.logprobs is None
    &&& !params.echo
}

/// Builds engine sampling parameters from the OpenAI-shaped fields.
///
/// Applies the engine's own defaults for anything unset, then validates. The
/// error names the offending field.
pub fn build_params(
    temperature: Option<WrittenFloat>,
    top_p: Option<WrittenFloat>,
    top_k: Option<usize>,
    max_tokens: Option<usize>,
    min_tokens: Option<usize>,
    repetition_penalty: Option<WrittenFloat>,
    presence: Option<WrittenFloat>,
    seed: Option<u64>,
    stop: Option<StopField>,
    default_max_tokens: usize,
) -> (r: Result<SamplingParams, EngineError>)
    ensures
        match r {
            Ok(params) => {
                &&& params_from(
                    params,
                    temperature,
                    top_p,
                    top_k,
                    max_tokens,
                    min_tokens,
                    repetition_penalty,
                    presence,
                    seed,
                    stop,
                    default_max_tokens,
                )
                &&& params.complaint() is None
            },
            Err(e) => exists|params: SamplingParams|
                {
                    &&& #[trigger] params_from(
                        params,
                        temperature,
                        top_p,
                        top_k,
                        max_tokens,
                        min_tokens,
                        repetition_penalty,
                        presence,
                        seed,
                        stop,
                        default_max_tokens,
                    )
                    &&& params.complaint() is Some
                    &&& e.is_invalid_request(params.complaint()->0)
                },
        },
        r matches Ok(params) ==> {
            &&& temperature matches Some(f) ==> params.temperature == f
            &&& temperature is None ==> params.temperature.value.bits == 0x3f80_0000 && params.temperature.text@ == "1"@
            &&& top_p matches Some(f) ==> params.top_p == f
            &&& top_p is None ==> params.top_p.value.bits == 0x3f80_0000 && params.top_p.text@ == "1"@
            &&& top_k matches Some(k) ==> params.top_k == k
            &&& top_k is None ==> params.top_k == 0
            &&& repetition_penalty matches Some(f) ==> params.repetition_penalty == f
            &&& repetition_penalty is None ==> (presence matches Some(f) ==> params.repetition_penalty == f)
            &&& repetition_penalty is None && presence is None ==> params.repetition_penalty.value.bits == 0x3f80_0000 && params.repetition_penalty.text@ == "1"@
            &&& max_tokens matches Some(n) ==> params.max_tokens == n
            &&& max_tokens is None ==> params.max_tokens == default_max_tokens
            &&& min_tokens matches Some(n) ==> params.min_tokens == n
            &&& min_tokens is None ==> params.min_tokens == 0
            &&& params.seed == seed
            &&& stop is None ==> params.stop_sequences@.len() == 0
            &&& stop matches Some(StopField::Single(text)) ==> params.stop_sequences@ == seq![text]
            &&& stop matches Some(StopField::Multiple(texts)) ==> params.stop_sequences@ == texts@
            &&& params.stop_token_ids@.len() == 0
            &&& params.logprobs is None
            &&& !params.echo
        },
{
    let penalty: Option<WrittenFloat> = if repetition_penalty.is_some() {
        repetition_penalty
    } else {
        presence
    };
    let stop_sequences: Vec<String> = match stop {
        Some(s) => s.into_vec(),
        None => Vec::new(),
    };
    let params = SamplingParams {
        temperature: float_or_one(temperature),
        top_p: float_or_one(top_p),
        top_k: match top_k {
            Some(k) => k,
            None => 0,
        },
        repetition_penalty: float_or_one(penalty),
        max_tokens: match max_tokens {
            Some(n) => n,
            None => default_max_tokens,
        },
        min_tokens: match min_tokens {
            Some(n) => n,
            None => 0,
        },
        seed,
        stop_token_ids: Vec::new(),
        stop_sequences,
        logprobs: None,
        echo: false,
    };
    proof {
        assert(params.stop_sequences@ =~= if stop is Some {
            stop->0.items()
        } else {
            Seq::empty()
        });
        assert(params_from(
            params,
            temperature,
            top_p,
            top_k,
            max_tokens,
            min_tokens,
            repetition_penalty,
            presence,
            seed,
            stop,
            default_max_tokens,
        ));
    }
    match params.validate() {
        Ok(()) => Ok(params),
        Err(e) => Err(e),
    }
}

/// Token accounting returned with every completion.
#[derive(Debug, Clone, Copy, PartialEq, Eq, Structural)]
pub struct Usage {
    pub prompt_tokens: usize,
    pub completion_tokens: usize,
    pub total_tokens: usize,
}

impl Usage {
    pub fn new(prompt_tokens: usize, completion_tokens: usize) -> (r: Self)
        requires
            prompt_tokens + completion_tokens <= usize::MAX,
        ensures
            r.prompt_tokens == prompt_tokens,
            r.completion_tokens == completion_tokens,
            r.total_tokens == prompt_tokens + completion_tokens,
    {
        Usage {
            prompt_tokens,
            completion_tokens,
            total_tokens: prompt_tokens + completion_tokens,
        }
    }
}

/// One choice in a non-streaming chat response.
#[derive(Debug, Clone)]
pub struct ChatChoice {
    pub index: usize,
    pub message: ChatMessage,
    pub finish_reason: String,
}

/// The response to a chat completion request.
#[derive(Debug, Clone)]
pub struct ChatCompletionResponse {
    pub id: String,
    pub object: &'static str,
    pub created: u64,
    pub model: String,
    pub choices: Vec<ChatChoice>,
    pub usage: Usage,
}

/// One choice in a streaming chunk.
#[derive(Debug, Clone)]
pub struct ChatChunkChoice {
    pub index: usize,
    pub delta: ChatDelta,
    pub finish_reason: Option<String>,
}

/// The incremental part of a streaming chunk.
#[derive(Debug, Clone)]
pub struct ChatDelta {
    pub role: Option<String>,
    pub content: Option<String>,
}

/// One `data:` frame of a streaming chat response.
#[derive(Debug, Clone)]
pub struct ChatCompletionChunk {
    pub id: String,
    pub object: &'static str,
    pub created: u64,
    pub model: String,
    pub choices: Vec<ChatChunkChoice>,
    pub usage: Option<Usage>,
}

/// One choice in a text completion response.
#[derive(Debug, Clone)]
pub struct CompletionChoice {
    pub index: usize,
    pub text: String,
    pub finish_reason: String,
}

/// The response to a text completion request.
#[derive(Debug, Clone)]
pub struct CompletionResponse {
    pub id: String,
    pub object: &'static str,
    pub created: u64,
    pub model: String,
    pub choices: Vec<CompletionChoice>,
    pub usage: Usage,
}

/// An error body, in OpenAI's envelope shape.
#[derive(Debug, Clone)]
pub struct ErrorResponse {
    pub error: ErrorDetail,
}

/// What an error body says. `kind` is the field `type` on the wire.
#[derive(Debug, Clone)]
pub struct ErrorDetail {
    pub message: String,
    pub kind: String,
    pub code: String,
    pub param: Option<String>,
}

impl ErrorResponse {
    /// The message a client sees: internal errors are opaque.
    pub open spec fn client_message(e: EngineError) -> Seq<char> {
        if e is Internal {
            "internal server error"@
        } else {
            e.text()
        }
    }

    /// The class of an error, as clients know it.
    pub open spec fn client_kind(e: EngineError) -> Seq<char> {
        if e is InvalidRequest || e is ContextLengthExceeded || e is Cancelled {
            "invalid_request_error"@
        } else if e is QueueFull || e is CacheExhausted {
            "server_overloaded"@
        } else {
            "server_error"@
        }
    }

    /// Builds a client-facing error from an engine error.
    ///
    /// Internal errors are deliberately opaque: their message names block ids,
    /// sequence ids and invariants, none of which a client should see.
    pub fn from_engine(e: &EngineError) -> (r: Self)
        ensures
            r.error.message@ == Self::client_message(*e),
            r.error.kind@ == Self::client_kind(*e),
            r.error.code@ == e.code_text(),
            r.error.param is None,
    {
        let message: String = match e {
            EngineError::Internal(_) => owned("internal server error"),
            _ => e.message(),
        };
        let kind: &str = if e.is_client_error() {
            "invalid_request_error"
        } else if e.is_retryable() {
            "server_overloaded"
        } else {
            "server_error"
        };
        ErrorResponse {
            error: ErrorDetail {
                message,
                kind: owned(kind),
                code: owned(e.code()),
                param: None,
            },
        }
    }
}

/// Entry in the list of models.
#[derive(Debug, Clone)]
pub struct ModelCard {
    pub id: String,
    pub object: &'static str,
    pub created: u64,
    pub owned_by: &'static str,
}

/// The list of models.
#[derive(Debug, Clone)]
pub struct ModelList {
    pub object: &'static str,
    pub data: Vec<ModelCard>,
}

impl ModelList {
    /// The list that names the one loaded model.
    pub fn of(name: String, created: u64) -> (r: Self)
        ensures
            r.object@ == "list"@,
            r.data@.len() == 1,
            r.data@[0].id@ == name@,
            r.data@[0].object@ == "model"@,
            r.data@[0].created == created,
            r.data@[0].owned_by@ == "orionserve"@,
    {
        let mut data: Vec<ModelCard> = Vec::new();
        data.push(ModelCard { id: name, object: "model", created, owned_by: "orionserve" });
        ModelList { object: "list", data }
    }
}

/// Maps a finish reason to the OpenAI vocabulary.
pub fn finish_reason_str(reason: &FinishReason) -> (r: String)
    ensures
        r@ == reason.api_label(),
{
    owned(reason.as_api_str())
}

/// Whether a character is a lower-case hexadecimal digit.
pub open spec fn hex_digit(c: char) -> bool {
    '0' <= c <= '9' || 'a' <= c <= 'f'
}

/// Draws a random identifier with `uuid::Uuid::new_v4` and writes it with
/// `simple`, which gives 32 lower-case hexadecimal digits without hyphens.
/// Which digits is up to chance.
#[verifier::external_body]
fn random_identifier() -> (r: String)
    ensures
        r@.len() == 32,
        forall|i: int| 0 <= i < 32 ==> hex_digit(#[trigger] r@[i]),
{
    uuid::Uuid::new_v4().simple().to_string()
}

/// A response id of a prefix and a suffix.
pub fn tagged_id(prefix: &str, suffix: &str) -> (r: String)
    ensures
        r@ == prefix@ + "-"@ + suffix@,
{
    join3(prefix, "-", suffix)
}

/// Generates a response id with the conventional prefix.
pub fn new_id(prefix: &str) -> (r: String)
    ensures
        exists|suffix: Seq<char>|
            {
                &&& r@ == #[trigger] (prefix@ + "-"@ + suffix)
                &&& suffix.len() == 32
                &&& forall|i: int| 0 <= i < 32 ==> hex_digit(#[trigger] suffix[i])
            },
{
    let suffix = random_identifier();
    let r = tagged_id(prefix, suffix.as_str());
    proof {
        assert(r@ == prefix@ + "-"@ + suffix@);
    }
    r
}

/// Rejects features the engine does not implement, rather than ignoring them.
pub fn check_unsupported(n: Option<usize>) -> (r: Result<(), EngineError>)
    ensures
        match r {
            Ok(()) => n is None || n == Some(1usize),
            Err(e) => n is Some && n->0 != 1 && e.is_invalid_request(
                "`n` must be 1: multiple completions per request are not supported (got "@
                    + decimal(n->0 as nat) + ")"@,
            ),
        },
{
    if let Some(n) = n {
        if n != 1 {
            let mut m = owned(
                "`n` must be 1: multiple completions per request are not supported (got ",
            );
            push_count(&mut m, n);
            m.append(")");
            return Err(EngineError::InvalidRequest(m));
        }
    }
    Ok(())
}

/// An error that knows its own HTTP status.
#[derive(Debug)]
pub struct ApiError(pub EngineError);

impl From<EngineError> for ApiError {
    fn from(e: EngineError) -> (r: Self) {
        ApiError(e)
    }
}

impl vstd::std_specs::convert::FromSpecImpl<EngineError> for ApiError {
    open spec fn obeys_from_spec() -> bool {
        true
    }

    open spec fn from_spec(e: EngineError) -> Self {
        ApiError(e)
    }
}

impl ApiError {
    /// The HTTP status of an error.
    pub open spec fn code(e: EngineError) -> u16 {
        match e {
            EngineError::InvalidRequest(_) => 400,
            EngineError::ContextLengthExceeded { .. } => 400,
            EngineError::QueueFull { .. } => 429,
            EngineError::CacheExhausted { .. } => 503,
            EngineError::Timeout { .. } => 504,
            EngineError::Cancelled => 499,
            EngineError::EngineShutdown => 503,
            EngineError::Tokenizer(_) => 400,
            EngineError::Backend { .. } => 500,
            EngineError::Internal(_) => 500,
        }
    }

    /// The HTTP status of this error. No handler decides a status by looking
    /// at a message.
    pub fn status(&self) -> (r: u16)
        ensures
            r == Self::code(self.0),
    {
        match &self.0 {
            EngineError::InvalidRequest(_) | EngineError::ContextLengthExceeded { .. } => 400,
            EngineError::QueueFull { .. } => 429,
            EngineError::CacheExhausted { .. } => 503,
            EngineError::Timeout { .. } => 504,
            EngineError::Cancelled => 499,
            EngineError::EngineShutdown => 503,
            EngineError::Tokenizer(_) => 400,
            EngineError::Backend { .. } | EngineError::Internal(_) => 500,
        }
    }

    /// Whether the fault is logged in full, because the client does not see
    /// it.
    pub fn is_logged(&self) -> (r: bool)
        ensures
            r == (self.0 is Internal || self.0 is Backend),
    {
        matches!(&self.0, EngineError::Internal(_) | EngineError::Backend { .. })
    }

    /// The body a client sees.
    pub fn body(&self) -> (r: ErrorResponse)
        ensures
            r.error.message@ == ErrorResponse::client_message(self.0),
            r.error.kind@ == ErrorResponse::client_kind(self.0),
            r.error.code@ == self.0.code_text(),
            r.error.param is None,
    {
        ErrorResponse::from_engine(&self.0)
    }
}

/// The status agrees with the class of the error: what the caller caused is a
/// 4xx, what is worth a retry is a 429 or 503, and an internal fault is a 500
/// that shows nothing of its message.
pub proof fn law_status_follows_the_error_class(e: EngineError, f: EngineError)
    ensures
        e is InvalidRequest || e is ContextLengthExceeded || e is Cancelled ==> 400
            <= ApiError::code(e) < 500,
        e is QueueFull || e is CacheExhausted ==> ApiError::code(e) == 429 || ApiError::code(e)
            == 503,
        e is Internal ==> ApiError::code(e) == 500,
        e is Internal && f is Internal ==> ErrorResponse::client_message(e)
            == ErrorResponse::client_message(f),
{
}

/// `POST /v1/chat/completions`.
#[derive(Debug, Clone)]
pub struct ChatCompletionRequest {
    pub model: String,
    pub messages: Vec<ChatMessage>,
    pub temperature: Option<WrittenFloat>,
    pub top_p: Option<WrittenFloat>,
    pub top_k: Option<usize>,
    pub max_tokens: Option<usize>,
    /// Newer name for `max_tokens`.
    pub max_completion_tokens: Option<usize>,
    pub min_tokens: Option<usize>,
    /// The repetition penalty that the frequency penalty stands for.
    pub frequency_penalty: Option<WrittenFloat>,
    /// The repetition penalty that the presence penalty stands for.
    pub presence_penalty: Option<WrittenFloat>,
    pub repetition_penalty: Option<WrittenFloat>,
    pub seed: Option<u64>,
    pub stop: Option<StopField>,
    pub stream: bool,
    pub n: Option<usize>,
    /// Accepted and ignored: names the end user, of whom nothing is kept.
    pub user: Option<String>,
}

impl ChatCompletionRequest {
    /// The penalty asked for besides a repetition penalty: the presence penalty
    /// or else the frequency penalty.
    pub open spec fn presence(&self) -> Option<WrittenFloat> {
        if self.presence_penalty is Some {
            self.presence_penalty
        } else {
            self.frequency_penalty
        }
    }

    /// The token limit asked for, under either of its names.
    pub open spec fn token_limit(&self) -> Option<usize> {
        if self.max_tokens is Some {
            self.max_tokens
        } else {
            self.max_completion_tokens
        }
    }

    /// The parameters that the request asks for.
    pub fn into_params(self, default_max_tokens: usize) -> (r: Result<SamplingParams, EngineError>)
        ensures
            match r {
                Ok(params) => {
                    &&& params_from(
                        params,
                        self.temperature,
                        self.top_p,
                        self.top_k,
                        self.token_limit(),
                        self.min_tokens,
                        self.repetition_penalty,
                        self.presence(),
                        self.seed,
                        self.stop,
                        default_max_tokens,
                    )
                    &&& params.complaint() is None
                },
                Err(e) => exists|params: SamplingParams|
                    {
                        &&& #[trigger] params_from(
                            params,
                            self.temperature,
                            self.top_p,
                            self.top_k,
                            self.token_limit(),
                            self.min_tokens,
                            self.repetition_penalty,
                            self.presence(),
                            self.seed,
                            self.stop,
                            default_max_tokens,
                        )
                        &&& params.complaint() is Some
                        &&& e.is_invalid_request(params.complaint()->0)
                    },
            },
            r matches Ok(params) ==> {
                &&& self.temperature matches Some(f) ==> params.temperature == f
                &&& self.temperature is None ==> params.temperature.value.bits == 0x3f80_0000 && params.temperature.text@ == "1"@
                &&& self.top_p matches Some(f) ==> params.top_p == f
                &&& self.top_p is None ==> params.top_p.value.bits == 0x3f80_0000 && params.top_p.text@ == "1"@
                &&& self.top_k matches Some(k) ==> params.top_k == k
                &&& self.top_k is None ==> params.top_k == 0
                &&& self.repetition_penalty matches Some(f) ==> params.repetition_penalty == f
                &&& self.repetition_penalty is None ==> (self.presence_penalty matches Some(f) ==> params.repetition_penalty == f)
                &&& self.repetition_penalty is None && self.presence_penalty is None ==> (self.frequency_penalty matches Some(f) ==> params.repetition_penalty == f)
                &&& self.repetition_penalty is None && self.presence_penalty is None && self.frequency_penalty is None ==> params.repetition_penalty.value.bits == 0x3f80_0000 && params.repetition_penalty.text@ == "1"@
                &&& self.max_tokens matches Some(n) ==> params.max_tokens == n
                &&& self.max_tokens is None ==> (self.max_completion_tokens matches Some(n) ==> params.max_tokens == n)
                &&& self.max_tokens is None && self.max_completion_tokens is None ==> params.max_tokens == default_max_tokens
                &&& self.min_tokens matches Some(n) ==> params.min_tokens == n
                &&& self.min_tokens is None ==> params.min_tokens == 0
                &&& params.seed == self.seed
                &&& self.stop is None ==> params.stop_sequences@.len() == 0
                &&& self.stop matches Some(StopField::Single(text)) ==> params.stop_sequences@ == seq![text]
                &&& self.stop matches Some(StopField::Multiple(texts)) ==> params.stop_sequences@ == texts@
                &&& params.stop_token_ids@.len() == 0
                &&& params.logprobs is None
                &&& !params.echo
            },
    {
        let max_tokens: Option<usize> = if self.max_tokens.is_some() {
            self.max_tokens
        } else {
            self.max_completion_tokens
        };
        assert(max_tokens == self.token_limit());
        let presence: Option<WrittenFloat> = if self.presence_penalty.is_some() {
            self.presence_penalty
        } else {
            self.frequency_penalty
        };
        assert(presence == self.presence());
        build_params(
            self.temperature,
            self.top_p,
            self.top_k,
            max_tokens,
            self.min_tokens,
            self.repetition_penalty,
            presence,
            self.seed,
            self.stop,
            default_max_tokens,
        )
    }
}

/// `POST /v1/completions`, as far as the rules read it.
#[derive(Debug, Clone)]
pub struct CompletionRequest {
    pub model: String,
    pub prompt: PromptField,
    pub temperature: Option<WrittenFloat>,
    pub top_p: Option<WrittenFloat>,
    pub top_k: Option<usize>,
    pub max_tokens: Option<usize>,
    pub repetition_penalty: Option<WrittenFloat>,
    pub seed: Option<u64>,
    pub stop: Option<StopField>,
    pub stream: bool,
    pub echo: bool,
    pub n: Option<usize>,
}

impl CompletionRequest {
    /// The parameters that the request asks for.
    pub fn into_params(self, default_max_tokens: usize) -> (r: Result<SamplingParams, EngineError>)
        ensures
            match r {
                Ok(params) => {
                    &&& params_from(
                        params,
                        self.temperature,
                        self.top_p,
                        self.top_k,
                        self.max_tokens,
                        None,
                        self.repetition_penalty,
                        None,
                        self.seed,
                        self.stop,
                        default_max_tokens,
                    )
                    &&& params.complaint() is None
                },
                Err(e) => exists|params: SamplingParams|
                    {
                        &&& #[trigger] params_from(
                            params,
                            self.temperature,
                            self.top_p,
                            self.top_k,
                            self.max_tokens,
                            None,
                            self.repetition_penalty,
                            None,
                            self.seed,
                            self.stop,
                            default_max_tokens,
                        )
                        &&& params.complaint() is Some
                        &&& e.is_invalid_request(params.complaint()->0)
                    },
            },
            r matches Ok(params) ==> {
                &&& self.temperature matches Some(f) ==> params.temperature == f
                &&& self.temperature is None ==> params.temperature.value.bits == 0x3f80_0000 && params.temperature.text@ == "1"@
                &&& self.top_p matches Some(f) ==> params.top_p == f
                &&& self.top_p is None ==> params.top_p.value.bits == 0x3f80_0000 && params.top_p.text@ == "1"@
                &&& self.top_k matches Some(k) ==> params.top_k == k
                &&& self.top_k is None ==> params.top_k == 0
                &&& self.repetition_penalty matches Some(f) ==> params.repetition_penalty == f
                &&& self.repetition_penalty is None ==> params.repetition_penalty.value.bits == 0x3f80_0000 && params.repetition_penalty.text@ == "1"@
                &&& self.max_tokens matches Some(n) ==> params.max_tokens == n
                &&& self.max_tokens is None ==> params.max_tokens == default_max_tokens
                &&& params.min_tokens == 0
                &&& params.seed == self.seed
                &&& self.stop is None ==> params.stop_sequences@.len() == 0
                &&& self.stop matches Some(StopField::Single(text)) ==> params.stop_sequences@ == seq![text]
                &&& self.stop matches Some(StopField::Multiple(texts)) ==> params.stop_sequences@ == texts@
                &&& params.stop_token_ids@.len() == 0
                &&& params.logprobs is None
                &&& !params.echo
            },
    {
        build_params(
            self.temperature,
            self.top_p,
            self.top_k,
            self.max_tokens,
            None,
            self.repetition_penalty,
            None,
            self.seed,
            self.stop,
            default_max_tokens,
        )
    }
}

} // verus!
