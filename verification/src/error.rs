//! The three failure classes and the text each failure shows.
//!
//! * [`ConfigError`]: the operator misconfigured the server. Fatal at startup.
//! * [`ModelError`]: a model artifact is missing, malformed or unsupported.
//!   Fatal at load time.
//! * [`EngineError`]: something went wrong while serving a request.

use crate::text::{bracketed, decimal, join2, join3, owned, push_count, push_decimal, push_list};
use vstd::prelude::*;
use vstd::string::*;

verus! {

/// Errors raised while validating operator-supplied configuration.
#[derive(Debug)]
#[allow(inconsistent_fields)]
pub enum ConfigError {
    InvalidValue { field: &'static str, reason: String },
    NotPowerOfTwo { field: &'static str, value: usize },
    OutOfRange { field: &'static str, min: u64, max: u64, value: u64 },
    Inconsistent(String),
}

impl ConfigError {
    /// The text shown for this error.
    pub open spec fn text(&self) -> Seq<char> {
        match self {
            ConfigError::InvalidValue { field, reason } => "invalid value for `"@ + field@ + "`: "@
                + reason@,
            ConfigError::NotPowerOfTwo { field, value } => "`"@ + field@
                + "` must be a power of two, got "@ + decimal(*value as nat),
            ConfigError::OutOfRange { field, min, max, value } => "`"@ + field@ + "` must be in "@
                + decimal(*min as nat) + "..="@ + decimal(*max as nat) + ", got "@ + decimal(
                *value as nat,
            ),
            ConfigError::Inconsistent(detail) => "configuration is internally inconsistent: "@
                + detail@,
        }
    }

    pub fn message(&self) -> (r: String)
        ensures
            r@ == self.text(),
    {
        match self {
            ConfigError::InvalidValue { field, reason } => {
                let mut r = join3("invalid value for `", field, "`: ");
                r.append(reason.as_str());
                r
            },
            ConfigError::NotPowerOfTwo { field, value } => {
                let mut r = join3("`", field, "` must be a power of two, got ");
                push_count(&mut r, *value);
                r
            },
            ConfigError::OutOfRange { field, min, max, value } => {
                let mut r = join3("`", field, "` must be in ");
                push_decimal(&mut r, *min);
                r.append("..=");
                push_decimal(&mut r, *max);
                r.append(", got ");
                push_decimal(&mut r, *value);
                r
            },
            ConfigError::Inconsistent(detail) => join2(
                "configuration is internally inconsistent: ",
                detail.as_str(),
            ),
        }
    }
}

/// Errors raised while loading or validating a model artifact. Paths and the
/// reasons of failed reads are carried as text.
#[derive(Debug)]
pub enum ModelError {
    PathNotFound(String),
    MissingFile(String),
    Io { path: String, source: String },
    Malformed { file: String, reason: String },
    UnsupportedArchitecture(String),
    UnsupportedDtype(String),
    ShapeMismatch { name: String, expected: Vec<usize>, actual: Vec<usize> },
    TensorNotFound(String),
}

impl ModelError {
    /// The text shown for this error.
    pub open spec fn text(&self) -> Seq<char> {
        match self {
            ModelError::PathNotFound(path) => "model path does not exist: "@ + path@,
            ModelError::MissingFile(path) => "required model file missing: "@ + path@,
            ModelError::Io { path, source } => "failed to read "@ + path@ + ": "@ + source@,
            ModelError::Malformed { file, reason } => "malformed "@ + file@ + ": "@ + reason@,
            ModelError::UnsupportedArchitecture(name) => "unsupported model architecture: "@
                + name@,
            ModelError::UnsupportedDtype(name) => "unsupported dtype `"@ + name@
                + "` for this backend"@,
            ModelError::ShapeMismatch { name, expected, actual } => "tensor `"@ + name@
                + "` has shape "@ + bracketed(actual@) + ", expected "@ + bracketed(expected@),
            ModelError::TensorNotFound(name) => "tensor `"@ + name@ + "` not found in checkpoint"@,
        }
    }

    pub fn message(&self) -> (r: String)
        ensures
            r@ == self.text(),
    {
        match self {
            ModelError::PathNotFound(path) => join2("model path does not exist: ", path.as_str()),
            ModelError::MissingFile(path) => join2("required model file missing: ", path.as_str()),
            ModelError::Io { path, source } => {
                let mut r = join3("failed to read ", path.as_str(), ": ");
                r.append(source.as_str());
                r
            },
            ModelError::Malformed { file, reason } => {
                let mut r = join3("malformed ", file.as_str(), ": ");
                r.append(reason.as_str());
                r
            },
            ModelError::UnsupportedArchitecture(name) => join2(
                "unsupported model architecture: ",
                name.as_str(),
            ),
            ModelError::UnsupportedDtype(name) => join3(
                "unsupported dtype `",
                name.as_str(),
                "` for this backend",
            ),
            ModelError::ShapeMismatch { name, expected, actual } => {
                let mut r = join3("tensor `", name.as_str(), "` has shape ");
                push_list(&mut r, actual);
                r.append(", expected ");
                push_list(&mut r, expected);
                r
            },
            ModelError::TensorNotFound(name) => join3(
                "tensor `",
                name.as_str(),
                "` not found in checkpoint",
            ),
        }
    }
}

/// Errors raised while serving an inference request.
#[derive(Debug)]
pub enum EngineError {
    /// The request itself is invalid.
    InvalidRequest(String),
    /// The prompt does not fit in the model context window.
    ContextLengthExceeded { prompt_tokens: usize, max_tokens: usize, context_len: usize },
    /// The admission queue is full; the caller should retry.
    QueueFull { queued: usize, limit: usize },
    /// The KV cache is exhausted and no request could be preempted.
    CacheExhausted { needed: usize, available: usize },
    /// The request exceeded its deadline while queued or running.
    Timeout { elapsed_ms: u64, state: &'static str },
    /// The client went away, or the request was explicitly aborted.
    Cancelled,
    /// Encoding or decoding produced an error.
    Tokenizer(String),
    /// A compute backend failed.
    Backend { backend: &'static str, stage: &'static str, reason: String },
    /// The engine worker loop is gone.
    EngineShutdown,
    /// An invariant the engine relies on was violated. Always a bug in the
    /// engine, never the caller's fault.
    Internal(String),
}

impl EngineError {
    /// Whether this is an internal error carrying exactly `detail`.
    pub open spec fn is_internal(&self, detail: Seq<char>) -> bool {
        *self matches EngineError::Internal(d) && d@ == detail
    }

    /// Whether this is an invalid-request error carrying exactly `detail`.
    pub open spec fn is_invalid_request(&self, detail: Seq<char>) -> bool {
        *self matches EngineError::InvalidRequest(d) && d@ == detail
    }

    /// Whether the caller may usefully retry this request unchanged.
    pub fn is_retryable(&self) -> (r: bool)
        ensures
            r == (*self is QueueFull || *self is CacheExhausted),
    {
        matches!(self, EngineError::QueueFull { .. } | EngineError::CacheExhausted { .. })
    }

    /// Whether this failure was caused by the caller's input rather than by
    /// server state.
    pub fn is_client_error(&self) -> (r: bool)
        ensures
            r == (*self is InvalidRequest || *self is ContextLengthExceeded || *self is Cancelled),
    {
        matches!(
            self,
            EngineError::InvalidRequest(_)
            | EngineError::ContextLengthExceeded { .. }
            | EngineError::Cancelled
        )
    }

    /// The machine-readable code of this error.
    pub open spec fn code_text(&self) -> Seq<char> {
        match self {
            EngineError::InvalidRequest(_) => "invalid_request"@,
            EngineError::ContextLengthExceeded { .. } => "context_length_exceeded"@,
            EngineError::QueueFull { .. } => "queue_full"@,
            EngineError::CacheExhausted { .. } => "cache_exhausted"@,
            EngineError::Timeout { .. } => "timeout"@,
            EngineError::Cancelled => "cancelled"@,
            EngineError::Tokenizer(_) => "tokenizer_error"@,
            EngineError::Backend { .. } => "backend_error"@,
            EngineError::EngineShutdown => "engine_shutdown"@,
            EngineError::Internal(_) => "internal_error"@,
        }
    }

    /// A short, stable, machine-readable code, so clients can branch on
    /// failures without parsing prose.
    pub fn code(&self) -> (r: &'static str)
        ensures
            r@ == self.code_text(),
    {
        match self {
            EngineError::InvalidRequest(_) => "invalid_request",
            EngineError::ContextLengthExceeded { .. } => "context_length_exceeded",
            EngineError::QueueFull { .. } => "queue_full",
            EngineError::CacheExhausted { .. } => "cache_exhausted",
            EngineError::Timeout { .. } => "timeout",
            EngineError::Cancelled => "cancelled",
            EngineError::Tokenizer(_) => "tokenizer_error",
            EngineError::Backend { .. } => "backend_error",
            EngineError::EngineShutdown => "engine_shutdown",
            EngineError::Internal(_) => "internal_error",
        }
    }

    /// The text shown for this error.
    pub open spec fn text(&self) -> Seq<char> {
        match self {
            EngineError::InvalidRequest(detail) => "invalid request: "@ + detail@,
            EngineError::ContextLengthExceeded { prompt_tokens, max_tokens, context_len } =>
                "prompt of "@ + decimal(*prompt_tokens as nat) + " tokens plus "@ + decimal(
                *max_tokens as nat,
            ) + " requested output exceeds context length "@ + decimal(*context_len as nat),
            EngineError::QueueFull { queued, limit } => "server at capacity: "@ + decimal(
                *queued as nat,
            ) + " requests already waiting (limit "@ + decimal(*limit as nat) + ")"@,
            EngineError::CacheExhausted { needed, available } => "KV cache exhausted: needed "@
                + decimal(*needed as nat) + " blocks, "@ + decimal(*available as nat) + " free"@,
            EngineError::Timeout { elapsed_ms, state } => "request timed out after "@ + decimal(
                *elapsed_ms as nat,
            ) + "ms in state `"@ + state@ + "`"@,
            EngineError::Cancelled => "request cancelled"@,
            EngineError::Tokenizer(detail) => "tokenizer error: "@ + detail@,
            EngineError::Backend { backend, stage, reason } => "backend `"@ + backend@
                + "` failed during "@ + stage@ + ": "@ + reason@,
            EngineError::EngineShutdown => "inference engine has shut down"@,
            EngineError::Internal(detail) => "internal invariant violated: "@ + detail@,
        }
    }

    pub fn message(&self) -> (r: String)
        ensures
            r@ == self.text(),
    {
        match self {
            EngineError::InvalidRequest(detail) => join2("invalid request: ", detail.as_str()),
            EngineError::ContextLengthExceeded { prompt_tokens, max_tokens, context_len } => {
                let mut r = owned("prompt of ");
                push_count(&mut r, *prompt_tokens);
                r.append(" tokens plus ");
                push_count(&mut r, *max_tokens);
                r.append(" requested output exceeds context length ");
                push_count(&mut r, *context_len);
                r
            },
            EngineError::QueueFull { queued, limit } => {
                let mut r = owned("server at capacity: ");
                push_count(&mut r, *queued);
                r.append(" requests already waiting (limit ");
                push_count(&mut r, *limit);
                r.append(")");
                r
            },
            EngineError::CacheExhausted { needed, available } => {
                let mut r = owned("KV cache exhausted: needed ");
                push_count(&mut r, *needed);
                r.append(" blocks, ");
                push_count(&mut r, *available);
                r.append(" free");
                r
            },
            EngineError::Timeout { elapsed_ms, state } => {
                let mut r = owned("request timed out after ");
                push_decimal(&mut r, *elapsed_ms);
                r.append("ms in state `");
                r.append(state);
                r.append("`");
                r
            },
            EngineError::Cancelled => owned("request cancelled"),
            EngineError::Tokenizer(detail) => join2("tokenizer error: ", detail.as_str()),
            EngineError::Backend { backend, stage, reason } => {
                let mut r = join3("backend `", backend, "` failed during ");
                r.append(stage);
                r.append(": ");
                r.append(reason.as_str());
                r
            },
            EngineError::EngineShutdown => owned("inference engine has shut down"),
            EngineError::Internal(detail) => join2(
                "internal invariant violated: ",
                detail.as_str(),
            ),
        }
    }
}

/// The top-level error, spanning startup and serving.
#[derive(Debug)]
pub enum OrionError {
    Config(ConfigError),
    Model(ModelError),
    Engine(EngineError),
}

impl OrionError {
    /// The text shown for this error, which is that of the error it carries.
    pub open spec fn text(&self) -> Seq<char> {
        match self {
            OrionError::Config(e) => e.text(),
            OrionError::Model(e) => e.text(),
            OrionError::Engine(e) => e.text(),
        }
    }

    pub fn message(&self) -> (r: String)
        ensures
            r@ == self.text(),
    {
        match self {
            OrionError::Config(e) => e.message(),
            OrionError::Model(e) => e.message(),
            OrionError::Engine(e) => e.message(),
        }
    }
}

/// An error that is worth retrying is never the caller's fault, and an
/// internal error is neither.
pub proof fn law_error_classes_are_disjoint(e: EngineError)
    ensures
        !((e is QueueFull || e is CacheExhausted) && (e is InvalidRequest
            || e is ContextLengthExceeded || e is Cancelled)),
{
}

/// Errors of different kinds have different codes.
pub proof fn law_error_codes_are_distinct(a: EngineError, b: EngineError)
    requires
        a.code_text() == b.code_text(),
    ensures
        a is InvalidRequest == b is InvalidRequest,
        a is ContextLengthExceeded == b is ContextLengthExceeded,
        a is QueueFull == b is QueueFull,
        a is CacheExhausted == b is CacheExhausted,
        a is Timeout == b is Timeout,
        a is Cancelled == b is Cancelled,
        a is Tokenizer == b is Tokenizer,
        a is Backend == b is Backend,
        a is EngineShutdown == b is EngineShutdown,
        a is Internal == b is Internal,
{
    reveal_strlit("invalid_request");
    reveal_strlit("context_length_exceeded");
    reveal_strlit("queue_full");
    reveal_strlit("cache_exhausted");
    reveal_strlit("timeout");
    reveal_strlit("cancelled");
    reveal_strlit("tokenizer_error");
    reveal_strlit("backend_error");
    reveal_strlit("engine_shutdown");
    reveal_strlit("internal_error");
    let ca = a.code_text();
    let cb = b.code_text();
    assert(ca.len() == cb.len());
    assert(ca[0] == cb[0]);
    assert(ca[1] == cb[1]);
}

/// The code that clients know each kind of error by.
pub proof fn law_error_codes_by_kind(e: EngineError)
    ensures
        e is InvalidRequest ==> e.code_text() == "invalid_request"@,
        e is ContextLengthExceeded ==> e.code_text() == "context_length_exceeded"@,
        e is QueueFull ==> e.code_text() == "queue_full"@,
        e is CacheExhausted ==> e.code_text() == "cache_exhausted"@,
        e is Timeout ==> e.code_text() == "timeout"@,
        e is Cancelled ==> e.code_text() == "cancelled"@,
        e is Tokenizer ==> e.code_text() == "tokenizer_error"@,
        e is Backend ==> e.code_text() == "backend_error"@,
        e is EngineShutdown ==> e.code_text() == "engine_shutdown"@,
        e is Internal ==> e.code_text() == "internal_error"@,
{
}

/// What the text of each kind of error says, and of which of its parts.
pub proof fn law_error_texts_by_kind(e: EngineError)
    ensures
        e matches EngineError::InvalidRequest(d) ==> e.text() == "invalid request: "@ + d@,
        e matches EngineError::ContextLengthExceeded { prompt_tokens, max_tokens, context_len }
            ==> e.text() == "prompt of "@ + decimal(prompt_tokens as nat) + " tokens plus "@
            + decimal(max_tokens as nat) + " requested output exceeds context length "@ + decimal(
            context_len as nat,
        ),
        e matches EngineError::QueueFull { queued, limit } ==> e.text() == "server at capacity: "@
            + decimal(queued as nat) + " requests already waiting (limit "@ + decimal(limit as nat)
            + ")"@,
        e matches EngineError::CacheExhausted { needed, available } ==> e.text()
            == "KV cache exhausted: needed "@ + decimal(needed as nat) + " blocks, "@ + decimal(
            available as nat,
        ) + " free"@,
        e matches EngineError::Timeout { elapsed_ms, state } ==> e.text()
            == "request timed out after "@ + decimal(elapsed_ms as nat) + "ms in state `"@ + state@
            + "`"@,
        e is Cancelled ==> e.text() == "request cancelled"@,
        e matches EngineError::Tokenizer(d) ==> e.text() == "tokenizer error: "@ + d@,
        e matches EngineError::Backend { backend, stage, reason } ==> e.text() == "backend `"@
            + backend@ + "` failed during "@ + stage@ + ": "@ + reason@,
        e is EngineShutdown ==> e.text() == "inference engine has shut down"@,
        e matches EngineError::Internal(d) ==> e.text() == "internal invariant violated: "@ + d@,
{
}

/// What the text of a configuration error says: the field, and the values that
/// the operator gave and may give.
pub proof fn law_config_error_texts_by_kind(e: ConfigError)
    ensures
        e matches ConfigError::InvalidValue { field, reason } ==> e.text() == "invalid value for `"@
            + field@ + "`: "@ + reason@,
        e matches ConfigError::NotPowerOfTwo { field, value } ==> e.text() == "`"@ + field@
            + "` must be a power of two, got "@ + decimal(value as nat),
        e matches ConfigError::OutOfRange { field, min, max, value } ==> e.text() == "`"@ + field@
            + "` must be in "@ + decimal(min as nat) + "..="@ + decimal(max as nat) + ", got "@
            + decimal(value as nat),
        e matches ConfigError::Inconsistent(d) ==> e.text()
            == "configuration is internally inconsistent: "@ + d@,
{
}

/// What the text of a model error says: the file or the tensor, what is there and
/// what was expected.
pub proof fn law_model_error_texts_by_kind(e: ModelError)
    ensures
        e matches ModelError::PathNotFound(p) ==> e.text() == "model path does not exist: "@ + p@,
        e matches ModelError::MissingFile(p) ==> e.text() == "required model file missing: "@ + p@,
        e matches ModelError::Io { path, source } ==> e.text() == "failed to read "@ + path@ + ": "@
            + source@,
        e matches ModelError::Malformed { file, reason } ==> e.text() == "malformed "@ + file@
            + ": "@ + reason@,
        e matches ModelError::UnsupportedArchitecture(n) ==> e.text()
            == "unsupported model architecture: "@ + n@,
        e matches ModelError::UnsupportedDtype(n) ==> e.text() == "unsupported dtype `"@ + n@
            + "` for this backend"@,
        e matches ModelError::ShapeMismatch { name, expected, actual } ==> e.text() == "tensor `"@
            + name@ + "` has shape "@ + bracketed(actual@) + ", expected "@ + bracketed(expected@),
        e matches ModelError::TensorNotFound(n) ==> e.text() == "tensor `"@ + n@
            + "` not found in checkpoint"@,
{
}

} // verus!
