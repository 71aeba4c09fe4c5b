//! Sampling parameters and their validation.
//!
//! These values arrive from untrusted API input, so every request runs through
//! [`SamplingParams::validate`] once, at the edge.

use crate::error::EngineError;
use crate::float::{Float32, WrittenFloat};
use crate::id::TokenId;
use crate::text::{decimal, join2, owned, push_count};
use vstd::prelude::*;
use vstd::string::*;

verus! {

/// How the next token is chosen from the logits.
#[derive(Debug, Clone, Copy, PartialEq, Eq, Structural)]
pub enum SamplingMode {
    /// Always take the arg-max. Deterministic regardless of seed.
    Greedy,
    /// Sample from the (temperature/top-k/top-p filtered) distribution.
    Stochastic,
}

/// Per-request sampling configuration.
#[derive(Debug, Clone, PartialEq, Eq)]
pub struct SamplingParams {
    /// Softmax temperature. `0.0` means greedy decoding.
    pub temperature: WrittenFloat,
    /// Nucleus sampling mass in `(0.0, 1.0]`. `1.0` disables the filter.
    pub top_p: WrittenFloat,
    /// Keep only the `k` highest-logit tokens. `0` disables the filter.
    pub top_k: usize,
    /// Penalty applied to tokens already present in the context.
    /// `1.0` disables it; `> 1.0` discourages repetition.
    pub repetition_penalty: WrittenFloat,
    /// Hard cap on generated tokens for this request.
    pub max_tokens: usize,
    /// Minimum tokens to generate before EOS is allowed to terminate.
    pub min_tokens: usize,
    /// RNG seed. `None` draws from entropy; `Some` makes the request
    /// reproducible.
    pub seed: Option<u64>,
    /// Stop generating when any of these token ids is produced.
    pub stop_token_ids: Vec<TokenId>,
    /// Stop generating when any of these strings appears in the decoded output.
    pub stop_sequences: Vec<String>,
    /// Include the chosen token's logprob (and top alternatives) in the
    /// response.
    pub logprobs: Option<usize>,
    /// Echo the prompt tokens back in the response.
    pub echo: bool,
}

impl Default for SamplingParams {
    fn default() -> (r: Self)
        ensures
            r.temperature.value == Float32::spec_one(),
            r.temperature.text@ == "1"@,
            r.top_p.value == Float32::spec_one(),
            r.top_p.text@ == "1"@,
            r.top_k == 0,
            r.repetition_penalty.value == Float32::spec_one(),
            r.repetition_penalty.text@ == "1"@,
            r.max_tokens == 16,
            r.min_tokens == 0,
            r.seed is None,
            r.stop_token_ids@.len() == 0,
            r.stop_sequences@.len() == 0,
            r.logprobs is None,
            !r.echo,
    {
        SamplingParams {
            temperature: WrittenFloat { value: Float32::one(), text: owned("1") },
            top_p: WrittenFloat { value: Float32::one(), text: owned("1") },
            top_k: 0,
            repetition_penalty: WrittenFloat { value: Float32::one(), text: owned("1") },
            max_tokens: 16,
            min_tokens: 0,
            seed: None,
            stop_token_ids: Vec::new(),
            stop_sequences: Vec::new(),
            logprobs: None,
            echo: false,
        }
    }
}

/// Upper bound on `logprobs`. Prevents a client from forcing a
/// full-vocabulary sort per token.
pub const MAX_LOGPROBS: usize = 20;

/// Upper bound on the number of stop sequences, so stop-string matching stays
/// cheap in the decode hot loop.
pub const MAX_STOP_SEQUENCES: usize = 16;

/// Whether one of the texts is empty.
fn any_empty(texts: &Vec<String>) -> (r: bool)
    ensures
        r == exists|i: int| 0 <= i < texts@.len() && (#[trigger] texts@[i])@.len() == 0,
{
    let mut i: usize = 0;
    while i < texts.len()
        invariant
            i <= texts@.len(),
            forall|k: int| 0 <= k < i ==> (#[trigger] texts@[k])@.len() > 0,
        decreases texts@.len() - i,
    {
        if texts[i].as_str().is_empty() {
            assert(texts@[i as int]@.len() == 0);
            return true;
        }
        i += 1;
    }
    false
}

impl SamplingParams {
    /// The first rule these parameters break, as the text that names it, or
    /// `None` where they break none.
    pub open spec fn complaint(&self) -> Option<Seq<char>> {
        let zero = Float32::spec_zero();
        let one = Float32::spec_one();
        if !self.temperature.value.finite() || self.temperature.value.below(zero) {
            Some("temperature must be a finite value >= 0.0, got "@ + self.temperature.text@)
        } else if !self.top_p.value.finite() || !zero.below(self.top_p.value) || one.below(
            self.top_p.value,
        ) {
            Some("top_p must be in (0.0, 1.0], got "@ + self.top_p.text@)
        } else if !self.repetition_penalty.value.finite() || !zero.below(
            self.repetition_penalty.value,
        ) {
            Some(
                "repetition_penalty must be a finite value > 0.0, got "@
                    + self.repetition_penalty.text@,
            )
        } else if self.max_tokens == 0 {
            Some("max_tokens must be at least 1"@)
        } else if self.min_tokens > self.max_tokens {
            Some(
                "min_tokens ("@ + decimal(self.min_tokens as nat)
                    + ") must not exceed max_tokens ("@ + decimal(self.max_tokens as nat) + ")"@,
            )
        } else if self.logprobs is Some && self.logprobs->0 > MAX_LOGPROBS {
            Some("logprobs must be <= 20, got "@ + decimal(self.logprobs->0 as nat))
        } else if self.stop_sequences@.len() > MAX_STOP_SEQUENCES {
            Some(
                "at most 16 stop sequences are allowed, got "@ + decimal(
                    self.stop_sequences@.len(),
                ),
            )
        } else if exists|i: int|
            0 <= i < self.stop_sequences@.len() && (#[trigger] self.stop_sequences@[i])@.len() == 0 {
            Some("stop sequences must not be empty"@)
        } else {
            None
        }
    }

    /// Checks every field against its legal range.
    ///
    /// Returns [`EngineError::InvalidRequest`] naming the offending field.
    pub fn validate(&self) -> (r: Result<(), EngineError>)
        ensures
            match r {
                Ok(()) => self.complaint() is None,
                Err(e) => self.complaint() is Some && e.is_invalid_request(self.complaint()->0),
            },
            r is Ok <==> {
                &&& self.temperature.value.bits < 0x7f80_0000 || self.temperature.value.bits
                    == 0x8000_0000
                &&& 0 < self.top_p.value.bits <= 0x3f80_0000
                &&& 0 < self.repetition_penalty.value.bits < 0x7f80_0000
                &&& self.max_tokens >= 1
                &&& self.min_tokens <= self.max_tokens
                &&& self.logprobs matches Some(n) ==> n <= 20
                &&& self.stop_sequences@.len() <= 16
                &&& forall|i: int|
                    0 <= i < self.stop_sequences@.len() ==> (
                    #[trigger] self.stop_sequences@[i])@.len() > 0
            },
    {
        let zero = Float32::zero();
        if !self.temperature.value.is_finite() || self.temperature.value.lt(zero) {
            return Err(
                EngineError::InvalidRequest(
                    join2(
                        "temperature must be a finite value >= 0.0, got ",
                        self.temperature.text.as_str(),
                    ),
                ),
            );
        }
        if !self.top_p.value.is_finite() || !zero.lt(self.top_p.value) || Float32::one().lt(
            self.top_p.value,
        ) {
            return Err(
                EngineError::InvalidRequest(
                    join2("top_p must be in (0.0, 1.0], got ", self.top_p.text.as_str()),
                ),
            );
        }
        if !self.repetition_penalty.value.is_finite() || !zero.lt(self.repetition_penalty.value) {
            return Err(
                EngineError::InvalidRequest(
                    join2(
                        "repetition_penalty must be a finite value > 0.0, got ",
                        self.repetition_penalty.text.as_str(),
                    ),
                ),
            );
        }
        if self.max_tokens == 0 {
            return Err(EngineError::InvalidRequest(owned("max_tokens must be at least 1")));
        }
        if self.min_tokens > self.max_tokens {
            let mut m = owned("min_tokens (");
            push_count(&mut m, self.min_tokens);
            m.append(") must not exceed max_tokens (");
            push_count(&mut m, self.max_tokens);
            m.append(")");
            return Err(EngineError::InvalidRequest(m));
        }
        if let Some(n) = self.logprobs {
            if n > MAX_LOGPROBS {
                let mut m = owned("logprobs must be <= 20, got ");
                push_count(&mut m, n);
                return Err(EngineError::InvalidRequest(m));
            }
        }
        if self.stop_sequences.len() > MAX_STOP_SEQUENCES {
            let mut m = owned("at most 16 stop sequences are allowed, got ");
            push_count(&mut m, self.stop_sequences.len());
            return Err(EngineError::InvalidRequest(m));
        }
        if any_empty(&self.stop_sequences) {
            return Err(EngineError::InvalidRequest(owned("stop sequences must not be empty")));
        }
        Ok(())
    }

    /// Whether decoding is greedy: temperature `0.0` is its conventional
    /// spelling.
    pub open spec fn greedy(&self) -> bool {
        self.temperature.value.same(Float32::spec_zero())
    }

    /// The effective sampling mode.
    pub fn mode(&self) -> (r: SamplingMode)
        ensures
            r is Greedy <==> self.temperature.value.bits == 0 || self.temperature.value.bits
                == 0x8000_0000,
            r == if self.greedy() {
                SamplingMode::Greedy
            } else {
                SamplingMode::Stochastic
            },
    {
        if self.temperature.value.equals(Float32::zero()) {
            SamplingMode::Greedy
        } else {
            SamplingMode::Stochastic
        }
    }

    /// Whether the request is reproducible: either greedy, or seeded.
    pub fn is_deterministic(&self) -> (r: bool)
        ensures
            self.temperature.value.bits == 0 ==> r,
            self.seed is Some ==> r,
            r && self.seed is None ==> self.temperature.value.bits == 0
                || self.temperature.value.bits == 0x8000_0000,
            r == (self.greedy() || self.seed is Some),
    {
        self.mode() == SamplingMode::Greedy || self.seed.is_some()
    }

    /// Builder-style setter.
    pub fn with_max_tokens(self, n: usize) -> (r: Self)
        ensures
            r == (SamplingParams { max_tokens: n, ..self }),
    {
        let mut p = self;
        p.max_tokens = n;
        p
    }

    /// Builder-style setter.
    pub fn with_seed(self, seed: u64) -> (r: Self)
        ensures
            r == (SamplingParams { seed: Some(seed), ..self }),
    {
        let mut p = self;
        p.seed = Some(seed);
        p
    }
}

/// A refusal names the first field that is out of its range, with the text as
/// the request wrote it.
pub proof fn law_refusals_name_the_offending_field(p: SamplingParams)
    ensures
        ({
            let temperature = p.temperature.value.bits < 0x7f80_0000 || p.temperature.value.bits
                == 0x8000_0000;
            let top_p = 0 < p.top_p.value.bits <= 0x3f80_0000;
            let penalty = 0 < p.repetition_penalty.value.bits < 0x7f80_0000;
            &&& !temperature ==> p.complaint() == Some(
                "temperature must be a finite value >= 0.0, got "@ + p.temperature.text@,
            )
            &&& temperature && !top_p ==> p.complaint() == Some(
                "top_p must be in (0.0, 1.0], got "@ + p.top_p.text@,
            )
            &&& temperature && top_p && !penalty ==> p.complaint() == Some(
                "repetition_penalty must be a finite value > 0.0, got "@
                    + p.repetition_penalty.text@,
            )
            &&& temperature && top_p && penalty ==> {
                &&& p.max_tokens == 0 ==> p.complaint() == Some("max_tokens must be at least 1"@)
                &&& 0 < p.max_tokens < p.min_tokens ==> p.complaint() == Some(
                    "min_tokens ("@ + decimal(p.min_tokens as nat)
                        + ") must not exceed max_tokens ("@ + decimal(p.max_tokens as nat) + ")"@,
                )
                &&& p.max_tokens > 0 && p.min_tokens <= p.max_tokens ==> {
                    &&& p.logprobs matches Some(n) ==> n > 20 ==> p.complaint() == Some(
                        "logprobs must be <= 20, got "@ + decimal(n as nat),
                    )
                    &&& p.logprobs is None ==> {
                        &&& p.stop_sequences@.len() > 16 ==> p.complaint() == Some(
                            "at most 16 stop sequences are allowed, got "@ + decimal(
                                p.stop_sequences@.len(),
                            ),
                        )
                        &&& p.stop_sequences@.len() == 1 && p.stop_sequences@[0]@.len() == 0
                            ==> p.complaint() == Some("stop sequences must not be empty"@)
                    }
                }
            }
        }),
{
}

} // verus!
