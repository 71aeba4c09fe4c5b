//! The sequence: the unit of work the scheduler and KV cache both operate on.
//!
//! A sequence owns its token history and its lifecycle state. It does not own
//! its KV blocks: the block table lives in the cache manager, keyed by
//! [`SequenceId`], so that cache ownership has exactly one home.
//!
//! Points in time are nanoseconds of a monotonic clock that the caller reads.

use crate::id::{IdCounter, SequenceId, TokenId};
use crate::sampling_params::SamplingParams;
use vstd::prelude::*;

verus! {

/// Where a sequence is in its lifecycle.
///
/// The legal transitions are:
///
/// ```text
///   Waiting --admit--> Prefilling --> Decoding --> Finished
///      ^                                 |
///      +------------ preempt ------------+
/// ```
///
/// `Waiting -> Finished` is also legal (cancellation or timeout before the
/// sequence was ever scheduled). Everything else is a bug, enforced by
/// [`SequenceState::can_transition_to`].
#[derive(Debug, Clone, Copy, PartialEq, Eq, Hash, Structural)]
pub enum SequenceState {
    /// Admitted to the engine, waiting for cache blocks and a batch slot.
    Waiting,
    /// Prompt tokens are being processed. With chunked prefill a sequence can
    /// stay here across several engine steps.
    Prefilling,
    /// Generating one token per engine step.
    Decoding,
    /// Terminal. See [`Sequence::finish_reason`] for why.
    Finished,
}

impl SequenceState {
    /// Whether `self -> next` is a legal transition.
    pub open spec fn allows(self, next: SequenceState) -> bool {
        ||| self is Waiting && next is Prefilling
        ||| self is Prefilling && next is Decoding
        ||| self is Decoding && next is Finished
        ||| self is Decoding && next is Waiting
        ||| self is Waiting && next is Finished
    }

    /// Whether `self -> next` is a legal transition.
    pub fn can_transition_to(self, next: SequenceState) -> (r: bool)
        ensures
            r == self.allows(next),
    {
        match self {
            SequenceState::Waiting => matches!(
                next,
                SequenceState::Prefilling | SequenceState::Finished
            ),
            SequenceState::Prefilling => matches!(next, SequenceState::Decoding),
            SequenceState::Decoding => matches!(
                next,
                SequenceState::Waiting | SequenceState::Finished
            ),
            SequenceState::Finished => false,
        }
    }

    /// Whether the sequence currently occupies KV cache blocks and a batch slot.
    pub fn is_active(self) -> (r: bool)
        ensures
            r == (self is Prefilling || self is Decoding),
    {
        matches!(self, SequenceState::Prefilling | SequenceState::Decoding)
    }

    pub open spec fn label(self) -> Seq<char> {
        match self {
            SequenceState::Waiting => "waiting"@,
            SequenceState::Prefilling => "prefilling"@,
            SequenceState::Decoding => "decoding"@,
            SequenceState::Finished => "finished"@,
        }
    }

    /// Short label for metrics and log fields.
    pub fn as_str(self) -> (r: &'static str)
        ensures
            r@ == self.label(),
    {
        match self {
            SequenceState::Waiting => "waiting",
            SequenceState::Prefilling => "prefilling",
            SequenceState::Decoding => "decoding",
            SequenceState::Finished => "finished",
        }
    }
}

/// Why a sequence stopped generating.
#[derive(Debug, Clone, PartialEq, Eq)]
pub enum FinishReason {
    /// Hit an EOS or a caller-supplied stop token.
    Stop,
    /// Matched one of the caller's stop strings.
    StopSequence(String),
    /// Reached `max_tokens`.
    Length,
    /// Client disconnected or explicitly aborted.
    Cancelled,
    /// Deadline expired.
    Timeout,
    /// Engine-side failure; the message is for logs, not for the client.
    Error(String),
}

impl FinishReason {
    pub open spec fn api_label(&self) -> Seq<char> {
        match self {
            FinishReason::Stop | FinishReason::StopSequence(_) => "stop"@,
            FinishReason::Length => "length"@,
            FinishReason::Cancelled => "cancelled"@,
            FinishReason::Timeout => "timeout"@,
            FinishReason::Error(_) => "error"@,
        }
    }

    /// The `finish_reason` string in a response. Internal distinctions like
    /// `StopSequence` map onto the small vocabulary clients expect.
    pub fn as_api_str(&self) -> (r: &'static str)
        ensures
            r@ == self.api_label(),
    {
        match self {
            FinishReason::Stop | FinishReason::StopSequence(_) => "stop",
            FinishReason::Length => "length",
            FinishReason::Cancelled => "cancelled",
            FinishReason::Timeout => "timeout",
            FinishReason::Error(_) => "error",
        }
    }
}

/// Timing points captured per sequence, in nanoseconds.
#[derive(Debug, Clone, Copy, PartialEq, Eq, Structural)]
pub struct SequenceTimings {
    /// When the request was accepted by the API layer.
    pub arrived_at: u64,
    /// When the sequence first entered `Prefilling`.
    pub first_scheduled_at: Option<u64>,
    /// When the first output token was produced.
    pub first_token_at: Option<u64>,
    /// When the sequence reached `Finished`.
    pub finished_at: Option<u64>,
}

/// The time from `earlier` to `later`, or zero where the clock went backwards.
pub open spec fn elapsed(earlier: u64, later: u64) -> u64 {
    if later >= earlier {
        (later - earlier) as u64
    } else {
        0
    }
}

impl SequenceTimings {
    pub open spec fn arrived(at: u64) -> SequenceTimings {
        SequenceTimings {
            arrived_at: at,
            first_scheduled_at: None,
            first_token_at: None,
            finished_at: None,
        }
    }

    /// Time to first token: arrival until the first generated token.
    ///
    /// Measured from arrival, because queueing delay is latency the client
    /// actually experiences.
    pub fn time_to_first_token(&self) -> (r: Option<u64>)
        ensures
            r == match self.first_token_at {
                Some(t) => Some(elapsed(self.arrived_at, t)),
                None => None,
            },
    {
        match self.first_token_at {
            Some(t) => Some(t.saturating_sub(self.arrived_at)),
            None => None,
        }
    }

    /// Time spent waiting in the queue before first being scheduled.
    pub fn queue_time(&self) -> (r: Option<u64>)
        ensures
            r == match self.first_scheduled_at {
                Some(t) => Some(elapsed(self.arrived_at, t)),
                None => None,
            },
    {
        match self.first_scheduled_at {
            Some(t) => Some(t.saturating_sub(self.arrived_at)),
            None => None,
        }
    }

    /// Mean time per output token, excluding the first.
    ///
    /// `None` when fewer than two tokens were produced: the figure is
    /// undefined there rather than zero.
    pub fn time_per_output_token(&self, output_tokens: usize) -> (r: Option<u64>)
        requires
            output_tokens <= u32::MAX,
        ensures
            r == if self.first_token_at is Some && self.finished_at is Some && output_tokens >= 2 {
                Some(
                    (elapsed(self.first_token_at->0, self.finished_at->0) as int / (output_tokens
                        - 1)) as u64,
                )
            } else {
                None
            },
    {
        match (self.first_token_at, self.finished_at) {
            (Some(first), Some(last)) => {
                if output_tokens < 2 {
                    return None;
                }
                let spent: u64 = last.saturating_sub(first);
                let gaps: u64 = output_tokens as u64 - 1;
                Some(spent / gaps)
            },
            _ => None,
        }
    }
}

/// One decoding sequence: prompt, generated tokens, state, and timings.
#[derive(Debug)]
pub struct Sequence {
    id: SequenceId,
    /// Prompt tokens. Never mutated after construction.
    prompt: Vec<TokenId>,
    /// Tokens produced by the model, in order.
    output: Vec<TokenId>,
    /// How many tokens of the history already have KV entries computed.
    computed_prefix_len: usize,
    /// How many tokens of the history are to be prefilled: the prompt, and
    /// after a preemption what was generated until then too.
    prefill_len: usize,
    /// How many of these are prefilled in chunks. The others follow one at a
    /// time, as the cache grows.
    chunked_len: usize,
    state: SequenceState,
    finish_reason: Option<FinishReason>,
    params: SamplingParams,
    timings: SequenceTimings,
}

/// What a sequence is made of.
pub ghost struct SequenceModel {
    pub id: SequenceId,
    pub prompt: Seq<TokenId>,
    pub output: Seq<TokenId>,
    pub computed: int,
    pub target: int,
    pub span: int,
    pub state: SequenceState,
    pub finish_reason: Option<FinishReason>,
    pub params: SamplingParams,
    pub timings: SequenceTimings,
}

impl View for Sequence {
    type V = SequenceModel;

    closed spec fn view(&self) -> SequenceModel {
        SequenceModel {
            id: self.id,
            prompt: self.prompt@,
            output: self.output@,
            computed: self.computed_prefix_len as int,
            target: self.prefill_len as int,
            span: self.chunked_len as int,
            state: self.state,
            finish_reason: self.finish_reason,
            params: self.params,
            timings: self.timings,
        }
    }
}

impl SequenceModel {
    /// Whether the prefill covers the prompt, never runs past its end, and the
    /// token history can be counted.
    pub open spec fn wf(self) -> bool {
        &&& 0 <= self.computed <= self.target
        &&& self.prompt.len() <= self.span <= self.target <= self.total()
        &&& self.total() <= usize::MAX
    }

    pub open spec fn fresh(
        id: SequenceId,
        prompt: Seq<TokenId>,
        params: SamplingParams,
        now: u64,
    ) -> SequenceModel {
        SequenceModel {
            id,
            prompt,
            output: seq![],
            computed: 0,
            target: prompt.len() as int,
            span: prompt.len() as int,
            state: SequenceState::Waiting,
            finish_reason: None,
            params,
            timings: SequenceTimings::arrived(now),
        }
    }

    /// Everything that needs a KV entry.
    pub open spec fn total(self) -> nat {
        self.prompt.len() + self.output.len()
    }

    /// The prompt and what was generated.
    pub open spec fn history(self) -> Seq<TokenId> {
        self.prompt + self.output
    }

    /// Tokens that still need prefilling.
    pub open spec fn remaining(self) -> int {
        self.target - self.computed
    }

    /// Those of them that are prefilled in chunks.
    pub open spec fn left(self) -> int {
        if self.computed <= self.span {
            self.span - self.computed
        } else {
            0
        }
    }

    /// The tokens that are prefilled in chunks.
    pub open spec fn opening(self) -> Seq<TokenId> {
        self.history().take(self.span)
    }

    /// The sequence with only the first `n` tokens to be prefilled in chunks.
    pub open spec fn spanning(self, n: int) -> SequenceModel {
        SequenceModel { span: n, ..self }
    }

    /// The sequence moved to `next`; the first move to `Prefilling` is
    /// stamped.
    pub open spec fn moved(self, next: SequenceState, now: u64) -> SequenceModel {
        let timings = if next is Prefilling && self.timings.first_scheduled_at is None {
            SequenceTimings { first_scheduled_at: Some(now), ..self.timings }
        } else {
            self.timings
        };
        SequenceModel { state: next, timings, ..self }
    }

    /// The sequence after `n` more tokens were prefilled.
    pub open spec fn prefilled(self, n: int) -> SequenceModel {
        SequenceModel {
            computed: if self.computed + n <= self.target {
                self.computed + n
            } else {
                self.target
            },
            ..self
        }
    }

    /// The sequence after one more generated token; the first is stamped.
    pub open spec fn grown(self, token: TokenId, now: u64) -> SequenceModel {
        let timings = if self.output.len() == 0 {
            SequenceTimings { first_token_at: Some(now), ..self.timings }
        } else {
            self.timings
        };
        SequenceModel { output: self.output.push(token), timings, ..self }
    }

    /// The sequence finished for `reason`, unless it was finished before.
    pub open spec fn ended(self, reason: FinishReason, now: u64) -> SequenceModel {
        if self.state is Finished {
            self
        } else {
            SequenceModel {
                state: SequenceState::Finished,
                finish_reason: Some(reason),
                timings: SequenceTimings { finished_at: Some(now), ..self.timings },
                ..self
            }
        }
    }

    /// The sequence back in the queue, with its prefill to be done again: the
    /// generated tokens are part of what is prefilled on restart.
    pub open spec fn suspended(self) -> SequenceModel {
        SequenceModel {
            state: SequenceState::Waiting,
            computed: 0,
            target: self.total() as int,
            span: self.total() as int,
            ..self
        }
    }
}

impl Sequence {
    pub open spec fn wf(&self) -> bool {
        self@.wf()
    }

    /// Creates a sequence in the `Waiting` state, numbered by `counter`.
    pub fn new(
        prompt: Vec<TokenId>,
        params: SamplingParams,
        counter: &mut IdCounter,
        now: u64,
    ) -> (r: Self)
        ensures
            r.wf(),
            r@.id@ == old(counter)@,
            final(counter)@ == old(counter)@.wrapping_add(1),
            r@ == SequenceModel::fresh(r@.id, prompt@, params, now),
    {
        let id = SequenceId::next(counter);
        let prompt_len: usize = prompt.len();
        let r = Sequence {
            id,
            prompt,
            output: Vec::new(),
            computed_prefix_len: 0,
            prefill_len: prompt_len,
            chunked_len: prompt_len,
            state: SequenceState::Waiting,
            finish_reason: None,
            params,
            timings: SequenceTimings {
                arrived_at: now,
                first_scheduled_at: None,
                first_token_at: None,
                finished_at: None,
            },
        };
        proof {
            assert(r.prompt.len() == prompt@.len());
            assert(r@.output =~= seq![]);
        }
        r
    }

    pub fn id(&self) -> (r: SequenceId)
        ensures
            r == self@.id,
    {
        self.id
    }

    pub fn state(&self) -> (r: SequenceState)
        ensures
            r == self@.state,
    {
        self.state
    }

    pub fn params(&self) -> (r: &SamplingParams)
        ensures
            *r == self@.params,
    {
        &self.params
    }

    pub fn timings(&self) -> (r: &SequenceTimings)
        ensures
            *r == self@.timings,
    {
        &self.timings
    }

    pub fn prompt(&self) -> (r: &[TokenId])
        ensures
            r@ == self@.prompt,
    {
        self.prompt.as_slice()
    }

    pub fn output(&self) -> (r: &[TokenId])
        ensures
            r@ == self@.output,
    {
        self.output.as_slice()
    }

    pub fn prompt_len(&self) -> (r: usize)
        ensures
            r == self@.prompt.len(),
    {
        self.prompt.len()
    }

    pub fn output_len(&self) -> (r: usize)
        ensures
            r == self@.output.len(),
    {
        self.output.len()
    }

    /// Total logical length: everything that needs a KV entry.
    pub fn total_len(&self) -> (r: usize)
        requires
            self.wf(),
        ensures
            r == self@.total(),
    {
        self.prompt.len() + self.output.len()
    }

    /// How many tokens still need prefilling.
    pub fn remaining_prefill(&self) -> (r: usize)
        requires
            self.wf(),
        ensures
            r == self@.remaining(),
    {
        self.prefill_len.saturating_sub(self.computed_prefix_len)
    }

    /// Whether every token that needs prefilling has been through the model.
    pub fn is_prefill_complete(&self) -> (r: bool)
        requires
            self.wf(),
        ensures
            r == (self@.remaining() == 0),
    {
        self.computed_prefix_len >= self.prefill_len
    }

    /// How many tokens need prefilling, done or not.
    pub fn prefill_len(&self) -> (r: usize)
        ensures
            r == self@.target,
    {
        self.prefill_len
    }

    /// How many tokens are still to be prefilled in chunks.
    pub fn remaining_chunks(&self) -> (r: usize)
        requires
            self.wf(),
        ensures
            r == self@.left(),
    {
        self.chunked_len.saturating_sub(self.computed_prefix_len)
    }

    /// The tokens that are prefilled in chunks.
    pub fn opening(&self) -> (r: Vec<TokenId>)
        requires
            self.wf(),
        ensures
            r@ == self@.opening(),
    {
        let mut all = self.all_tokens();
        all.truncate(self.chunked_len);
        all
    }

    /// Lets the first `n` tokens be prefilled in chunks. Where the cache has no
    /// room for all of them at once, the others follow one at a time.
    pub fn limit_chunks(&mut self, n: usize)
        requires
            old(self).wf(),
            old(self)@.prompt.len() <= n <= old(self)@.target,
        ensures
            final(self).wf(),
            final(self)@ == old(self)@.spanning(n as int),
    {
        self.chunked_len = n;
    }

    pub fn computed_prefix_len(&self) -> (r: usize)
        ensures
            r == self@.computed,
    {
        self.computed_prefix_len
    }

    pub fn finish_reason(&self) -> (r: Option<&FinishReason>)
        ensures
            match r {
                Some(reason) => self@.finish_reason == Some(*reason),
                None => self@.finish_reason is None,
            },
    {
        self.finish_reason.as_ref()
    }

    /// Why the sequence finished, once it is not needed any more.
    pub fn into_finish_reason(self) -> (r: Option<FinishReason>)
        ensures
            r == self@.finish_reason,
    {
        self.finish_reason
    }

    pub fn is_finished(&self) -> (r: bool)
        ensures
            r == (self@.state is Finished),
    {
        self.state == SequenceState::Finished
    }

    /// Attempts a state transition, rejecting illegal ones.
    ///
    /// Returns `false` and leaves the sequence untouched if the transition is
    /// not allowed.
    #[must_use]
    pub fn transition_to(&mut self, next: SequenceState, now: u64) -> (r: bool)
        ensures
            r == old(self)@.state.allows(next),
            final(self)@ == if r {
                old(self)@.moved(next, now)
            } else {
                old(self)@
            },
    {
        if !self.state.can_transition_to(next) {
            return false;
        }
        if next == SequenceState::Prefilling && self.timings.first_scheduled_at.is_none() {
            self.timings.first_scheduled_at = Some(now);
        }
        self.state = next;
        true
    }

    /// Records that `n` more tokens have been prefilled.
    ///
    /// Saturates at what there is to prefill, so a mis-sized final chunk cannot
    /// push the prefix past its end.
    pub fn advance_prefill(&mut self, n: usize)
        requires
            old(self).wf(),
        ensures
            final(self).wf(),
            final(self)@ == old(self)@.prefilled(n as int),
    {
        let left: usize = self.prefill_len - self.computed_prefix_len;
        if n <= left {
            self.computed_prefix_len = self.computed_prefix_len + n;
        } else {
            self.computed_prefix_len = self.prefill_len;
        }
    }

    /// Appends a generated token and stamps the first-token timing.
    pub fn push_token(&mut self, token: TokenId, now: u64)
        requires
            old(self).wf(),
            old(self)@.total() < usize::MAX,
        ensures
            final(self).wf(),
            final(self)@ == old(self)@.grown(token, now),
    {
        if self.output.len() == 0 {
            self.timings.first_token_at = Some(now);
        }
        self.output.push(token);
    }

    /// Moves the sequence to `Finished` with the given reason.
    ///
    /// The first reason wins, so a cancellation racing with a natural stop
    /// cannot rewrite history.
    pub fn finish(&mut self, reason: FinishReason, now: u64)
        ensures
            final(self)@ == old(self)@.ended(reason, now),
    {
        if self.state == SequenceState::Finished {
            return;
        }
        self.state = SequenceState::Finished;
        self.finish_reason = Some(reason);
        self.timings.finished_at = Some(now);
    }

    /// Returns the sequence to `Waiting` after preemption, discarding prefill
    /// progress.
    ///
    /// Preemption releases the sequence's KV blocks, so the prefill must cover
    /// the whole prompt again. Generated tokens are kept and become part of the
    /// prompt on restart, so no output is lost.
    #[must_use]
    pub fn preempt(&mut self) -> (r: bool)
        requires
            old(self).wf(),
        ensures
            final(self).wf(),
            r == old(self)@.state.allows(SequenceState::Waiting),
            final(self)@ == if r {
                old(self)@.suspended()
            } else {
                old(self)@
            },
    {
        if !self.state.can_transition_to(SequenceState::Waiting) {
            return false;
        }
        self.put_back();
        true
    }

    /// Returns a sequence that is at work to `Waiting`, whether it decodes or
    /// its prompt is still being processed. A sequence that is not at work
    /// stays as it is.
    pub fn put_back(&mut self)
        requires
            old(self).wf(),
        ensures
            final(self).wf(),
            final(self)@ == if old(self)@.state is Prefilling || old(self)@.state is Decoding {
                old(self)@.suspended()
            } else {
                old(self)@
            },
    {
        if self.state.is_active() {
            let total: usize = self.total_len();
            self.state = SequenceState::Waiting;
            self.computed_prefix_len = 0;
            self.prefill_len = total;
            self.chunked_len = total;
        }
    }

    /// The token window the sampler applies repetition penalty over: the whole
    /// context, prompt included.
    pub fn all_tokens(&self) -> (r: Vec<TokenId>)
        ensures
            r@ == self@.prompt + self@.output,
    {
        let mut all: Vec<TokenId> = self.prompt.clone();
        all.extend_from_slice(self.output.as_slice());
        proof {
            assert(all@ =~= self@.prompt + self@.output);
        }
        all
    }

    /// Whether the sequence has produced its caller-requested maximum.
    pub fn reached_max_tokens(&self) -> (r: bool)
        ensures
            r == (self@.output.len() >= self@.params.max_tokens),
    {
        self.output.len() >= self.params.max_tokens
    }

    /// Whether EOS is currently allowed to terminate the sequence, honouring
    /// `min_tokens`.
    pub fn may_stop_on_eos(&self) -> (r: bool)
        ensures
            r == (self@.output.len() >= self@.params.min_tokens),
    {
        self.output.len() >= self.params.min_tokens
    }
}

/// A finished sequence stays finished, for the reason it finished first.
pub proof fn law_first_finish_reason_wins(
    s: SequenceModel,
    first: FinishReason,
    second: FinishReason,
    t1: u64,
    t2: u64,
)
    ensures
        s.ended(first, t1).ended(second, t2) == s.ended(first, t1),
        forall|next: SequenceState| !#[trigger] s.ended(first, t1).state.allows(next),
{
}

/// Preemption keeps every token, generated ones too, and requires the whole
/// prompt and all of them to be prefilled again.
pub proof fn law_preemption_keeps_tokens(s: SequenceModel)
    requires
        s.state.allows(SequenceState::Waiting),
    ensures
        s.suspended().prompt == s.prompt,
        s.suspended().output == s.output,
        s.suspended().remaining() == s.prompt.len() + s.output.len(),
        s.suspended().opening() == s.prompt + s.output,
{
    assert(s.suspended().opening() =~= s.prompt + s.output);
}

/// Chunks that add up to what is left complete the prefill, however
/// they are cut.
pub proof fn law_chunked_prefill_adds_up(s: SequenceModel, a: int, b: int)
    requires
        s.wf(),
        a >= 0,
        b >= 0,
    ensures
        s.prefilled(a).prefilled(b) == s.prefilled(a + b),
        a >= s.remaining() ==> s.prefilled(a).remaining() == 0,
{
}

/// The first-token stamp is set by the first token and kept by every later
/// one.
pub proof fn law_first_token_is_stamped_once(s: SequenceModel, a: TokenId, b: TokenId, t1: u64, t2: u64)
    requires
        s.output.len() == 0,
    ensures
        s.grown(a, t1).timings.first_token_at == Some(t1),
        s.grown(a, t1).grown(b, t2).timings.first_token_at == Some(t1),
{
}

/// A new sequence waits, has its whole prompt to be prefilled, and has generated
/// nothing.
pub proof fn law_a_new_sequence_has_everything_before_it(
    id: SequenceId,
    prompt: Seq<TokenId>,
    params: SamplingParams,
    now: u64,
)
    ensures
        ({
            let s = SequenceModel::fresh(id, prompt, params, now);
            &&& s.id == id
            &&& s.prompt == prompt
            &&& s.output.len() == 0
            &&& s.params == params
            &&& s.state is Waiting
            &&& s.finish_reason is None
            &&& s.computed == 0
            &&& s.remaining() == prompt.len()
            &&& s.left() == prompt.len()
            &&& s.opening() == prompt
            &&& s.timings.arrived_at == now
            &&& s.timings.first_scheduled_at is None
            &&& s.timings.first_token_at is None
            &&& s.timings.finished_at is None
        }),
{
    let s = SequenceModel::fresh(id, prompt, params, now);
    assert(s.opening() =~= prompt);
}

/// How a sequence may move: it starts by prefilling, decodes after that, comes
/// back to the queue from decoding alone, ends from the queue or from decoding,
/// and never leaves its end.
pub proof fn law_lifecycle_has_one_direction(a: SequenceState, b: SequenceState)
    ensures
        SequenceState::Waiting.allows(SequenceState::Prefilling),
        SequenceState::Prefilling.allows(SequenceState::Decoding),
        SequenceState::Decoding.allows(SequenceState::Finished),
        SequenceState::Decoding.allows(SequenceState::Waiting),
        SequenceState::Waiting.allows(SequenceState::Finished),
        a is Finished ==> !a.allows(b),
        a == b ==> !a.allows(b),
        b is Prefilling && a.allows(b) ==> a is Waiting,
        b is Decoding && a.allows(b) ==> a is Prefilling,
        b is Waiting && a.allows(b) ==> a is Decoding,
        b is Finished && a.allows(b) ==> a is Waiting || a is Decoding,
{
}

/// A generated token goes behind everything that was generated before, and
/// changes nothing else but the first token's stamp.
pub proof fn law_a_token_is_appended(s: SequenceModel, token: TokenId, now: u64)
    ensures
        ({
            let g = s.grown(token, now);
            &&& g.prompt == s.prompt
            &&& g.output.len() == s.output.len() + 1
            &&& g.output.take(s.output.len() as int) == s.output
            &&& g.output[s.output.len() as int] == token
            &&& g.prompt + g.output == (s.prompt + s.output).push(token)
            &&& g.id == s.id
            &&& g.params == s.params
            &&& g.state == s.state
            &&& g.finish_reason == s.finish_reason
            &&& g.computed == s.computed
            &&& g.target == s.target
            &&& g.span == s.span
            &&& s.output.len() > 0 ==> g.timings == s.timings
            &&& g.timings.arrived_at == s.timings.arrived_at
        }),
{
    let g = s.grown(token, now);
    assert(g.output.take(s.output.len() as int) =~= s.output);
    assert(g.prompt + g.output =~= (s.prompt + s.output).push(token));
}

/// An end gives a reason and a time to a sequence that has none, and changes
/// neither its tokens nor its progress.
pub proof fn law_an_end_is_recorded(s: SequenceModel, reason: FinishReason, now: u64)
    ensures
        ({
            let e = s.ended(reason, now);
            &&& e.state is Finished
            &&& !(s.state is Finished) ==> e.finish_reason == Some(reason)
            &&& !(s.state is Finished) ==> e.timings.finished_at == Some(now)
            &&& s.state is Finished ==> e.finish_reason == s.finish_reason
            &&& s.state is Finished ==> e.timings == s.timings
            &&& e.timings.first_token_at == s.timings.first_token_at
            &&& e.timings.arrived_at == s.timings.arrived_at
            &&& e.id == s.id
            &&& e.prompt == s.prompt
            &&& e.output == s.output
            &&& e.computed == s.computed
            &&& e.params == s.params
        }),
{
}

/// Prefilling moves the computed prefix on by as many tokens, and never past
/// what there is to prefill.
pub proof fn law_prefill_moves_the_prefix(s: SequenceModel, n: int)
    requires
        s.wf(),
        n >= 0,
    ensures
        s.prefilled(n).wf(),
        n <= s.remaining() ==> s.prefilled(n).computed == s.computed + n,
        n > s.remaining() ==> s.prefilled(n).computed == s.target,
        s.prefilled(n).remaining() <= s.remaining(),
        s.prefilled(n).prompt == s.prompt,
        s.prefilled(n).output == s.output,
        s.prefilled(n).state == s.state,
        s.prefilled(n).timings == s.timings,
        s.computed <= s.span ==> s.left() == s.span - s.computed,
        s.computed > s.span ==> s.left() == 0,
        s.opening().len() == s.span,
        s.opening() == (s.prompt + s.output).take(s.span),
{
}

/// A move stamps the first scheduling, once, and changes nothing else but the
/// state.
pub proof fn law_a_move_changes_the_state_alone(s: SequenceModel, next: SequenceState, now: u64)
    ensures
        s.moved(next, now).state == next,
        next is Prefilling && s.timings.first_scheduled_at is None ==> s.moved(
            next,
            now,
        ).timings.first_scheduled_at == Some(now),
        s.timings.first_scheduled_at is Some ==> s.moved(next, now).timings == s.timings,
        !(next is Prefilling) ==> s.moved(next, now).timings == s.timings,
        s.moved(next, now).timings.arrived_at == s.timings.arrived_at,
        s.moved(next, now).computed == s.computed,
        s.moved(next, now).prompt == s.prompt,
        s.moved(next, now).output == s.output,
{
}

/// The time between two points is their distance, and none where the second is
/// not later.
pub proof fn law_elapsed_is_a_distance(earlier: u64, later: u64)
    ensures
        earlier <= later ==> earlier + elapsed(earlier, later) == later,
        later <= earlier ==> elapsed(earlier, later) == 0,
{
}

/// The names of the states, and of the reasons to end as clients know them.
pub proof fn law_names_of_states_and_reasons(text: String)
    ensures
        SequenceState::Waiting.label() == "waiting"@,
        SequenceState::Prefilling.label() == "prefilling"@,
        SequenceState::Decoding.label() == "decoding"@,
        SequenceState::Finished.label() == "finished"@,
        FinishReason::Stop.api_label() == "stop"@,
        FinishReason::StopSequence(text).api_label() == "stop"@,
        FinishReason::Length.api_label() == "length"@,
        FinishReason::Cancelled.api_label() == "cancelled"@,
        FinishReason::Timeout.api_label() == "timeout"@,
        FinishReason::Error(text).api_label() == "error"@,
{
}

} // verus!
