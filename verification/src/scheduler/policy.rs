//! The scheduling policy as mathematics: what one step makes of the queues and
//! the cache.
//!
//! 1. Decode first (when `prioritize_decode`): running sequences get their one
//!    token each, which keeps inter-token latency smooth.
//! 2. Prefill with what remains: prompts that were started are continued, then
//!    waiting sequences are admitted into the leftover token budget, chunked
//!    if enabled.

use crate::config::SchedulerConfig;
use crate::id::{SequenceId, TokenId};
use crate::scheduler::cache::KvCacheManagerLike;
use crate::scheduler::queue::{finished, position, queued, unfinished};
use crate::sequence::{elapsed, FinishReason, SequenceModel, SequenceState};
use vstd::prelude::*;

verus! {

/// What one sequence contributes to a step.
#[derive(Debug, Clone, Copy, PartialEq, Eq, Structural)]
pub struct ScheduledSequence {
    pub id: SequenceId,
    /// Tokens this sequence submits this step: `1` for decode; for prefill the
    /// whole remaining prompt, or a chunk of it.
    pub num_tokens: usize,
    /// Position of this sequence's first submitted token.
    pub start_position: usize,
    /// Whether this is prefill work rather than a decode step.
    pub is_prefill: bool,
}

/// The tokens of a batch.
pub open spec fn batched_tokens(batch: Seq<ScheduledSequence>) -> int
    decreases batch.len(),
{
    if batch.len() == 0 {
        0
    } else {
        batched_tokens(batch.drop_last()) + batch.last().num_tokens
    }
}

/// The tokens of those entries of a batch that are, or are not, prefill work.
pub open spec fn tokens_by_kind(batch: Seq<ScheduledSequence>, prefill: bool) -> int
    decreases batch.len(),
{
    if batch.len() == 0 {
        0
    } else {
        tokens_by_kind(batch.drop_last(), prefill) + if batch.last().is_prefill == prefill {
            batch.last().num_tokens as int
        } else {
            0
        }
    }
}

/// The number of entries of a batch that are, or are not, prefill work.
pub open spec fn count_by_kind(batch: Seq<ScheduledSequence>, prefill: bool) -> int
    decreases batch.len(),
{
    if batch.len() == 0 {
        0
    } else {
        count_by_kind(batch.drop_last(), prefill) + if batch.last().is_prefill == prefill {
            1int
        } else {
            0
        }
    }
}

/// The queues, the cache and the batch in the middle of a step.
pub ghost struct Pass<C: KvCacheManagerLike> {
    pub waiting: Seq<SequenceModel>,
    pub running: Seq<SequenceModel>,
    pub cache: C::Model,
    pub scheduled: Seq<ScheduledSequence>,
    pub preempted: Seq<SequenceId>,
    pub used: int,
}

/// A sequence as preemption leaves it: back to waiting, where it was at work.
pub open spec fn put_back(s: SequenceModel) -> SequenceModel {
    if s.state is Prefilling || s.state is Decoding {
        s.suspended()
    } else {
        s
    }
}

/// A sequence after a chunk of tokens was scheduled at `now`: it enters
/// `Prefilling`, and `Decoding` once its chunks are fully consumed.
pub open spec fn prefill_chunk(s: SequenceModel, chunk: int, now: u64) -> SequenceModel {
    let advanced = s.prefilled(chunk);
    let started = if advanced.state is Waiting {
        advanced.moved(SequenceState::Prefilling, now)
    } else {
        advanced
    };
    turned_decoder(started, now)
}

/// A sequence that becomes a decoder where its chunks are fully consumed.
pub open spec fn turned_decoder(s: SequenceModel, now: u64) -> SequenceModel {
    if s.left() == 0 && s.state.allows(SequenceState::Decoding) {
        s.moved(SequenceState::Decoding, now)
    } else {
        s
    }
}

/// Where a decoder's next token stands: behind its history, or, where
/// generated tokens have to be computed again after a restart, at the first of
/// these.
pub open spec fn next_position(s: SequenceModel) -> int {
    if s.remaining() > 0 {
        s.computed
    } else {
        s.total() as int
    }
}

/// The running sequences after a decode step of `id`: a token that had to be
/// computed again has been.
pub open spec fn caught_up(running: Seq<SequenceModel>, id: SequenceId) -> Seq<SequenceModel> {
    let p = position(running, id);
    if p < running.len() && running[p].state is Decoding && running[p].remaining() > 0 {
        running.update(p, running[p].prefilled(1))
    } else {
        running
    }
}

/// The running sequences that decode, each with the position of its next
/// token.
pub open spec fn decoders(running: Seq<SequenceModel>) -> Seq<(SequenceId, usize)>
    decreases running.len(),
{
    if running.len() == 0 {
        seq![]
    } else {
        let front = decoders(running.drop_last());
        let s = running.last();
        if s.state is Decoding {
            front.push((s.id, next_position(s) as usize))
        } else {
            front
        }
    }
}

/// The running sequences whose chunks were started and are not complete, each
/// with the tokens done and the tokens left.
pub open spec fn partials(running: Seq<SequenceModel>) -> Seq<(SequenceId, usize, usize)>
    decreases running.len(),
{
    if running.len() == 0 {
        seq![]
    } else {
        let front = partials(running.drop_last());
        let s = running.last();
        if s.state is Prefilling && s.left() > 0 {
            front.push((s.id, s.computed as usize, s.left() as usize))
        } else {
            front
        }
    }
}

/// How many of `remaining` prompt tokens are scheduled into `room`, if any:
/// all of them, or what fits where prompts are chunked.
pub open spec fn chunk_of(chunked: bool, remaining: int, room: int) -> int {
    if remaining <= room {
        remaining
    } else if chunked {
        room
    } else {
        0
    }
}

/// Counters describing scheduler behaviour over time. They wrap around at
/// `u64::MAX`.
#[derive(Debug, Clone, Copy, PartialEq, Eq, Structural)]
pub struct SchedulerStats {
    pub total_steps: u64,
    /// Steps that scheduled anything.
    pub busy_steps: u64,
    pub total_admitted: u64,
    pub total_finished: u64,
    pub total_preempted: u64,
    pub total_rejected: u64,
    pub total_batched_tokens: u64,
    pub total_prefill_tokens: u64,
    pub total_decode_tokens: u64,
}

/// What a scheduler holds.
pub ghost struct SchedulerModel<C: KvCacheManagerLike> {
    pub config: SchedulerConfig,
    pub waiting: Seq<SequenceModel>,
    pub running: Seq<SequenceModel>,
    pub cache: C::Model,
    pub stats: SchedulerStats,
}

/// Whether every sequence of a queue is well formed.
pub open spec fn all_wf(queue: Seq<SequenceModel>) -> bool {
    forall|i: int| 0 <= i < queue.len() ==> (#[trigger] queue[i]).wf()
}

/// Why a sequence that just got `token` stops, if it does: at a stop token
/// once the minimum is reached, or at its maximum.
pub open spec fn stop_after(s: SequenceModel, token: TokenId, eos: Seq<TokenId>) -> Option<
    FinishReason,
> {
    let stops = eos.contains(token) || s.params.stop_token_ids@.contains(token);
    if stops && s.output.len() >= s.params.min_tokens {
        Some(FinishReason::Stop)
    } else if s.output.len() >= s.params.max_tokens {
        Some(FinishReason::Length)
    } else {
        None
    }
}

/// Whether a sequence is older than `limit_secs` seconds.
pub open spec fn overdue(s: SequenceModel, limit_secs: u64, now: u64) -> bool {
    elapsed(s.timings.arrived_at, now) > limit_secs * 1_000_000_000
}

/// The cache after each of the sequences gave back its blocks, in order.
pub open spec fn freeing<C: KvCacheManagerLike>(
    cache: C::Model,
    sequences: Seq<SequenceModel>,
) -> C::Model
    decreases sequences.len(),
{
    if sequences.len() == 0 {
        cache
    } else {
        C::after_free(freeing::<C>(cache, sequences.drop_last()), sequences.last().id@)
    }
}

/// The overdue sequences of a queue, in order.
pub open spec fn overdue_of(queue: Seq<SequenceModel>, limit_secs: u64, now: u64) -> Seq<
    SequenceModel,
> {
    queue.filter(|s: SequenceModel| overdue(s, limit_secs, now))
}

/// The other sequences of a queue, in order.
pub open spec fn in_time(queue: Seq<SequenceModel>, limit_secs: u64, now: u64) -> Seq<
    SequenceModel,
> {
    queue.filter(|s: SequenceModel| !overdue(s, limit_secs, now))
}

/// The ids of a queue, in order.
pub open spec fn ids_of(queue: Seq<SequenceModel>) -> Seq<SequenceId> {
    queue.map_values(|s: SequenceModel| s.id)
}

impl<C: KvCacheManagerLike> SchedulerModel<C> {
    pub open spec fn wf(self) -> bool {
        &&& C::valid(self.cache)
        &&& all_wf(self.waiting)
        &&& all_wf(self.running)
    }

    /// The longest history a sequence may come to have.
    pub open spec fn context_len(self) -> usize {
        match self.config.max_model_len {
            Some(n) => n,
            None => usize::MAX,
        }
    }

    /// The state at the beginning of a step.
    pub open spec fn begin(self) -> Pass<C> {
        Pass {
            waiting: self.waiting,
            running: self.running,
            cache: self.cache,
            scheduled: seq![],
            preempted: seq![],
            used: 0,
        }
    }

    /// What a step makes of the queues and the cache.
    pub open spec fn planned(self, now: u64) -> Pass<C> {
        let budget = self.config.max_num_batched_tokens as int;
        if self.config.prioritize_decode {
            self.begin().decode(decoders(self.running), budget).prefill(self.config, now)
        } else {
            let first = self.begin().prefill(self.config, now);
            first.decode(decoders(first.running), budget)
        }
    }

    /// The scheduler after a step.
    pub open spec fn stepped(self, now: u64) -> SchedulerModel<C> {
        let p = self.planned(now);
        SchedulerModel {
            waiting: p.waiting,
            running: p.running,
            cache: p.cache,
            stats: SchedulerStats {
                total_steps: self.stats.total_steps.wrapping_add(1),
                busy_steps: if p.scheduled.len() > 0 {
                    self.stats.busy_steps.wrapping_add(1)
                } else {
                    self.stats.busy_steps
                },
                total_preempted: self.stats.total_preempted.wrapping_add(
                    p.preempted.len() as u64,
                ),
                total_batched_tokens: self.stats.total_batched_tokens.wrapping_add(
                    batched_tokens(p.scheduled) as u64,
                ),
                total_prefill_tokens: self.stats.total_prefill_tokens.wrapping_add(
                    tokens_by_kind(p.scheduled, true) as u64,
                ),
                total_decode_tokens: self.stats.total_decode_tokens.wrapping_add(
                    tokens_by_kind(p.scheduled, false) as u64,
                ),
                ..self.stats
            },
            ..self
        }
    }

    /// The scheduler after a refused request.
    pub open spec fn counting_rejection(self) -> SchedulerModel<C> {
        SchedulerModel {
            stats: SchedulerStats {
                total_rejected: self.stats.total_rejected.wrapping_add(1),
                ..self.stats
            },
            ..self
        }
    }

    /// The scheduler after an accepted request.
    pub open spec fn accepting(self, s: SequenceModel) -> SchedulerModel<C> {
        SchedulerModel {
            waiting: self.waiting.push(s),
            stats: SchedulerStats {
                total_admitted: self.stats.total_admitted.wrapping_add(1),
                ..self.stats
            },
            ..self
        }
    }

    /// The scheduler after a cancellation.
    pub open spec fn cancelling(self, id: SequenceId) -> SchedulerModel<C> {
        let w = position(self.waiting, id);
        let r = position(self.running, id);
        if w < self.waiting.len() {
            SchedulerModel { waiting: self.waiting.remove(w), ..self }
        } else if r < self.running.len() {
            SchedulerModel {
                running: self.running.remove(r),
                cache: C::after_free(self.cache, id@),
                ..self
            }
        } else {
            self
        }
    }

    /// The scheduler after a generated token of a running sequence.
    pub open spec fn receiving(
        self,
        id: SequenceId,
        token: TokenId,
        eos: Seq<TokenId>,
        now: u64,
    ) -> SchedulerModel<C> {
        let p = position(self.running, id);
        let grown = self.running[p].grown(token, now);
        let s = match stop_after(grown, token, eos) {
            Some(reason) => grown.ended(reason, now),
            None => grown,
        };
        SchedulerModel { running: self.running.update(p, s), ..self }
    }

    /// The scheduler after its finished sequences were retired.
    pub open spec fn reaped(self) -> SchedulerModel<C> {
        let done = finished(self.running);
        SchedulerModel {
            running: unfinished(self.running),
            cache: freeing::<C>(self.cache, done),
            stats: SchedulerStats {
                total_finished: self.stats.total_finished.wrapping_add(done.len() as u64),
                ..self.stats
            },
            ..self
        }
    }

    /// The scheduler after its overdue sequences were terminated: running ones
    /// are finished, waiting ones are dropped.
    pub open spec fn expired(self, now: u64) -> SchedulerModel<C> {
        match self.config.request_timeout_secs {
            Some(limit) => SchedulerModel {
                running: self.running.map_values(
                    |s: SequenceModel|
                        if overdue(s, limit, now) {
                            s.ended(FinishReason::Timeout, now)
                        } else {
                            s
                        },
                ),
                waiting: in_time(self.waiting, limit, now),
                ..self
            },
            None => self,
        }
    }

    /// The ids that [`Self::expired`] terminates: running ones first.
    pub open spec fn expired_ids(self, now: u64) -> Seq<SequenceId> {
        match self.config.request_timeout_secs {
            Some(limit) => ids_of(overdue_of(self.running, limit, now)) + ids_of(
                overdue_of(self.waiting, limit, now),
            ),
            None => seq![],
        }
    }

    /// The scheduler after a running sequence's complete prompt was published.
    pub open spec fn committing(self, id: SequenceId) -> SchedulerModel<C> {
        let p = position(self.running, id);
        if p < self.running.len() && self.running[p].left() == 0 {
            SchedulerModel {
                cache: C::after_commit(self.cache, id@, self.running[p].opening()),
                ..self
            }
        } else {
            self
        }
    }
}

impl<C: KvCacheManagerLike> Pass<C> {
    /// The step with `entry` added to the batch.
    pub open spec fn granted(self, entry: ScheduledSequence) -> Pass<C> {
        Pass {
            scheduled: self.scheduled.push(entry),
            used: self.used + entry.num_tokens,
            ..self
        }
    }

    /// The newest running sequence evicted to the front of the waiting queue,
    /// its blocks released.
    pub open spec fn evict(self) -> Pass<C> {
        let victim = self.running.last();
        Pass {
            running: self.running.drop_last(),
            waiting: seq![put_back(victim)] + self.waiting,
            cache: C::after_free(self.cache, victim.id@),
            preempted: self.preempted.push(victim.id),
            ..self
        }
    }

    /// Whether a sequence runs that the cache has no room to grow for.
    pub open spec fn is_stuck(self, id: SequenceId) -> bool {
        queued(self.running, id) && !C::appends(self.cache, id@)
    }

    /// One more token for a running sequence, where the cache has room for it;
    /// else only what the attempt makes of the cache. A sequence that does not
    /// run is passed over.
    pub open spec fn try_decode(self, id: SequenceId, at: usize) -> Pass<C> {
        let tried = Pass { cache: C::after_append(self.cache, id@), ..self };
        if !queued(self.running, id) {
            self
        } else if C::appends(self.cache, id@) {
            Pass { running: caught_up(self.running, id), ..tried }.granted(
                ScheduledSequence { id, num_tokens: 1, start_position: at, is_prefill: false },
            )
        } else {
            tried
        }
    }

    /// One token for each of the candidates that still runs, within the budget.
    /// Where the cache is full, the newest running sequence is evicted and the
    /// candidate, unless it was the victim, tried once more.
    pub open spec fn decode(self, candidates: Seq<(SequenceId, usize)>, budget: int) -> Pass<C>
        decreases candidates.len(),
    {
        if candidates.len() == 0 || self.used >= budget {
            self
        } else {
            let (id, at) = candidates[0];
            let rest = candidates.drop_first();
            let tried = self.try_decode(id, at);
            if self.is_stuck(id) {
                tried.evict().try_decode(id, at).decode(rest, budget)
            } else {
                tried.decode(rest, budget)
            }
        }
    }

    /// Another chunk for each of the started prompts within the budget.
    pub open spec fn continue_prefills(
        self,
        candidates: Seq<(SequenceId, usize, usize)>,
        budget: int,
        chunked: bool,
        now: u64,
    ) -> Pass<C>
        decreases candidates.len(),
    {
        if candidates.len() == 0 || self.used >= budget {
            self
        } else {
            let (id, done, left) = candidates[0];
            let rest = candidates.drop_first();
            let chunk = chunk_of(chunked, left as int, budget - self.used);
            let p = position(self.running, id);
            if chunk == 0 || p >= self.running.len() {
                self.continue_prefills(rest, budget, chunked, now)
            } else {
                Pass {
                    running: self.running.update(
                        p,
                        turned_decoder(self.running[p].prefilled(chunk), now),
                    ),
                    ..self.granted(
                        ScheduledSequence {
                            id,
                            num_tokens: chunk as usize,
                            start_position: done,
                            is_prefill: true,
                        },
                    )
                }.continue_prefills(rest, budget, chunked, now)
            }
        }
    }

    /// The head of the waiting queue as it would be started. Where the cache
    /// has no room for all it has to prefill, the chunks end with the prompt,
    /// and what it had generated follows one token at a time.
    pub open spec fn head(self) -> SequenceModel {
        let next = self.waiting[0];
        if next.computed > 0 {
            next
        } else if C::needs(self.cache, next.target) <= C::available(self.cache) {
            next.spanning(next.target)
        } else {
            next.spanning(next.prompt.len() as int)
        }
    }

    /// Whether the head of the waiting queue can be considered: there is a
    /// batch slot, budget, and a part of its chunks that fits.
    pub open spec fn considers(self, config: SchedulerConfig) -> bool {
        &&& self.running.len() < config.max_num_seqs
        &&& 0 <= self.used < config.max_num_batched_tokens
        &&& self.waiting.len() > 0
        &&& chunk_of(
            config.enable_chunked_prefill,
            self.head().left(),
            config.max_num_batched_tokens - self.used,
        ) > 0
    }

    /// Whether the head of the waiting queue needs blocks that are not free.
    /// Only a prompt that was not started needs any.
    pub open spec fn head_is_blocked(self) -> bool {
        let next = self.head();
        &&& next.computed == 0
        &&& C::needs(self.cache, next.span) > C::available(self.cache)
    }

    /// Whether the cache refuses the blocks all the same.
    pub open spec fn head_is_refused(self) -> bool {
        let next = self.head();
        &&& next.computed == 0
        &&& !C::allocates(self.cache, next.id@, next.opening())
    }

    /// The head of the waiting queue left in its place by a refused
    /// allocation.
    pub open spec fn refuse_head(self) -> Pass<C> {
        let next = self.waiting[0];
        Pass {
            cache: C::after_allocate(self.cache, next.id@, self.head().opening()),
            waiting: seq![put_back(next)] + self.waiting.drop_first(),
            ..self
        }
    }

    /// The head of the waiting queue admitted with as much of its chunks as
    /// fits.
    pub open spec fn admit_head(self, config: SchedulerConfig, now: u64) -> Pass<C> {
        let next = self.head();
        let chunk = chunk_of(
            config.enable_chunked_prefill,
            next.left(),
            config.max_num_batched_tokens - self.used,
        );
        Pass {
            cache: if next.computed == 0 {
                C::after_allocate(self.cache, next.id@, next.opening())
            } else {
                self.cache
            },
            waiting: self.waiting.drop_first(),
            running: self.running.push(prefill_chunk(next, chunk, now)),
            ..self.granted(
                ScheduledSequence {
                    id: next.id,
                    num_tokens: chunk as usize,
                    start_position: next.computed as usize,
                    is_prefill: true,
                },
            )
        }
    }

    /// Waiting sequences admitted in order, as long as there is a batch slot,
    /// budget, and room in the cache. Where the next prompt does not fit the
    /// cache, running sequences are evicted to make room.
    pub open spec fn fill(self, config: SchedulerConfig, now: u64) -> Pass<C>
        decreases config.max_num_batched_tokens - self.used, self.running.len(),
    {
        if !self.considers(config) {
            self
        } else if self.head_is_blocked() {
            if self.running.len() == 0 {
                self
            } else {
                self.evict().fill(config, now)
            }
        } else if self.head_is_refused() {
            self.refuse_head()
        } else {
            self.admit_head(config, now).fill(config, now)
        }
    }

    /// The prefill part of a step: started prompts first, then new ones.
    pub open spec fn prefill(self, config: SchedulerConfig, now: u64) -> Pass<C> {
        self.continue_prefills(
            partials(self.running),
            config.max_num_batched_tokens as int,
            config.enable_chunked_prefill,
            now,
        ).fill(config, now)
    }
}

} // verus!
