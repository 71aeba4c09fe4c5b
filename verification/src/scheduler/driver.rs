//! The continuous batching scheduler.
//!
//! Each engine step, [`Scheduler::schedule`] decides which sequences run and
//! with how many tokens each. Sequences join and leave the batch every step: a
//! finished sequence frees its slot immediately instead of idling while the
//! longest member of its batch catches up.
//!
//! The scheduler asks the cache whether a sequence fits and tells it when to
//! allocate or free, but never touches blocks itself.

use crate::config::SchedulerConfig;
use crate::error::EngineError;
use crate::id::{SequenceId, TokenId};
use crate::ratio::Ratio;
use crate::scheduler::cache::KvCacheManagerLike;
use crate::scheduler::policy::{
    all_wf, batched_tokens, chunk_of, count_by_kind, decoders, freeing, ids_of, overdue, overdue_of,
    caught_up, partials, prefill_chunk, put_back, stop_after, tokens_by_kind, turned_decoder, Pass,
    ScheduledSequence, SchedulerModel, SchedulerStats,
};
use crate::scheduler::queue::{
    finished, lemma_position, marked, models, position, queued, unfinished, RunningQueue,
    WaitingQueue,
};
use crate::sequence::{FinishReason, Sequence, SequenceModel, SequenceState};
use vstd::prelude::*;

verus! {

/// The batch produced by one scheduling pass.
#[derive(Debug, Clone, PartialEq, Eq)]
pub struct SchedulerOutput {
    pub scheduled: Vec<ScheduledSequence>,
    /// Sequences evicted this step to make room. Their blocks are already
    /// freed and they are back on the waiting queue.
    pub preempted: Vec<SequenceId>,
    /// Sequences that reached a terminal state this step.
    pub finished: Vec<(SequenceId, FinishReason)>,
}

impl Default for SchedulerOutput {
    fn default() -> (r: Self)
        ensures
            r.scheduled@ == Seq::<ScheduledSequence>::empty(),
            r.preempted@ == Seq::<SequenceId>::empty(),
            r.finished@ == Seq::<(SequenceId, FinishReason)>::empty(),
    {
        SchedulerOutput { scheduled: Vec::new(), preempted: Vec::new(), finished: Vec::new() }
    }
}

/// Sums over a batch grow with every entry.
proof fn lemma_sums(batch: Seq<ScheduledSequence>, i: int)
    requires
        0 <= i <= batch.len(),
    ensures
        0 <= batched_tokens(batch.take(i)) <= batched_tokens(batch),
        0 <= tokens_by_kind(batch.take(i), true) <= tokens_by_kind(batch, true),
        0 <= tokens_by_kind(batch.take(i), false) <= tokens_by_kind(batch, false),
        0 <= count_by_kind(batch.take(i), true) <= count_by_kind(batch, true),
        0 <= count_by_kind(batch.take(i), false) <= count_by_kind(batch, false),
        tokens_by_kind(batch, true) + tokens_by_kind(batch, false) == batched_tokens(batch),
        count_by_kind(batch, true) + count_by_kind(batch, false) == batch.len(),
    decreases batch.len(),
{
    if batch.len() > 0 {
        if i < batch.len() {
            lemma_sums(batch.drop_last(), i);
            assert(batch.drop_last().take(i) =~= batch.take(i));
        } else {
            assert(batch.take(i) =~= batch);
            lemma_sums(batch.drop_last(), batch.len() - 1);
            assert(batch.drop_last().take(batch.len() - 1) =~= batch.drop_last());
        }
    } else {
        assert(batch.take(i) =~= batch);
    }
}

/// How many entries of the batch are, or are not, prefill work.
fn count_kind(batch: &Vec<ScheduledSequence>, prefill: bool) -> (r: usize)
    ensures
        r == count_by_kind(batch@, prefill),
{
    let mut n: usize = 0;
    let mut i: usize = 0;
    proof {
        assert(batch@.take(0) =~= seq![]);
    }
    while i < batch.len()
        invariant
            i <= batch@.len(),
            n == count_by_kind(batch@.take(i as int), prefill),
            n <= i,
        decreases batch@.len() - i,
    {
        proof {
            assert(batch@.take(i + 1).drop_last() =~= batch@.take(i as int));
        }
        if batch[i].is_prefill == prefill {
            n += 1;
        }
        i += 1;
    }
    proof {
        assert(batch@.take(batch@.len() as int) =~= batch@);
    }
    n
}

/// The tokens of the entries of the batch that are, or are not, prefill work.
fn sum_kind(batch: &Vec<ScheduledSequence>, prefill: bool) -> (r: usize)
    requires
        batched_tokens(batch@) <= usize::MAX,
    ensures
        r == tokens_by_kind(batch@, prefill),
{
    let mut n: usize = 0;
    let mut i: usize = 0;
    proof {
        assert(batch@.take(0) =~= seq![]);
        lemma_sums(batch@, 0);
    }
    while i < batch.len()
        invariant
            i <= batch@.len(),
            tokens_by_kind(batch@, prefill) <= usize::MAX,
            n == tokens_by_kind(batch@.take(i as int), prefill),
        decreases batch@.len() - i,
    {
        proof {
            lemma_sums(batch@, i + 1);
            assert(batch@.take(i + 1).drop_last() =~= batch@.take(i as int));
        }
        if batch[i].is_prefill == prefill {
            n += batch[i].num_tokens;
        }
        i += 1;
    }
    proof {
        assert(batch@.take(batch@.len() as int) =~= batch@);
    }
    n
}

impl SchedulerOutput {
    pub fn is_empty(&self) -> (r: bool)
        ensures
            r == (self.scheduled@.len() == 0),
    {
        self.scheduled.len() == 0
    }

    /// Total tokens in the batch: what the token budget bounds.
    pub fn num_batched_tokens(&self) -> (r: usize)
        requires
            batched_tokens(self.scheduled@) <= usize::MAX,
        ensures
            r == batched_tokens(self.scheduled@),
    {
        proof {
            lemma_sums(self.scheduled@, 0);
        }
        sum_kind(&self.scheduled, true) + sum_kind(&self.scheduled, false)
    }

    pub fn num_sequences(&self) -> (r: usize)
        ensures
            r == self.scheduled@.len(),
    {
        self.scheduled.len()
    }

    pub fn num_prefill_sequences(&self) -> (r: usize)
        ensures
            r == count_by_kind(self.scheduled@, true),
    {
        count_kind(&self.scheduled, true)
    }

    pub fn num_decode_sequences(&self) -> (r: usize)
        ensures
            r == count_by_kind(self.scheduled@, false),
    {
        count_kind(&self.scheduled, false)
    }

    /// Whether the batch mixes prefill and decode work.
    pub fn is_mixed(&self) -> (r: bool)
        ensures
            r == (count_by_kind(self.scheduled@, true) > 0 && count_by_kind(
                self.scheduled@,
                false,
            ) > 0),
    {
        self.num_prefill_sequences() > 0 && self.num_decode_sequences() > 0
    }
}

impl Default for SchedulerStats {
    fn default() -> (r: Self)
        ensures
            r == SchedulerStats::none(),
    {
        SchedulerStats {
            total_steps: 0,
            busy_steps: 0,
            total_admitted: 0,
            total_finished: 0,
            total_preempted: 0,
            total_rejected: 0,
            total_batched_tokens: 0,
            total_prefill_tokens: 0,
            total_decode_tokens: 0,
        }
    }
}

impl SchedulerStats {
    /// Nothing counted yet.
    pub open spec fn none() -> SchedulerStats {
        SchedulerStats {
            total_steps: 0,
            busy_steps: 0,
            total_admitted: 0,
            total_finished: 0,
            total_preempted: 0,
            total_rejected: 0,
            total_batched_tokens: 0,
            total_prefill_tokens: 0,
            total_decode_tokens: 0,
        }
    }

    /// Mean batch size in tokens across all non-empty steps; zero before the
    /// first.
    pub fn mean_batch_tokens(&self) -> (r: Ratio)
        ensures
            r == Ratio::spec_of(self.total_batched_tokens, self.busy_steps),
    {
        Ratio::of(self.total_batched_tokens, self.busy_steps)
    }
}

/// Continuous batching scheduler, over any cache that keeps the accounts.
#[derive(Debug)]
pub struct Scheduler<C: KvCacheManagerLike> {
    config: SchedulerConfig,
    waiting: WaitingQueue,
    running: RunningQueue,
    cache: C,
    stats: SchedulerStats,
}

impl<C: KvCacheManagerLike> View for Scheduler<C> {
    type V = SchedulerModel<C>;

    closed spec fn view(&self) -> SchedulerModel<C> {
        SchedulerModel {
            config: self.config,
            waiting: self.waiting@,
            running: self.running@,
            cache: self.cache.model(),
            stats: self.stats,
        }
    }
}

/// The smaller of a prompt's rest and the room for it, or nothing where the
/// rest must fit whole and does not.
fn chunk_size(chunked: bool, remaining: usize, room: usize) -> (r: usize)
    ensures
        r == chunk_of(chunked, remaining as int, room as int),
{
    if remaining <= room {
        remaining
    } else if chunked {
        room
    } else {
        0
    }
}

/// The running decoders, each with the position of its next token.
fn collect_decoders(running: &RunningQueue) -> (r: Vec<(SequenceId, usize)>)
    requires
        all_wf(running@),
    ensures
        r@ == decoders(running@),
{
    let items = running.iter();
    let mut out: Vec<(SequenceId, usize)> = Vec::new();
    let mut i: usize = 0;
    proof {
        assert(running@.take(0) =~= seq![]);
        assert(out@ =~= decoders(running@.take(0)));
    }
    while i < items.len()
        invariant
            i <= items@.len() == running@.len(),
            all_wf(running@),
            forall|k: int| 0 <= k < items@.len() ==> (#[trigger] items@[k])@ == running@[k],
            out@ == decoders(running@.take(i as int)),
        decreases items@.len() - i,
    {
        let s = items[i];
        proof {
            assert(running@[i as int].wf());
            assert(running@.take(i + 1).drop_last() =~= running@.take(i as int));
            assert(running@.take(i + 1).last() == s@);
        }
        if s.state() == SequenceState::Decoding {
            if s.is_prefill_complete() {
                out.push((s.id(), s.total_len()));
            } else {
                out.push((s.id(), s.computed_prefix_len()));
            }
        }
        i += 1;
    }
    proof {
        assert(running@.take(running@.len() as int) =~= running@);
    }
    out
}

/// The running sequences with an incomplete prompt, each with the tokens done
/// and left.
fn collect_partials(running: &RunningQueue) -> (r: Vec<(SequenceId, usize, usize)>)
    requires
        all_wf(running@),
    ensures
        r@ == partials(running@),
{
    let items = running.iter();
    let mut out: Vec<(SequenceId, usize, usize)> = Vec::new();
    let mut i: usize = 0;
    proof {
        assert(running@.take(0) =~= seq![]);
        assert(out@ =~= partials(running@.take(0)));
    }
    while i < items.len()
        invariant
            i <= items@.len() == running@.len(),
            all_wf(running@),
            forall|k: int| 0 <= k < items@.len() ==> (#[trigger] items@[k])@ == running@[k],
            out@ == partials(running@.take(i as int)),
        decreases items@.len() - i,
    {
        let s = items[i];
        proof {
            assert(running@[i as int].wf());
            assert(running@.take(i + 1).drop_last() =~= running@.take(i as int));
            assert(running@.take(i + 1).last() == s@);
        }
        if s.state() == SequenceState::Prefilling && s.remaining_chunks() > 0 {
            out.push((s.id(), s.computed_prefix_len(), s.remaining_chunks()));
        }
        i += 1;
    }
    proof {
        assert(running@.take(running@.len() as int) =~= running@);
    }
    out
}

proof fn lemma_granted_sum(batch: Seq<ScheduledSequence>, e: ScheduledSequence)
    ensures
        batched_tokens(batch.push(e)) == batched_tokens(batch) + e.num_tokens,
{
    assert(batch.push(e).drop_last() =~= batch);
}

impl<C: KvCacheManagerLike> Scheduler<C> {
    pub open spec fn wf(&self) -> bool {
        self@.wf()
    }

    /// The step so far.
    closed spec fn pass(&self, out: SchedulerOutput, used: usize) -> Pass<C> {
        Pass {
            waiting: self.waiting@,
            running: self.running@,
            cache: self.cache.model(),
            scheduled: out.scheduled@,
            preempted: out.preempted@,
            used: used as int,
        }
    }

    pub fn new(config: SchedulerConfig, cache: C) -> (r: Self)
        ensures
            r@ == (SchedulerModel::<C> {
                config,
                waiting: seq![],
                running: seq![],
                cache: cache.model(),
                stats: SchedulerStats::none(),
            }),
            C::valid(cache.model()) ==> r.wf(),
    {
        Scheduler {
            config,
            waiting: WaitingQueue::new(),
            running: RunningQueue::new(),
            cache,
            stats: SchedulerStats::default(),
        }
    }

    pub fn config(&self) -> (r: &SchedulerConfig)
        ensures
            *r == self@.config,
    {
        &self.config
    }

    pub fn stats(&self) -> (r: SchedulerStats)
        ensures
            r == self@.stats,
    {
        self.stats
    }

    pub fn cache(&self) -> (r: &C)
        ensures
            r.model() == self@.cache,
    {
        &self.cache
    }

    /// Mutable access to the cache, for simulations that inject failures.
    pub fn cache_mut(&mut self) -> (r: &mut C)
        ensures
            r.model() == old(self)@.cache,
            final(self)@ == (SchedulerModel { cache: final(r).model(), ..old(self)@ }),
    {
        &mut self.cache
    }

    pub fn num_waiting(&self) -> (r: usize)
        ensures
            r == self@.waiting.len(),
    {
        self.waiting.len()
    }

    pub fn num_running(&self) -> (r: usize)
        ensures
            r == self@.running.len(),
    {
        self.running.len()
    }

    /// Whether any work is outstanding.
    pub fn has_work(&self) -> (r: bool)
        ensures
            r == (self@.waiting.len() > 0 || self@.running.len() > 0),
    {
        !self.waiting.is_empty() || !self.running.is_empty()
    }

    fn max_model_len(&self) -> (r: usize)
        ensures
            r == self@.context_len(),
    {
        match self.config.max_model_len {
            Some(n) => n,
            None => usize::MAX,
        }
    }

    fn count_rejection(&mut self)
        ensures
            final(self)@ == old(self)@.counting_rejection(),
    {
        self.stats.total_rejected = self.stats.total_rejected.wrapping_add(1);
    }

    /// Admits a request, or rejects it if the engine is over its limits.
    ///
    /// Refusing here, immediately, is far better than accepting unbounded work
    /// and timing everything out later. A prompt that could never fit the
    /// whole cache is refused too: it would block the queue head forever.
    pub fn add_request(&mut self, seq: Sequence) -> (r: Result<SequenceId, EngineError>)
        requires
            old(self).wf(),
            seq.wf(),
        ensures
            final(self).wf(),
            ({
                let s = seq@;
                let wanted = s.prompt.len() + s.params.max_tokens;
                let blocks = C::needs(old(self)@.cache, s.prompt.len() as int);
                match r {
                    Ok(id) => {
                        &&& id == s.id
                        &&& old(self)@.waiting.len() < old(self)@.config.max_waiting_requests
                        &&& wanted <= old(self)@.context_len()
                        &&& blocks <= C::capacity(old(self)@.cache)
                        &&& final(self)@ == old(self)@.accepting(s)
                    },
                    Err(e) => {
                        &&& final(self)@ == old(self)@.counting_rejection()
                        &&& if old(self)@.waiting.len()
                            >= old(self)@.config.max_waiting_requests {
                            e == (EngineError::QueueFull {
                                queued: old(self)@.waiting.len() as usize,
                                limit: old(self)@.config.max_waiting_requests,
                            })
                        } else if wanted > old(self)@.context_len() {
                            e == (EngineError::ContextLengthExceeded {
                                prompt_tokens: s.prompt.len() as usize,
                                max_tokens: s.params.max_tokens,
                                context_len: old(self)@.context_len(),
                            })
                        } else {
                            &&& blocks > C::capacity(old(self)@.cache)
                            &&& e == (EngineError::CacheExhausted {
                                needed: blocks as usize,
                                available: C::capacity(old(self)@.cache) as usize,
                            })
                        }
                    },
                }
            }),
    {
        if self.waiting.len() >= self.config.max_waiting_requests {
            self.count_rejection();
            return Err(
                EngineError::QueueFull {
                    queued: self.waiting.len(),
                    limit: self.config.max_waiting_requests,
                },
            );
        }
        let max_len: usize = self.max_model_len();
        let prompt_tokens: usize = seq.prompt_len();
        let max_tokens: usize = seq.params().max_tokens;
        if prompt_tokens > max_len || max_tokens > max_len - prompt_tokens {
            self.count_rejection();
            return Err(
                EngineError::ContextLengthExceeded {
                    prompt_tokens,
                    max_tokens,
                    context_len: max_len,
                },
            );
        }
        let blocks: usize = self.cache.blocks_needed_for(prompt_tokens);
        let total: usize = self.cache.total_blocks();
        if blocks > total {
            self.count_rejection();
            return Err(EngineError::CacheExhausted { needed: blocks, available: total });
        }
        let id = seq.id();
        let ghost before = self@;
        self.waiting.push_back(seq);
        self.stats.total_admitted = self.stats.total_admitted.wrapping_add(1);
        proof {
            assert forall|i: int| 0 <= i < self@.waiting.len() implies (
            #[trigger] self@.waiting[i]).wf() by {
                if i < before.waiting.len() {
                    assert(before.waiting[i].wf());
                }
            }
        }
        Ok(id)
    }

    /// Cancels a request wherever it currently sits.
    ///
    /// Returns `true` if it was found. Cache blocks are released on the running
    /// path; a waiting sequence holds none. It is safe to call at any time,
    /// including for a sequence that finished a moment ago.
    pub fn cancel(&mut self, id: SequenceId) -> (r: bool)
        requires
            old(self).wf(),
        ensures
            final(self).wf(),
            r == (queued(old(self)@.waiting, id) || queued(old(self)@.running, id)),
            final(self)@ == old(self)@.cancelling(id),
    {
        let ghost before = self@;
        proof {
            lemma_position(before.waiting, id);
            lemma_position(before.running, id);
        }
        if self.waiting.remove(id).is_some() {
            proof {
                lemma_remove_wf(before.waiting, position(before.waiting, id));
            }
            return true;
        }
        if self.running.remove(id).is_some() {
            self.cache.free(id);
            proof {
                lemma_remove_wf(before.running, position(before.running, id));
            }
            return true;
        }
        false
    }

    /// Builds the batch for one engine step.
    pub fn schedule(&mut self, now: u64) -> (r: SchedulerOutput)
        requires
            old(self).wf(),
        ensures
            final(self).wf(),
            final(self)@ == old(self)@.stepped(now),
            r.scheduled@ == old(self)@.planned(now).scheduled,
            r.preempted@ == old(self)@.planned(now).preempted,
            r.finished@.len() == 0,
            batched_tokens(r.scheduled@) <= old(self)@.config.max_num_batched_tokens,
    {
        let ghost s0 = self@;
        let mut out = SchedulerOutput::default();
        let budget: usize = self.config.max_num_batched_tokens;
        let mut used: usize = 0;
        if self.config.prioritize_decode {
            self.schedule_decodes(&mut out, budget, &mut used);
            self.schedule_prefills(&mut out, budget, &mut used, now);
        } else {
            self.schedule_prefills(&mut out, budget, &mut used, now);
            self.schedule_decodes(&mut out, budget, &mut used);
        }
        proof {
            assert(self.pass(out, used) == s0.planned(now));
            lemma_sums(out.scheduled@, 0);
        }
        let prefill: usize = sum_kind(&out.scheduled, true);
        let decode: usize = sum_kind(&out.scheduled, false);
        self.stats.total_steps = self.stats.total_steps.wrapping_add(1);
        if out.scheduled.len() > 0 {
            self.stats.busy_steps = self.stats.busy_steps.wrapping_add(1);
        }
        self.stats.total_preempted = self.stats.total_preempted.wrapping_add(
            out.preempted.len() as u64,
        );
        self.stats.total_batched_tokens = self.stats.total_batched_tokens.wrapping_add(
            (prefill + decode) as u64,
        );
        self.stats.total_prefill_tokens = self.stats.total_prefill_tokens.wrapping_add(
            prefill as u64,
        );
        self.stats.total_decode_tokens = self.stats.total_decode_tokens.wrapping_add(
            decode as u64,
        );
        out
    }

    /// One more token for a running sequence, where the cache has room for it.
    /// Returns whether it has; a sequence that does not run needs none.
    fn try_decode(
        &mut self,
        out: &mut SchedulerOutput,
        used: &mut usize,
        id: SequenceId,
        at: usize,
    ) -> (r: bool)
        requires
            old(self).wf(),
            *old(used) < usize::MAX,
            batched_tokens(old(out).scheduled@) == *old(used),
        ensures
            final(self).wf(),
            final(self)@.config == old(self)@.config,
            final(self)@.stats == old(self)@.stats,
            final(out).finished == old(out).finished,
            batched_tokens(final(out).scheduled@) == *final(used),
            *final(used) <= *old(used) + 1,
            r == !old(self).pass(*old(out), *old(used)).is_stuck(id),
            final(self).pass(*final(out), *final(used)) == old(self).pass(
                *old(out),
                *old(used),
            ).try_decode(id, at),
    {
        if self.running.get(id).is_none() {
            return true;
        }
        match self.cache.append_token(id) {
            Ok(()) => {
                let entry = ScheduledSequence {
                    id,
                    num_tokens: 1,
                    start_position: at,
                    is_prefill: false,
                };
                proof {
                    lemma_granted_sum(out.scheduled@, entry);
                }
                out.scheduled.push(entry);
                *used = *used + 1;
                self.catch_up(id);
                true
            },
            Err(_) => false,
        }
    }

    /// Records that a decoder's next token was computed again, where it had to
    /// be.
    fn catch_up(&mut self, id: SequenceId)
        requires
            old(self).wf(),
        ensures
            final(self).wf(),
            final(self)@ == (SchedulerModel {
                running: caught_up(old(self)@.running, id),
                ..old(self)@
            }),
    {
        let ghost before = self@;
        let ghost p = position(before.running, id);
        proof {
            lemma_position(before.running, id);
        }
        let behind: bool = match self.running.get(id) {
            Some(s) => {
                proof {
                    assert(before.running[p].wf());
                }
                s.state() == SequenceState::Decoding && !s.is_prefill_complete()
            },
            None => false,
        };
        if behind {
            match self.running.get_mut(id) {
                Some(seq) => {
                    seq.advance_prefill(1);
                },
                None => {},
            }
            proof {
                lemma_update_wf(before.running, p, before.running[p].prefilled(1));
            }
        }
    }

    /// Gives one token to each running sequence, preempting when the cache
    /// cannot grow to accommodate them.
    fn schedule_decodes(&mut self, out: &mut SchedulerOutput, budget: usize, used: &mut usize)
        requires
            old(self).wf(),
            *old(used) <= budget,
            batched_tokens(old(out).scheduled@) == *old(used),
        ensures
            final(self).wf(),
            final(self)@.config == old(self)@.config,
            final(self)@.stats == old(self)@.stats,
            final(out).finished == old(out).finished,
            *final(used) <= budget,
            batched_tokens(final(out).scheduled@) == *final(used),
            final(self).pass(*final(out), *final(used)) == old(self).pass(
                *old(out),
                *old(used),
            ).decode(decoders(old(self)@.running), budget as int),
    {
        let candidates = collect_decoders(&self.running);
        let ghost start = self.pass(*out, *used);
        let ghost all = candidates@;
        let mut i: usize = 0;
        proof {
            assert(all.skip(0) =~= all);
        }
        while i < candidates.len() && *used < budget
            invariant
                all == candidates@,
                all == decoders(old(self)@.running),
                start == old(self).pass(*old(out), *old(used)),
                i <= all.len(),
                self.wf(),
                self@.config == old(self)@.config,
                self@.stats == old(self)@.stats,
                out.finished == old(out).finished,
                *used <= budget,
                batched_tokens(out.scheduled@) == *used,
                self.pass(*out, *used).decode(all.skip(i as int), budget as int) == start.decode(
                    all,
                    budget as int,
                ),
            decreases all.len() - i,
        {
            let (id, at) = candidates[i];
            proof {
                assert(all.skip(i as int)[0] == all[i as int]);
                assert(all.skip(i as int).drop_first() =~= all.skip(i + 1));
            }
            if !self.try_decode(out, used, id, at) {
                // The cache is full. Evict the newest running sequence and
                // retry; if the victim is this very sequence, it simply does
                // not run this step.
                self.preempt_one(out, *used);
                self.try_decode(out, used, id, at);
            }
            i += 1;
        }
    }

    /// Evicts the newest running sequence, returning it to the front of the
    /// waiting queue. Returns `false` when nothing can be evicted.
    ///
    /// Prefill progress is discarded; generated tokens are kept: on restart the
    /// prompt is the prompt and the tokens so far, so no output is lost.
    fn preempt_one(&mut self, out: &mut SchedulerOutput, used: usize) -> (r: bool)
        requires
            old(self).wf(),
        ensures
            final(self).wf(),
            final(self)@.config == old(self)@.config,
            final(self)@.stats == old(self)@.stats,
            final(out).finished == old(out).finished,
            final(out).scheduled == old(out).scheduled,
            r == (old(self)@.running.len() > 0),
            final(self).pass(*final(out), used) == if r {
                old(self).pass(*old(out), used).evict()
            } else {
                old(self).pass(*old(out), used)
            },
    {
        let ghost before = self@;
        match self.running.pop_newest() {
            None => false,
            Some(victim) => {
                let mut victim = victim;
                proof {
                    assert(before.running[before.running.len() - 1].wf());
                }
                let id = victim.id();
                self.cache.free(id);
                victim.put_back();
                let ghost v = victim@;
                self.waiting.push_front(victim);
                out.preempted.push(id);
                proof {
                    assert(v == put_back(before.running.last()));
                    lemma_front_wf(v, before.waiting);
                    assert forall|i: int| 0 <= i < self@.running.len() implies (
                    #[trigger] self@.running[i]).wf() by {
                        assert(before.running[i].wf());
                    }
                }
                true
            },
        }
    }

    /// Continues sequences already in `Prefilling` that still have prompt left.
    ///
    /// Under chunked prefill a sequence joins the running set after its first
    /// chunk but is not yet a decoder; without this pass it would stall
    /// forever. Started prompts are resumed before new admissions.
    fn schedule_partial_prefills(
        &mut self,
        out: &mut SchedulerOutput,
        budget: usize,
        used: &mut usize,
        now: u64,
    )
        requires
            old(self).wf(),
            *old(used) <= budget,
            batched_tokens(old(out).scheduled@) == *old(used),
        ensures
            final(self).wf(),
            final(self)@.config == old(self)@.config,
            final(self)@.stats == old(self)@.stats,
            final(out).finished == old(out).finished,
            *final(used) <= budget,
            batched_tokens(final(out).scheduled@) == *final(used),
            final(self).pass(*final(out), *final(used)) == old(self).pass(
                *old(out),
                *old(used),
            ).continue_prefills(
                partials(old(self)@.running),
                budget as int,
                old(self)@.config.enable_chunked_prefill,
                now,
            ),
    {
        let candidates = collect_partials(&self.running);
        let chunked: bool = self.config.enable_chunked_prefill;
        let ghost start = self.pass(*out, *used);
        let ghost all = candidates@;
        let mut i: usize = 0;
        proof {
            assert(all.skip(0) =~= all);
        }
        while i < candidates.len() && *used < budget
            invariant
                all == candidates@,
                all == partials(old(self)@.running),
                start == old(self).pass(*old(out), *old(used)),
                chunked == old(self)@.config.enable_chunked_prefill,
                i <= all.len(),
                self.wf(),
                self@.config == old(self)@.config,
                self@.stats == old(self)@.stats,
                out.finished == old(out).finished,
                *used <= budget,
                batched_tokens(out.scheduled@) == *used,
                self.pass(*out, *used).continue_prefills(
                    all.skip(i as int),
                    budget as int,
                    chunked,
                    now,
                ) == start.continue_prefills(all, budget as int, chunked, now),
            decreases all.len() - i,
        {
            let (id, done, left) = candidates[i];
            let ghost before = self@;
            proof {
                assert(all.skip(i as int)[0] == all[i as int]);
                assert(all.skip(i as int).drop_first() =~= all.skip(i + 1));
                lemma_position(before.running, id);
            }
            let room: usize = budget - *used;
            let chunk: usize = chunk_size(chunked, left, room);
            if chunk > 0 && self.running.get(id).is_some() {
                let ghost p = position(before.running, id);
                proof {
                    assert(before.running[p].wf());
                }
                match self.running.get_mut(id) {
                    Some(seq) => {
                        seq.advance_prefill(chunk);
                        if seq.remaining_chunks() == 0 {
                            let _ = seq.transition_to(SequenceState::Decoding, now);
                        }
                    },
                    None => {},
                }
                let entry = ScheduledSequence {
                    id,
                    num_tokens: chunk,
                    start_position: done,
                    is_prefill: true,
                };
                proof {
                    lemma_granted_sum(out.scheduled@, entry);
                    lemma_update_wf(
                        before.running,
                        p,
                        turned_decoder(before.running[p].prefilled(chunk as int), now),
                    );
                }
                out.scheduled.push(entry);
                *used = *used + chunk;
            }
            i += 1;
        }
    }

    /// Admits waiting sequences into the remaining token budget.
    #[verifier::rlimit(40)]
    fn schedule_prefills(
        &mut self,
        out: &mut SchedulerOutput,
        budget: usize,
        used: &mut usize,
        now: u64,
    )
        requires
            old(self).wf(),
            budget == old(self)@.config.max_num_batched_tokens,
            *old(used) <= budget,
            batched_tokens(old(out).scheduled@) == *old(used),
        ensures
            final(self).wf(),
            final(self)@.config == old(self)@.config,
            final(self)@.stats == old(self)@.stats,
            final(out).finished == old(out).finished,
            *final(used) <= budget,
            batched_tokens(final(out).scheduled@) == *final(used),
            final(self).pass(*final(out), *final(used)) == old(self).pass(
                *old(out),
                *old(used),
            ).prefill(old(self)@.config, now),
    {
        self.schedule_partial_prefills(out, budget, used, now);
        let ghost start = self.pass(*out, *used);
        let ghost config = self@.config;
        let mut open: bool = true;
        while open
            invariant
                config == old(self)@.config,
                budget == config.max_num_batched_tokens,
                self.wf(),
                self@.config == config,
                self@.stats == old(self)@.stats,
                out.finished == old(out).finished,
                *used <= budget,
                batched_tokens(out.scheduled@) == *used,
                start.fill(config, now) == old(self).pass(*old(out), *old(used)).prefill(
                    config,
                    now,
                ),
                if open {
                    self.pass(*out, *used).fill(config, now) == start.fill(config, now)
                } else {
                    self.pass(*out, *used) == start.fill(config, now)
                },
            decreases (if open { 1int } else { 0int }), budget - *used, self@.running.len(),
        {
            open = self.admission_step(out, budget, used, now);
        }
    }

    /// Considers the head of the waiting queue once: makes room for it, or
    /// starts its prompt. Returns whether admission goes on.
    fn admission_step(
        &mut self,
        out: &mut SchedulerOutput,
        budget: usize,
        used: &mut usize,
        now: u64,
    ) -> (r: bool)
        requires
            old(self).wf(),
            budget == old(self)@.config.max_num_batched_tokens,
            *old(used) <= budget,
            batched_tokens(old(out).scheduled@) == *old(used),
        ensures
            final(self).wf(),
            final(self)@.config == old(self)@.config,
            final(self)@.stats == old(self)@.stats,
            final(out).finished == old(out).finished,
            *final(used) <= budget,
            batched_tokens(final(out).scheduled@) == *final(used),
            ({
                let before = old(self).pass(*old(out), *old(used));
                let after = final(self).pass(*final(out), *final(used));
                let config = old(self)@.config;
                if r {
                    &&& before.considers(config)
                    &&& after.fill(config, now) == before.fill(config, now)
                    &&& *final(used) > *old(used) || (*final(used) == *old(used)
                        && final(self)@.running.len() < old(self)@.running.len())
                } else {
                    after == before.fill(config, now)
                }
            }),
    {
        let ghost before = self.pass(*out, *used);
        let ghost s0 = self@;
        let ghost config = self@.config;
        if self.running.len() >= self.config.max_num_seqs || *used >= budget {
            return false;
        }
        let (prompt_len, wanted, already, remaining): (usize, usize, usize, usize) =
            match self.waiting.peek() {
            Some(next) => {
                proof {
                    assert(s0.waiting[0].wf());
                }
                (
                    next.prompt_len(),
                    next.prefill_len(),
                    next.computed_prefix_len(),
                    next.remaining_chunks(),
                )
            },
            None => {
                return false;
            },
        };
        let ghost first = s0.waiting[0];
        let ghost next = before.head();
        // Only the first chunk allocates; later chunks reuse the table.
        let is_first_chunk: bool = already == 0;
        let span: usize = if self.cache.can_allocate(wanted) {
            wanted
        } else {
            prompt_len
        };
        let remaining: usize = if is_first_chunk {
            span
        } else {
            remaining
        };
        // Without chunking the prompt must fit whole; otherwise it waits for a
        // later, emptier step.
        let chunk: usize = chunk_size(
            self.config.enable_chunked_prefill,
            remaining,
            budget - *used,
        );
        if chunk == 0 {
            return false;
        }
        if is_first_chunk && !self.cache.can_allocate(span) {
            // Try to make room by evicting; if that fails, stop admitting.
            return self.preempt_one(out, *used);
        }
        let mut seq: Sequence = match self.waiting.pop_front() {
            Some(s) => s,
            None => {
                return false;
            },
        };
        proof {
            assert(seq@ == first && first.wf());
            assert forall|i: int| 0 <= i < self@.waiting.len() implies (
            #[trigger] self@.waiting[i]).wf() by {
                assert(s0.waiting[i + 1].wf());
            }
        }
        let id = seq.id();
        if is_first_chunk {
            let mut tokens = seq.all_tokens();
            tokens.truncate(span);
            proof {
                assert(tokens@ =~= next.opening());
            }
            let refused: bool = self.cache.allocate(id, tokens.as_slice()).is_err();
            if refused {
                // Put it back and stop for this step rather than dropping the
                // request.
                seq.put_back();
                proof {
                    lemma_front_wf(seq@, self@.waiting);
                }
                self.waiting.push_front(seq);
                return false;
            }
        }
        if is_first_chunk {
            seq.limit_chunks(span);
        }
        seq.advance_prefill(chunk);
        // A sequence stays in Prefilling until its chunks are fully consumed;
        // only then does it become a decoder.
        if seq.state() == SequenceState::Waiting {
            let _ = seq.transition_to(SequenceState::Prefilling, now);
        }
        if seq.remaining_chunks() == 0 {
            let _ = seq.transition_to(SequenceState::Decoding, now);
        }
        let entry = ScheduledSequence {
            id,
            num_tokens: chunk,
            start_position: already,
            is_prefill: true,
        };
        proof {
            assert(seq@ == prefill_chunk(next, chunk as int, now));
            lemma_granted_sum(out.scheduled@, entry);
            lemma_push_wf(s0.running, seq@);
        }
        out.scheduled.push(entry);
        *used = *used + chunk;
        self.running.push(seq);
        proof {
            assert(self.pass(*out, *used) == before.admit_head(config, now));
        }
        true
    }

    /// Records a generated token against a running sequence and applies stop
    /// conditions.
    ///
    /// Returns the finish reason if the sequence terminated; `None` too where
    /// no such sequence runs.
    pub fn on_token(
        &mut self,
        id: SequenceId,
        token: TokenId,
        eos_ids: &[TokenId],
        now: u64,
    ) -> (r: Option<FinishReason>)
        requires
            old(self).wf(),
            queued(old(self)@.running, id) ==> old(self)@.running[position(
                old(self)@.running,
                id,
            )].total() < usize::MAX,
        ensures
            final(self).wf(),
            if queued(old(self)@.running, id) {
                &&& r == stop_after(
                    old(self)@.running[position(old(self)@.running, id)].grown(token, now),
                    token,
                    eos_ids@,
                )
                &&& final(self)@ == old(self)@.receiving(id, token, eos_ids@, now)
                &&& (eos_ids@.contains(token) || old(self)@.running[position(
                    old(self)@.running,
                    id,
                )].params.stop_token_ids@.contains(token)) && old(self)@.running[position(
                    old(self)@.running,
                    id,
                )].output.len() + 1 >= old(self)@.running[position(
                    old(self)@.running,
                    id,
                )].params.min_tokens <==> r == Some(FinishReason::Stop)
            } else {
                r is None && final(self)@ == old(self)@
            },
    {
        let ghost before = self@;
        let ghost p = position(before.running, id);
        let mut reason: Option<FinishReason> = None;
        proof {
            lemma_position(before.running, id);
            if p < before.running.len() {
                assert(before.running[p].wf());
            }
        }
        match self.running.get_mut(id) {
            None => {},
            Some(seq) => {
                seq.push_token(token, now);
                reason = Self::stop_reason(seq, token, eos_ids);
                match &reason {
                    Some(FinishReason::Stop) => {
                        seq.finish(FinishReason::Stop, now);
                    },
                    Some(FinishReason::Length) => {
                        seq.finish(FinishReason::Length, now);
                    },
                    _ => {},
                }
            },
        }
        proof {
            if p < before.running.len() {
                lemma_update_wf(before.running, p, self@.running[p]);
            }
        }
        reason
    }

    fn stop_reason(seq: &Sequence, token: TokenId, eos_ids: &[TokenId]) -> (r: Option<FinishReason>)
        ensures
            r == stop_after(seq@, token, eos_ids@),
            (eos_ids@.contains(token) || seq@.params.stop_token_ids@.contains(token))
                && seq@.output.len() >= seq@.params.min_tokens <==> r == Some(FinishReason::Stop),
            seq@.output.len() >= seq@.params.max_tokens ==> r is Some,
    {
        let is_stop_token: bool = contains(eos_ids, token) || contains(
            seq.params().stop_token_ids.as_slice(),
            token,
        );
        if is_stop_token && seq.may_stop_on_eos() {
            return Some(FinishReason::Stop);
        }
        if seq.reached_max_tokens() {
            return Some(FinishReason::Length);
        }
        None
    }

    /// Retires finished sequences, freeing their cache blocks.
    ///
    /// Returns them so the engine can send final responses.
    pub fn reap_finished(&mut self) -> (r: Vec<Sequence>)
        requires
            old(self).wf(),
        ensures
            final(self).wf(),
            models(r@) == finished(old(self)@.running),
            final(self)@ == old(self)@.reaped(),
    {
        let ghost before = self@;
        let done = self.running.take_finished();
        let ghost gone = finished(before.running);
        let mut i: usize = 0;
        proof {
            assert(gone.take(0) =~= seq![]);
        }
        while i < done.len()
            invariant
                models(done@) == gone,
                i <= done@.len(),
                C::valid(self@.cache),
                self@.cache == freeing::<C>(before.cache, gone.take(i as int)),
                self@.running == unfinished(before.running),
                self@.waiting == before.waiting,
                self@.config == before.config,
                self@.stats == before.stats,
            decreases done@.len() - i,
        {
            proof {
                assert(gone.len() == done@.len());
                assert(gone[i as int] == done@[i as int]@);
                assert(gone.take(i + 1).drop_last() =~= gone.take(i as int));
            }
            self.cache.free(done[i].id());
            i += 1;
        }
        self.stats.total_finished = self.stats.total_finished.wrapping_add(done.len() as u64);
        proof {
            assert(gone.len() == done@.len());
            assert(gone.take(gone.len() as int) =~= gone);
            lemma_filter_wf(before.running, |s: SequenceModel| !(s.state is Finished));
        }
        done
    }

    /// Terminates sequences that have exceeded the configured deadline.
    ///
    /// Returns the ids that were timed out. Checked once per step rather than
    /// with per-request timers.
    pub fn expire_timeouts(&mut self, now: u64) -> (r: Vec<SequenceId>)
        requires
            old(self).wf(),
        ensures
            final(self).wf(),
            r@ == old(self)@.expired_ids(now),
            final(self)@ == old(self)@.expired(now),
    {
        let ghost before = self@;
        let limit: u64 = match self.config.request_timeout_secs {
            Some(limit) => limit,
            None => {
                return Vec::new();
            },
        };
        let mut ids: Vec<SequenceId> = self.running.expire(limit, now);
        proof {
            self.waiting.lemma_items();
            assert forall|i: int| 0 <= i < self@.running.len() implies (
            #[trigger] self@.running[i]).wf() by {
                assert(before.running[i].wf());
            }
        }
        let too_old = |s: &Sequence| -> (b: bool)
            ensures
                b == overdue(s@, limit, now),
            { is_overdue(s, limit, now) };
        let ghost waiting = self.waiting@;
        let ghost items = self.waiting.items();
        let dropped = self.waiting.drain_where(too_old);
        let ghost marks = choose|marks: Seq<bool>|
            #![trigger marked(waiting, marks, true)]
            {
                &&& marks.len() == waiting.len()
                &&& forall|i: int|
                    0 <= i < marks.len() ==> too_old.ensures((&#[trigger] items[i],), marks[i])
                &&& models(dropped@) == marked(waiting, marks, true)
                &&& self.waiting@ == marked(waiting, marks, false)
            };
        proof {
            assert forall|i: int| 0 <= i < waiting.len() implies marks[i] == overdue(
                #[trigger] waiting[i],
                limit,
                now,
            ) by {
                assert(waiting[i] == items[i]@);
                assert(too_old.ensures((&items[i],), marks[i]));
            }
            lemma_marked_is_filter(waiting, marks, |s: SequenceModel| overdue(s, limit, now));
            lemma_unmarked_is_filter(waiting, marks, |s: SequenceModel| !overdue(s, limit, now));
            lemma_filter_wf(waiting, |s: SequenceModel| !overdue(s, limit, now));
        }
        let ghost first = ids@;
        let ghost late = overdue_of(waiting, limit, now);
        let mut i: usize = 0;
        proof {
            assert(ids@ =~= first + ids_of(late).take(0));
        }
        while i < dropped.len()
            invariant
                models(dropped@) == late,
                i <= dropped@.len(),
                ids@ == first + ids_of(late).take(i as int),
            decreases dropped@.len() - i,
        {
            proof {
                assert(late.len() == dropped@.len());
                assert(late[i as int] == dropped@[i as int]@);
            }
            ids.push(dropped[i].id());
            proof {
                assert(ids@ =~= first + ids_of(late).take(i + 1));
            }
            i += 1;
        }
        proof {
            assert(late.len() == dropped@.len());
            assert(ids_of(late).take(late.len() as int) =~= ids_of(late));
        }
        ids
    }

    /// Borrows a running sequence.
    pub fn running_sequence(&self, id: SequenceId) -> (r: Option<&Sequence>)
        ensures
            match r {
                Some(s) => queued(self@.running, id) && s@ == self@.running[position(
                    self@.running,
                    id,
                )],
                None => !queued(self@.running, id),
            },
    {
        self.running.get(id)
    }

    /// The ids of the running sequences, in order of admission.
    pub fn running_ids(&self) -> (r: Vec<SequenceId>)
        ensures
            r@ == ids_of(self@.running),
    {
        let items = self.running.iter();
        let mut out: Vec<SequenceId> = Vec::new();
        let mut i: usize = 0;
        while i < items.len()
            invariant
                i <= items@.len() == self@.running.len(),
                forall|k: int|
                    0 <= k < items@.len() ==> (#[trigger] items@[k])@ == self@.running[k],
                out@ =~= ids_of(self@.running).take(i as int),
            decreases items@.len() - i,
        {
            out.push(items[i].id());
            i += 1;
        }
        out
    }

    /// Publishes a completed prefill to the prefix cache.
    pub fn commit_prefill(&mut self, id: SequenceId)
        requires
            old(self).wf(),
        ensures
            final(self).wf(),
            final(self)@ == old(self)@.committing(id),
    {
        proof {
            lemma_position(self@.running, id);
        }
        let prompt: Vec<TokenId> = match self.running.get(id) {
            Some(seq) => {
                proof {
                    assert(self@.running[position(self@.running, id)].wf());
                }
                if seq.remaining_chunks() > 0 {
                    return;
                }
                seq.opening()
            },
            None => {
                return;
            },
        };
        self.cache.commit_prefill(id, prompt.as_slice());
    }
}

/// Whether a sequence is older than `limit_secs` seconds.
pub(crate) fn is_overdue(s: &Sequence, limit_secs: u64, now: u64) -> (r: bool)
    ensures
        r == overdue(s@, limit_secs, now),
{
    let age: u64 = now.saturating_sub(s.timings().arrived_at);
    proof {
        assert(limit_secs * 1_000_000_000 <= u64::MAX * 1_000_000_000) by (nonlinear_arith)
            requires
                limit_secs <= u64::MAX,
        ;
    }
    age as u128 > limit_secs as u128 * 1_000_000_000
}

/// Whether a token is among the given ones.
pub fn contains(tokens: &[TokenId], token: TokenId) -> (r: bool)
    ensures
        r == tokens@.contains(token),
{
    let mut i: usize = 0;
    while i < tokens.len()
        invariant
            i <= tokens@.len(),
            forall|k: int| 0 <= k < i ==> tokens@[k] != token,
        decreases tokens@.len() - i,
    {
        if tokens[i] == token {
            assert(tokens@[i as int] == token);
            return true;
        }
        i += 1;
    }
    false
}

proof fn lemma_remove_wf(queue: Seq<SequenceModel>, at: int)
    requires
        all_wf(queue),
        0 <= at < queue.len(),
    ensures
        all_wf(queue.remove(at)),
{
    let less = queue.remove(at);
    assert forall|i: int| 0 <= i < less.len() implies (#[trigger] less[i]).wf() by {
        if i < at {
            assert(less[i] == queue[i]);
        } else {
            assert(less[i] == queue[i + 1]);
        }
    }
}

proof fn lemma_front_wf(s: SequenceModel, queue: Seq<SequenceModel>)
    requires
        s.wf(),
        all_wf(queue),
    ensures
        all_wf(seq![s] + queue),
{
    let more = seq![s] + queue;
    assert forall|i: int| 0 <= i < more.len() implies (#[trigger] more[i]).wf() by {
        if i > 0 {
            assert(more[i] == queue[i - 1]);
        }
    }
}

proof fn lemma_push_wf(queue: Seq<SequenceModel>, s: SequenceModel)
    requires
        s.wf(),
        all_wf(queue),
    ensures
        all_wf(queue.push(s)),
{
    let more = queue.push(s);
    assert forall|i: int| 0 <= i < more.len() implies (#[trigger] more[i]).wf() by {
        if i < queue.len() {
            assert(more[i] == queue[i]);
        }
    }
}

proof fn lemma_update_wf(queue: Seq<SequenceModel>, at: int, s: SequenceModel)
    requires
        s.wf(),
        all_wf(queue),
        0 <= at < queue.len(),
    ensures
        all_wf(queue.update(at, s)),
{
    let other = queue.update(at, s);
    assert forall|i: int| 0 <= i < other.len() implies (#[trigger] other[i]).wf() by {
        if i != at {
            assert(other[i] == queue[i]);
        }
    }
}

proof fn lemma_filter_wf(queue: Seq<SequenceModel>, keep: spec_fn(SequenceModel) -> bool)
    requires
        all_wf(queue),
    ensures
        all_wf(queue.filter(keep)),
    decreases queue.len(),
{
    reveal(Seq::filter);
    if queue.len() > 0 {
        let d = queue.drop_last();
        assert forall|i: int| 0 <= i < d.len() implies (#[trigger] d[i]).wf() by {
            assert(d[i] == queue[i]);
        }
        lemma_filter_wf(d, keep);
        assert(queue[queue.len() - 1].wf());
        lemma_push_wf(d.filter(keep), queue.last());
    }
}

proof fn lemma_marked_is_filter(
    queue: Seq<SequenceModel>,
    marks: Seq<bool>,
    f: spec_fn(SequenceModel) -> bool,
)
    requires
        marks.len() == queue.len(),
        forall|i: int| 0 <= i < queue.len() ==> marks[i] == f(#[trigger] queue[i]),
    ensures
        marked(queue, marks, true) == queue.filter(f),
    decreases queue.len(),
{
    reveal(Seq::filter);
    if queue.len() > 0 {
        let d = queue.drop_last();
        assert forall|i: int| 0 <= i < d.len() implies marks.drop_last()[i] == f(
            #[trigger] d[i],
        ) by {
            assert(d[i] == queue[i]);
        }
        lemma_marked_is_filter(d, marks.drop_last(), f);
        assert(marks[queue.len() - 1] == f(queue[queue.len() - 1]));
    } else {
        assert(marked(queue, marks, true) =~= queue.filter(f));
    }
}

proof fn lemma_unmarked_is_filter(
    queue: Seq<SequenceModel>,
    marks: Seq<bool>,
    f: spec_fn(SequenceModel) -> bool,
)
    requires
        marks.len() == queue.len(),
        forall|i: int| 0 <= i < queue.len() ==> marks[i] == !f(#[trigger] queue[i]),
    ensures
        marked(queue, marks, false) == queue.filter(f),
    decreases queue.len(),
{
    reveal(Seq::filter);
    if queue.len() > 0 {
        let d = queue.drop_last();
        assert forall|i: int| 0 <= i < d.len() implies marks.drop_last()[i] == !f(
            #[trigger] d[i],
        ) by {
            assert(d[i] == queue[i]);
        }
        lemma_unmarked_is_filter(d, marks.drop_last(), f);
        assert(marks[queue.len() - 1] == !f(queue[queue.len() - 1]));
    } else {
        assert(marked(queue, marks, false) =~= queue.filter(f));
    }
}

} // verus!
