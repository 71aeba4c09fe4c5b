//! The engine: the decisions that turn scheduled batches into generated tokens
//! and stream events.
//!
//! One step is: [`Engine::begin_step`] retires what timed out, schedules, and
//! assembles the batch; the model runs it; for each sequence that
//! [`Engine::sampling_context`] names, a token is sampled and handed to
//! [`Engine::receive_token`]; [`Engine::end_step`] publishes computed prompts
//! and retires what finished. Events are returned, not sent: the caller owns
//! the channels.

use crate::error::EngineError;
use crate::id::{sequence_id, sequence_text, IdCounter, SequenceId, TokenId};
use crate::kv_cache::manager::KvCacheManager;
use crate::ratio::Ratio;
use crate::sampling_params::SamplingParams;
use crate::scheduler::cache::KvCacheManagerLike;
use crate::scheduler::driver::{Scheduler, SchedulerOutput};
use crate::scheduler::laws::{
    all_countable, all_keep, countable, law_step_keeps_what_is_stable, stable,
};
use crate::scheduler::policy::{
    overdue, prefill_chunk, put_back, stop_after, turned_decoder, ScheduledSequence, SchedulerModel,
    SchedulerStats,
};
use crate::scheduler::queue::{finished, lemma_position, models, position, queued};
use crate::sequence::{FinishReason, Sequence, SequenceModel};
use crate::text::{decimal, join2, owned, push_count};
use crate::traits::{total, ForwardBatch};
use std::collections::HashMap;
use vstd::prelude::*;
use vstd::slice::{slice_subrange, slice_to_vec};

verus! {

broadcast use vstd::std_specs::hash::group_hash_axioms;

/// What the engine's loop does next.
#[derive(Debug, Clone, Copy, PartialEq, Eq, Structural)]
pub enum LoopAction {
    /// Run a step.
    Step,
    /// Wait for a command.
    Wait,
    /// End.
    Stop,
}

/// One unit of output streamed back to a caller.
#[derive(Debug, Clone, PartialEq, Eq)]
pub enum StreamEvent {
    /// A generated token, with the text it contributes.
    Token {
        token: TokenId,
        text: String,
        /// Total tokens generated so far, this one among them, for usage
        /// accounting.
        index: usize,
    },
    /// Generation finished.
    Done { reason: FinishReason, prompt_tokens: usize, completion_tokens: usize },
    /// Generation failed. Carries the stable error code and message, which is
    /// what a response body needs.
    Error { code: &'static str, message: String },
}

impl StreamEvent {
    /// Builds an error event from an engine error.
    pub fn from_error(e: &EngineError) -> (r: Self)
        ensures
            r matches StreamEvent::Error { code, message } && code@ == e.code_text() && message@
                == e.text(),
    {
        StreamEvent::Error { code: e.code(), message: e.message() }
    }

    /// Whether this event ends the stream.
    pub fn is_terminal(&self) -> (r: bool)
        ensures
            r == (*self is Done || *self is Error),
    {
        matches!(self, StreamEvent::Done { .. } | StreamEvent::Error { .. })
    }
}

/// A snapshot of engine state, for metrics and health checks.
#[derive(Debug, Clone, Copy, PartialEq, Eq, Structural)]
pub struct EngineStats {
    pub scheduler: SchedulerStats,
    pub running: usize,
    pub waiting: usize,
    pub cache_total_blocks: usize,
    pub cache_free_blocks: usize,
    pub prefix_cache_hits: u64,
    pub prefix_cache_misses: u64,
}

impl Default for EngineStats {
    fn default() -> (r: Self)
        ensures
            r == (EngineStats {
                scheduler: SchedulerStats::none(),
                running: 0,
                waiting: 0,
                cache_total_blocks: 0,
                cache_free_blocks: 0,
                prefix_cache_hits: 0,
                prefix_cache_misses: 0,
            }),
    {
        EngineStats {
            scheduler: SchedulerStats::default(),
            running: 0,
            waiting: 0,
            cache_total_blocks: 0,
            cache_free_blocks: 0,
            prefix_cache_hits: 0,
            prefix_cache_misses: 0,
        }
    }
}

impl EngineStats {
    /// The share of the cache's blocks in use; zero for a cache without any.
    pub fn cache_utilization(&self) -> (r: Ratio)
        requires
            self.cache_free_blocks <= self.cache_total_blocks,
        ensures
            r == Ratio::spec_of(
                (self.cache_total_blocks - self.cache_free_blocks) as u64,
                self.cache_total_blocks as u64,
            ),
    {
        let used: usize = self.cache_total_blocks - self.cache_free_blocks;
        Ratio::of(used as u64, self.cache_total_blocks as u64)
    }

    /// The share of prefix lookups that hit; zero before any lookup.
    pub fn prefix_cache_hit_rate(&self) -> (r: Ratio)
        requires
            self.prefix_cache_hits + self.prefix_cache_misses <= u64::MAX,
        ensures
            r == Ratio::spec_of(
                self.prefix_cache_hits,
                (self.prefix_cache_hits + self.prefix_cache_misses) as u64,
            ),
    {
        Ratio::of(self.prefix_cache_hits, self.prefix_cache_hits + self.prefix_cache_misses)
    }
}

/// A sequence whose history stays countable: an admitted request has room for
/// all it may generate, and one that is not finished has not generated it.
pub open spec fn bounded(s: SequenceModel) -> bool {
    &&& s.wf()
    &&& s.prompt.len() + s.params.max_tokens <= usize::MAX
    &&& s.state is Finished || s.output.len() < s.params.max_tokens
}

/// What the engine holds.
pub ghost struct EngineModel {
    pub scheduler: SchedulerModel<KvCacheManager>,
    /// The requests whose caller has not been told of their end, each with the
    /// length of its prompt.
    pub active: Map<u64, usize>,
    pub eos: Seq<TokenId>,
    pub upcoming: u64,
}

/// The end of a request, as its caller is told.
pub open spec fn done_event(
    reason: FinishReason,
    prompt_tokens: usize,
    completion_tokens: usize,
) -> StreamEvent {
    StreamEvent::Done { reason, prompt_tokens, completion_tokens }
}

/// The active requests without those with the given ids.
pub open spec fn without(active: Map<u64, usize>, ids: Seq<SequenceId>) -> Map<u64, usize>
    decreases ids.len(),
{
    if ids.len() == 0 {
        active
    } else {
        without(active, ids.drop_last()).remove(ids.last()@)
    }
}

/// The tokens that a running sequence generated; none where it does not run.
pub open spec fn generated(running: Seq<SequenceModel>, id: SequenceId) -> usize {
    if queued(running, id) {
        running[position(running, id)].output.len() as usize
    } else {
        0
    }
}

/// What the callers of timed-out requests are told.
pub open spec fn timeout_notices(
    active: Map<u64, usize>,
    running: Seq<SequenceModel>,
    ids: Seq<SequenceId>,
) -> Seq<(SequenceId, StreamEvent)>
    decreases ids.len(),
{
    if ids.len() == 0 {
        seq![]
    } else {
        let front = timeout_notices(active, running, ids.drop_last());
        let left = without(active, ids.drop_last());
        let id = ids.last();
        if left.contains_key(id@) {
            front.push(
                (id, done_event(FinishReason::Timeout, left[id@], generated(running, id))),
            )
        } else {
            front
        }
    }
}

/// The ids of sequences.
pub open spec fn sequence_ids_of(done: Seq<SequenceModel>) -> Seq<SequenceId> {
    done.map_values(|s: SequenceModel| s.id)
}

/// What the callers of retired sequences are told, where they were not told
/// before.
pub open spec fn reap_notices(active: Map<u64, usize>, done: Seq<SequenceModel>) -> Seq<
    (SequenceId, StreamEvent),
>
    decreases done.len(),
{
    if done.len() == 0 {
        seq![]
    } else {
        let front = reap_notices(active, done.drop_last());
        let left = without(active, sequence_ids_of(done.drop_last()));
        let s = done.last();
        let reason = match s.finish_reason {
            Some(r) => r,
            None => FinishReason::Stop,
        };
        if left.contains_key(s.id@) {
            front.push((s.id, done_event(reason, left[s.id@], s.output.len() as usize)))
        } else {
            front
        }
    }
}

// ----- the batch ----------------------------------------------------------------

/// The tokens a scheduled sequence submits: the part of what is prefilled in
/// chunks that the chunk covers; the generated token that has to be computed
/// again; or the most recent token.
pub open spec fn submitted(s: SequenceModel, e: ScheduledSequence) -> Seq<TokenId> {
    if e.is_prefill {
        let len = s.opening().len() as int;
        let start = if e.start_position <= len {
            e.start_position as int
        } else {
            len
        };
        let end = if e.start_position + e.num_tokens <= len {
            e.start_position + e.num_tokens
        } else {
            len
        };
        s.opening().subrange(start, end)
    } else if e.start_position < s.total() {
        seq![s.history()[e.start_position as int]]
    } else if s.output.len() > 0 {
        seq![s.output.last()]
    } else if s.prompt.len() > 0 {
        seq![s.prompt.last()]
    } else {
        seq![]
    }
}

/// What a batch is made of.
pub ghost struct BatchModel {
    pub tokens: Seq<TokenId>,
    pub positions: Seq<u32>,
    pub sequence_ids: Seq<SequenceId>,
    pub counts: Seq<usize>,
    pub context_lens: Seq<usize>,
    pub block_tables: Seq<Seq<u32>>,
    pub has_prefill: bool,
}

impl BatchModel {
    pub open spec fn empty() -> BatchModel {
        BatchModel {
            tokens: seq![],
            positions: seq![],
            sequence_ids: seq![],
            counts: seq![],
            context_lens: seq![],
            block_tables: seq![],
            has_prefill: false,
        }
    }

    /// The batch with one more sequence, whose tokens stand at `start` on.
    pub open spec fn with(
        self,
        e: ScheduledSequence,
        tokens: Seq<TokenId>,
        table: Seq<u32>,
    ) -> BatchModel {
        let n = tokens.len();
        BatchModel {
            tokens: self.tokens + tokens,
            positions: self.positions + Seq::new(n, |k: int| (e.start_position + k) as u32),
            sequence_ids: self.sequence_ids.push(e.id),
            counts: self.counts.push(n as usize),
            context_lens: self.context_lens.push((e.start_position + n) as usize),
            block_tables: self.block_tables.push(table),
            has_prefill: self.has_prefill || e.is_prefill,
        }
    }
}

/// The model of a batch.
pub open spec fn batch_model(b: ForwardBatch) -> BatchModel {
    BatchModel {
        tokens: b.tokens@,
        positions: b.positions@,
        sequence_ids: b.sequence_ids@,
        counts: b.slot_token_counts@,
        context_lens: b.context_lens@,
        block_tables: b.block_tables@.map_values(|t: Vec<u32>| t@),
        has_prefill: b.has_prefill,
    }
}

/// Whether every scheduled sequence that runs has a block table.
pub open spec fn tables_present(
    m: SchedulerModel<KvCacheManager>,
    batch: Seq<ScheduledSequence>,
) -> bool {
    forall|i: int|
        0 <= i < batch.len() && queued(m.running, (#[trigger] batch[i]).id)
            ==> m.cache.tables.contains_key(batch[i].id@)
}

/// The batch that the scheduled sequences form: those that still run and
/// submit something, in order.
pub open spec fn assembled(
    m: SchedulerModel<KvCacheManager>,
    batch: Seq<ScheduledSequence>,
) -> BatchModel
    decreases batch.len(),
{
    if batch.len() == 0 {
        BatchModel::empty()
    } else {
        let front = assembled(m, batch.drop_last());
        let e = batch.last();
        let tokens = submitted(m.running[position(m.running, e.id)], e);
        if queued(m.running, e.id) && tokens.len() > 0 {
            front.with(
                e,
                tokens,
                m.cache.tables[e.id@].blocks.map_values(|b: crate::id::BlockId| b.0),
            )
        } else {
            front
        }
    }
}

/// The first scheduled sequence that runs without a block table.
pub open spec fn tableless(
    m: SchedulerModel<KvCacheManager>,
    batch: Seq<ScheduledSequence>,
    i: int,
) -> bool {
    &&& 0 <= i < batch.len()
    &&& queued(m.running, batch[i].id)
    &&& !m.cache.tables.contains_key(batch[i].id@)
    &&& tables_present(m, batch.take(i))
}

/// The parts of an assembled batch agree with each other.
pub proof fn law_assembled_batches_are_consistent(
    m: SchedulerModel<KvCacheManager>,
    batch: Seq<ScheduledSequence>,
)
    requires
        forall|i: int|
            0 <= i < m.running.len() ==> (#[trigger] m.running[i]).wf(),
    ensures
        ({
            let b = assembled(m, batch);
            let n = b.sequence_ids.len();
            &&& b.counts.len() == n
            &&& b.context_lens.len() == n
            &&& b.block_tables.len() == n
            &&& b.positions.len() == b.tokens.len()
            &&& total(b.counts) == b.tokens.len()
            &&& n <= batch.len()
        }),
    decreases batch.len(),
{
    if batch.len() > 0 {
        law_assembled_batches_are_consistent(m, batch.drop_last());
        let front = assembled(m, batch.drop_last());
        let e = batch.last();
        lemma_position(m.running, e.id);
        if queued(m.running, e.id) {
            let s = m.running[position(m.running, e.id)];
            assert(s.wf());
            let n = submitted(s, e).len() as usize;
            assert(front.counts.push(n).drop_last() =~= front.counts);
        }
    }
}

/// A step that was begun: what was scheduled, and the batch to run.
#[derive(Debug)]
pub struct StepPlan {
    pub output: SchedulerOutput,
    pub batch: ForwardBatch,
}

/// The beginning of a step: what callers are to be told, and the plan, where
/// there is anything to run.
#[derive(Debug)]
pub struct StepStart {
    pub notices: Vec<(SequenceId, StreamEvent)>,
    pub plan: Result<Option<StepPlan>, EngineError>,
}

impl EngineModel {
    pub open spec fn wf(self) -> bool {
        &&& self.scheduler.wf()
        &&& all_keep(self.scheduler.running, |s: SequenceModel| bounded(s))
        &&& all_keep(self.scheduler.waiting, |s: SequenceModel| bounded(s))
    }

    pub open spec fn with_scheduler(self, s: SchedulerModel<KvCacheManager>) -> EngineModel {
        EngineModel { scheduler: s, ..self }
    }

    /// The engine after finished sequences were retired.
    pub open spec fn reaped(self) -> EngineModel {
        EngineModel {
            scheduler: self.scheduler.reaped(),
            active: without(
                self.active,
                sequence_ids_of(finished(self.scheduler.running)),
            ),
            ..self
        }
    }

    /// The engine after overdue requests were terminated.
    pub open spec fn expired(self, now: u64) -> EngineModel {
        EngineModel {
            scheduler: self.scheduler.expired(now),
            active: without(self.active, self.scheduler.expired_ids(now)),
            ..self
        }
    }

    /// Whether a sampled token of `id` is of use: it runs, its prompt is
    /// complete, it has not finished, and its caller still listens.
    pub open spec fn takes_token(self, id: SequenceId) -> bool {
        let running = self.scheduler.running;
        let s = running[position(running, id)];
        &&& queued(running, id)
        &&& s.remaining() == 0
        &&& !(s.state is Finished)
        &&& self.active.contains_key(id@)
    }

    /// The engine after the given sequences' complete prompts were published.
    pub open spec fn committing(self, batch: Seq<ScheduledSequence>) -> EngineModel
        decreases batch.len(),
    {
        if batch.len() == 0 {
            self
        } else {
            let before = self.committing(batch.drop_last());
            if batch.last().is_prefill {
                before.with_scheduler(before.scheduler.committing(batch.last().id))
            } else {
                before
            }
        }
    }
}

/// The engine: scheduler, listening callers, and the ids that end generation.
#[derive(Debug)]
pub struct Engine {
    scheduler: Scheduler<KvCacheManager>,
    active: HashMap<u64, usize>,
    eos_ids: Vec<TokenId>,
    counter: IdCounter,
}

impl View for Engine {
    type V = EngineModel;

    closed spec fn view(&self) -> EngineModel {
        EngineModel {
            scheduler: self.scheduler@,
            active: self.active@,
            eos: self.eos_ids@,
            upcoming: self.counter@,
        }
    }
}

proof fn lemma_bounded_is_stable()
    ensures
        stable(|s: SequenceModel| bounded(s)),
{
    let keep = |s: SequenceModel| bounded(s);
    assert forall|s: SequenceModel| #[trigger] keep(s) implies {
        &&& keep(put_back(s))
        &&& forall|n: int| s.prompt.len() <= n <= s.target ==> keep(#[trigger] s.spanning(n))
        &&& forall|chunk: int, now: u64|
            chunk >= 0 ==> keep(#[trigger] prefill_chunk(s, chunk, now))
        &&& forall|chunk: int, now: u64|
            chunk >= 0 ==> keep(#[trigger] turned_decoder(s.prefilled(chunk), now))
    } by {}
}

impl Engine {
    pub open spec fn wf(&self) -> bool {
        self@.wf()
    }

    /// An engine over a scheduler that has no requests yet.
    pub fn new(scheduler: Scheduler<KvCacheManager>, eos_ids: Vec<TokenId>) -> (r: Self)
        requires
            scheduler.wf(),
            scheduler@.running.len() == 0,
            scheduler@.waiting.len() == 0,
        ensures
            r.wf(),
            r@ == (EngineModel {
                scheduler: scheduler@,
                active: Map::empty(),
                eos: eos_ids@,
                upcoming: 1,
            }),
    {
        Engine { scheduler, active: HashMap::new(), eos_ids, counter: IdCounter::new() }
    }

    pub fn stats(&self) -> (r: EngineStats)
        requires
            self.wf(),
        ensures
            r == (EngineStats {
                scheduler: self@.scheduler.stats,
                running: self@.scheduler.running.len() as usize,
                waiting: self@.scheduler.waiting.len() as usize,
                cache_total_blocks: self@.scheduler.cache.pool.blocks.len() as usize,
                cache_free_blocks: self@.scheduler.cache.pool.free.len() as usize,
                prefix_cache_hits: self@.scheduler.cache.index.hits,
                prefix_cache_misses: self@.scheduler.cache.index.misses,
            }),
            r.cache_free_blocks <= r.cache_total_blocks,
    {
        let cache = self.scheduler.cache().stats();
        EngineStats {
            scheduler: self.scheduler.stats(),
            running: self.scheduler.num_running(),
            waiting: self.scheduler.num_waiting(),
            cache_total_blocks: cache.total_blocks,
            cache_free_blocks: cache.free_blocks,
            prefix_cache_hits: cache.prefix_cache_hits,
            prefix_cache_misses: cache.prefix_cache_misses,
        }
    }

    /// What the engine's loop does next. A stopping engine stops after it has
    /// drained the work in flight.
    pub fn next_action(&self, stopping: bool) -> (r: LoopAction)
        ensures
            r == if self@.scheduler.waiting.len() > 0 || self@.scheduler.running.len() > 0 {
                LoopAction::Step
            } else if stopping {
                LoopAction::Stop
            } else {
                LoopAction::Wait
            },
    {
        if self.has_work() {
            LoopAction::Step
        } else if stopping {
            LoopAction::Stop
        } else {
            LoopAction::Wait
        }
    }

    /// Whether there is anything to do.
    pub fn has_work(&self) -> (r: bool)
        ensures
            r == (self@.scheduler.waiting.len() > 0 || self@.scheduler.running.len() > 0),
    {
        self.scheduler.has_work()
    }

    /// Validates a request and hands it to the scheduler.
    ///
    /// An accepted request is listened for until its end was announced.
    pub fn submit(&mut self, prompt: Vec<TokenId>, params: SamplingParams, now: u64) -> (r: Result<
        SequenceId,
        EngineError,
    >)
        requires
            old(self).wf(),
        ensures
            final(self).wf(),
            ({
                let m = old(self)@;
                let s = SequenceModel::fresh(sequence_id(m.upcoming), prompt@, params, now);
                let wanted = prompt@.len() + params.max_tokens;
                let blocks = KvCacheManager::needs(m.scheduler.cache, prompt@.len() as int);
                let total = m.scheduler.cache.pool.blocks.len();
                let full = m.scheduler.waiting.len() >= m.scheduler.config.max_waiting_requests;
                let next = EngineModel { upcoming: m.upcoming.wrapping_add(1), ..m };
                match r {
                    Ok(id) => {
                        &&& id == s.id
                        &&& params.complaint() is None
                        &&& !full
                        &&& wanted <= m.scheduler.context_len()
                        &&& blocks <= total
                        &&& final(self)@ == (EngineModel {
                            scheduler: m.scheduler.accepting(s),
                            active: m.active.insert(id@, prompt@.len() as usize),
                            ..next
                        })
                    },
                    Err(e) => if params.complaint() is Some {
                        &&& e.is_invalid_request(params.complaint()->0)
                        &&& final(self)@ == m
                    } else {
                        &&& final(self)@ == next.with_scheduler(
                            m.scheduler.counting_rejection(),
                        )
                        &&& if full {
                            e == (EngineError::QueueFull {
                                queued: m.scheduler.waiting.len() as usize,
                                limit: m.scheduler.config.max_waiting_requests,
                            })
                        } else if wanted > m.scheduler.context_len() {
                            e == (EngineError::ContextLengthExceeded {
                                prompt_tokens: prompt@.len() as usize,
                                max_tokens: params.max_tokens,
                                context_len: m.scheduler.context_len(),
                            })
                        } else {
                            &&& blocks > total
                            &&& e == (EngineError::CacheExhausted {
                                needed: blocks as usize,
                                available: total as usize,
                            })
                        }
                    },
                }
            }),
    {
        let ghost m = self@;
        match params.validate() {
            Ok(()) => {},
            Err(e) => {
                return Err(e);
            },
        }
        let prompt_len: usize = prompt.len();
        let seq = Sequence::new(prompt, params, &mut self.counter, now);
        proof {
            crate::id::lemma_sequence_id(seq@.id);
        }
        let ghost s = seq@;
        match self.scheduler.add_request(seq) {
            Ok(id) => {
                self.active.insert(id.as_u64(), prompt_len);
                proof {
                    let keep = |s: SequenceModel| bounded(s);
                    assert forall|i: int| 0 <= i < self@.scheduler.waiting.len() implies keep(
                        #[trigger] self@.scheduler.waiting[i],
                    ) by {
                        if i < m.scheduler.waiting.len() {
                            assert(keep(m.scheduler.waiting[i]));
                        }
                    }
                }
                Ok(id)
            },
            Err(e) => Err(e),
        }
    }

    /// Number of requests whose callers still listen.
    pub fn num_active(&self) -> (r: usize)
        ensures
            r == self@.active.len(),
    {
        self.active.len()
    }

    /// Cancels a request. Returns what its caller is to be told, if it still
    /// listens.
    pub fn cancel(&mut self, id: SequenceId) -> (r: Option<StreamEvent>)
        requires
            old(self).wf(),
        ensures
            final(self).wf(),
            ({
                let m = old(self)@;
                let found = queued(m.scheduler.waiting, id) || queued(m.scheduler.running, id);
                &&& r == if found && m.active.contains_key(id@) {
                    Some(done_event(FinishReason::Cancelled, m.active[id@], 0))
                } else {
                    None
                }
                &&& r matches Some(event) ==> event == (StreamEvent::Done {
                    reason: FinishReason::Cancelled,
                    prompt_tokens: m.active[id@],
                    completion_tokens: 0,
                })
                &&& final(self)@ == if found {
                    EngineModel {
                        scheduler: m.scheduler.cancelling(id),
                        active: m.active.remove(id@),
                        ..m
                    }
                } else {
                    m
                }
            }),
    {
        let ghost m = self@;
        proof {
            lemma_cancelling_bounded(m.scheduler, id);
        }
        if self.scheduler.cancel(id) {
            match self.active.remove(&id.as_u64()) {
                Some(prompt_tokens) => Some(
                    StreamEvent::Done {
                        reason: FinishReason::Cancelled,
                        prompt_tokens,
                        completion_tokens: 0,
                    },
                ),
                None => None,
            }
        } else {
            None
        }
    }

    /// Cancels without an event, for a caller that has already disconnected.
    pub fn cancel_silently(&mut self, id: SequenceId)
        requires
            old(self).wf(),
        ensures
            final(self).wf(),
            final(self)@ == (EngineModel {
                scheduler: old(self)@.scheduler.cancelling(id),
                active: old(self)@.active.remove(id@),
                ..old(self)@
            }),
    {
        proof {
            lemma_cancelling_bounded(self@.scheduler, id);
        }
        self.scheduler.cancel(id);
        self.active.remove(&id.as_u64());
    }

    /// Stops listening for a request and returns the event that announces its
    /// end, if it was listened for.
    pub fn finish_request(&mut self, id: SequenceId, reason: FinishReason) -> (r: Option<
        StreamEvent,
    >)
        requires
            old(self).wf(),
        ensures
            final(self).wf(),
            final(self)@ == (EngineModel {
                active: old(self)@.active.remove(id@),
                ..old(self)@
            }),
            r == if old(self)@.active.contains_key(id@) {
                Some(
                    done_event(
                        reason,
                        old(self)@.active[id@],
                        generated(old(self)@.scheduler.running, id),
                    ),
                )
            } else {
                None
            },
            r matches Some(event) ==> (event matches StreamEvent::Done {
                reason: why,
                prompt_tokens,
                completion_tokens,
            } && why == reason && prompt_tokens == old(self)@.active[id@] && completion_tokens
                == generated(old(self)@.scheduler.running, id)),
    {
        proof {
            lemma_position(self@.scheduler.running, id);
        }
        let completion_tokens: usize = match self.scheduler.running_sequence(id) {
            Some(s) => s.output_len(),
            None => 0,
        };
        match self.active.remove(&id.as_u64()) {
            Some(prompt_tokens) => Some(
                StreamEvent::Done { reason, prompt_tokens, completion_tokens },
            ),
            None => None,
        }
    }

    /// Retires finished sequences, freeing their cache blocks, and returns
    /// what those callers are to be told that were not told before.
    fn reap(&mut self) -> (r: Vec<(SequenceId, StreamEvent)>)
        requires
            old(self).wf(),
        ensures
            final(self).wf(),
            final(self)@ == old(self)@.reaped(),
            r@ == reap_notices(
                old(self)@.active,
                finished(old(self)@.scheduler.running),
            ),
    {
        let ghost m = self@;
        let ghost gone = finished(m.scheduler.running);
        let mut done = self.scheduler.reap_finished();
        let mut notices: Vec<(SequenceId, StreamEvent)> = Vec::new();
        let ghost mut k: int = 0;
        proof {
            lemma_filter_keeps(
                m.scheduler.running,
                |s: SequenceModel| !(s.state is Finished),
                |s: SequenceModel| bounded(s),
            );
            assert(models(done@) =~= gone.skip(0));
            assert(gone.take(0) =~= seq![]);
            assert(sequence_ids_of(gone.take(0)) =~= seq![]);
            assert(notices@ =~= reap_notices(m.active, gone.take(0)));
        }
        while done.len() > 0
            invariant
                0 <= k <= gone.len(),
                models(done@) == gone.skip(k),
                self@ == (EngineModel {
                    scheduler: m.scheduler.reaped(),
                    active: without(m.active, sequence_ids_of(gone.take(k))),
                    ..m
                }),
                notices@ == reap_notices(m.active, gone.take(k)),
            decreases gone.len() - k,
        {
            let ghost before = done@;
            proof {
                assert(models(done@).len() == done@.len());
                assert(models(done@)[0] == done@[0]@);
                assert(gone.skip(k)[0] == gone[k]);
            }
            let seq = done.remove(0);
            let ghost s = seq@;
            let id = seq.id();
            let completion_tokens: usize = seq.output_len();
            proof {
                assert(s == gone[k]);
                assert(gone.take(k + 1).drop_last() =~= gone.take(k));
                assert(sequence_ids_of(gone.take(k + 1)).drop_last() =~= sequence_ids_of(
                    gone.take(k),
                ));
                assert(sequence_ids_of(gone.take(k + 1)).last() == s.id);
                assert(models(done@) =~= gone.skip(k + 1)) by {
                    assert forall|i: int| 0 <= i < done@.len() implies #[trigger] models(
                        done@,
                    )[i] == gone.skip(k + 1)[i] by {
                        assert(models(before)[i + 1] == gone.skip(k)[i + 1]);
                    }
                }
            }
            match self.active.remove(&id.as_u64()) {
                Some(prompt_tokens) => {
                    let reason = match seq.into_finish_reason() {
                        Some(r) => r,
                        None => FinishReason::Stop,
                    };
                    notices.push(
                        (id, StreamEvent::Done { reason, prompt_tokens, completion_tokens }),
                    );
                },
                None => {},
            }
            proof {
                k = k + 1;
            }
        }
        proof {
            assert(models(done@).len() == 0);
            assert(gone.take(k) =~= gone);
        }
        notices
    }

    /// Terminates overdue requests and returns what their callers are to be
    /// told.
    fn expire(&mut self, now: u64) -> (r: Vec<(SequenceId, StreamEvent)>)
        requires
            old(self).wf(),
        ensures
            final(self).wf(),
            final(self)@ == old(self)@.expired(now),
            r@ == timeout_notices(
                old(self)@.active,
                old(self)@.expired(now).scheduler.running,
                old(self)@.scheduler.expired_ids(now),
            ),
    {
        let ghost m = self@;
        let ids = self.scheduler.expire_timeouts(now);
        let ghost e = self@.scheduler;
        proof {
            lemma_expired_bounded(m.scheduler, now);
        }
        let mut notices: Vec<(SequenceId, StreamEvent)> = Vec::new();
        let mut i: usize = 0;
        proof {
            assert(ids@.take(0) =~= seq![]);
            assert(notices@ =~= timeout_notices(m.active, e.running, ids@.take(0)));
        }
        while i < ids.len()
            invariant
                i <= ids@.len(),
                self.wf(),
                self@ == (EngineModel {
                    scheduler: e,
                    active: without(m.active, ids@.take(i as int)),
                    ..m
                }),
                notices@ == timeout_notices(m.active, e.running, ids@.take(i as int)),
            decreases ids@.len() - i,
        {
            let id = ids[i];
            proof {
                assert(ids@.take(i + 1).drop_last() =~= ids@.take(i as int));
            }
            match self.finish_request(id, FinishReason::Timeout) {
                Some(event) => {
                    notices.push((id, event));
                },
                None => {},
            }
            i += 1;
        }
        proof {
            assert(ids@.take(ids@.len() as int) =~= ids@);
        }
        notices
    }

    /// Assembles the flat batch the model consumes.
    ///
    /// A sequence that does not run any more is skipped rather than failing
    /// the batch; so is one that has nothing to submit.
    pub fn build_batch(&self, output: &SchedulerOutput) -> (r: Result<ForwardBatch, EngineError>)
        requires
            self.wf(),
            all_countable(output.scheduled@),
        ensures
            match r {
                Ok(batch) => {
                    &&& tables_present(self@.scheduler, output.scheduled@)
                    &&& batch_model(batch) == assembled(self@.scheduler, output.scheduled@)
                    &&& batch.consistent()
                },
                Err(e) => exists|i: int| #[trigger]
                    tableless(self@.scheduler, output.scheduled@, i) && e.is_internal(
                        sequence_text(output.scheduled@[i].id@)
                            + " was scheduled without a block table"@,
                    ),
            },
    {
        let ghost m = self@.scheduler;
        let ghost all = output.scheduled@;
        let mut batch = ForwardBatch {
            tokens: Vec::new(),
            positions: Vec::new(),
            sequence_ids: Vec::new(),
            slot_token_counts: Vec::new(),
            context_lens: Vec::new(),
            block_tables: Vec::new(),
            has_prefill: false,
        };
        let mut i: usize = 0;
        proof {
            assert(all.take(0) =~= seq![]);
            assert(batch.block_tables@.map_values(|t: Vec<u32>| t@) =~= seq![]);
        }
        while i < output.scheduled.len()
            invariant
                self.wf(),
                m == self@.scheduler,
                all == output.scheduled@,
                all_countable(all),
                i <= all.len(),
                tables_present(m, all.take(i as int)),
                batch_model(batch) == assembled(m, all.take(i as int)),
            decreases all.len() - i,
        {
            let sched = output.scheduled[i];
            proof {
                assert(all.take(i + 1).drop_last() =~= all.take(i as int));
                assert(all.take(i + 1).last() == sched);
                assert(countable(all[i as int]));
                lemma_position(m.running, sched.id);
            }
            match self.scheduler.running_sequence(sched.id) {
                None => {
                    proof {
                        lemma_tables_present_step(m, all, i as int);
                    }
                },
                Some(seq) => {
                    match self.scheduler.cache().raw_block_table(sched.id) {
                        None => {
                            let e = EngineError::Internal(
                                join2(
                                    sched.id.to_text().as_str(),
                                    " was scheduled without a block table",
                                ),
                            );
                            proof {
                                assert(tableless(m, all, i as int));
                            }
                            return Err(e);
                        },
                        Some(table) => {
                            proof {
                                assert(m.running[position(m.running, sched.id)].wf());
                                lemma_tables_present_step(m, all, i as int);
                            }
                            let tokens = submission(seq, &sched);
                            if tokens.len() > 0 {
                                append_sequence(&mut batch, &sched, tokens, table);
                            }
                        },
                    }
                },
            }
            i += 1;
        }
        proof {
            assert(all.take(all.len() as int) =~= all);
            law_assembled_batches_are_consistent(m, all);
            assert(batch.block_tables@.len() == batch_model(batch).block_tables.len());
        }
        let num_tokens: usize = batch.tokens.len();
        assert(total(batch.slot_token_counts@) == num_tokens);
        // Its parts agree by construction; the model relies on it.
        match batch.validate() {
            Ok(()) => Ok(batch),
            Err(e) => Err(e),
        }
    }

    /// Retires what timed out, schedules, and assembles the batch to run.
    ///
    /// Where nothing is scheduled, finished sequences are retired right away.
    #[verifier::rlimit(40)]
    pub fn begin_step(&mut self, now: u64) -> (r: StepStart)
        requires
            old(self).wf(),
        ensures
            final(self).wf(),
            ({
                let m = old(self)@.expired(now);
                let late = timeout_notices(
                    old(self)@.active,
                    m.scheduler.running,
                    old(self)@.scheduler.expired_ids(now),
                );
                let s = m.with_scheduler(m.scheduler.stepped(now));
                let planned = m.scheduler.planned(now);
                if planned.scheduled.len() == 0 {
                    &&& r.plan matches Ok(None)
                    &&& final(self)@ == s.reaped()
                    &&& r.notices@ == late + reap_notices(
                        s.active,
                        finished(s.scheduler.running),
                    )
                } else {
                    &&& final(self)@ == s
                    &&& r.notices@ == late
                    &&& match r.plan {
                        Ok(Some(plan)) => {
                            &&& plan.output.scheduled@ == planned.scheduled
                            &&& plan.output.preempted@ == planned.preempted
                            &&& tables_present(s.scheduler, planned.scheduled)
                            &&& batch_model(plan.batch) == assembled(
                                s.scheduler,
                                planned.scheduled,
                            )
                            &&& plan.batch.consistent()
                        },
                        Ok(None) => false,
                        Err(e) => exists|i: int| #[trigger]
                            tableless(s.scheduler, planned.scheduled, i) && e.is_internal(
                                sequence_text(planned.scheduled[i].id@)
                                    + " was scheduled without a block table"@,
                            ),
                    }
                }
            }),
    {
        let mut notices = self.expire(now);
        let ghost m = self@;
        let ghost late = notices@;
        proof {
            lemma_bounded_is_stable();
            law_step_keeps_what_is_stable(
                m.scheduler,
                |s: SequenceModel| bounded(s),
                now,
            );
        }
        let output = self.scheduler.schedule(now);
        let ghost s = self@;
        if output.is_empty() {
            let mut more = self.reap();
            notices.append(&mut more);
            proof {
                assert(notices@ =~= late + reap_notices(
                    s.active,
                    finished(s.scheduler.running),
                ));
            }
            return StepStart { notices, plan: Ok(None) };
        }
        match self.build_batch(&output) {
            Ok(batch) => StepStart { notices, plan: Ok(Some(StepPlan { output, batch })) },
            Err(e) => StepStart { notices, plan: Err(e) },
        }
    }

    /// The whole context of a sequence that a token is to be sampled for, or
    /// `None` where a token would be of no use: it is mid-prompt, does not run
    /// any more, or nobody listens.
    pub fn sampling_context(&self, id: SequenceId) -> (r: Option<Vec<TokenId>>)
        requires
            self.wf(),
        ensures
            match r {
                Some(tokens) => {
                    let s = self@.scheduler.running[position(self@.scheduler.running, id)];
                    &&& self@.takes_token(id)
                    &&& tokens@ == s.prompt + s.output
                },
                None => !self@.takes_token(id),
            },
    {
        proof {
            lemma_position(self@.scheduler.running, id);
        }
        match self.scheduler.running_sequence(id) {
            None => None,
            Some(s) => {
                proof {
                    assert(self@.scheduler.running[position(
                        self@.scheduler.running,
                        id,
                    )].wf());
                }
                if !s.is_prefill_complete() || s.is_finished() || !self.active.contains_key(
                    &id.as_u64(),
                ) {
                    return None;
                }
                Some(s.all_tokens())
            },
        }
    }

    /// What to sample a token of `id` from, for its row of the model's output:
    /// nothing for a sequence that is still prefilling, whose row is for a
    /// position in mid-prompt, and otherwise its history, as
    /// [`Engine::sampling_context`] gives it. A row that is owed and missing is
    /// an error.
    pub fn sampling_turn(&self, id: SequenceId, row: usize, present: bool) -> (r: Result<
        Option<Vec<TokenId>>,
        EngineError,
    >)
        requires
            self.wf(),
        ensures
            ({
                let running = self@.scheduler.running;
                let s = running[position(running, id)];
                if queued(running, id) && s.remaining() != 0 {
                    r matches Ok(None)
                } else if !present {
                    r matches Err(e) && e.is_internal(
                        "forward output has no row "@ + decimal(row as nat) + " for "@
                            + sequence_text(id@),
                    )
                } else {
                    match r {
                        Ok(Some(tokens)) => self@.takes_token(id) && tokens@ == s.prompt + s.output,
                        Ok(None) => !self@.takes_token(id),
                        Err(_) => false,
                    }
                }
            }),
    {
        proof {
            lemma_position(self@.scheduler.running, id);
        }
        match self.scheduler.running_sequence(id) {
            Some(s) => {
                proof {
                    assert(self@.scheduler.running[position(
                        self@.scheduler.running,
                        id,
                    )].wf());
                }
                if !s.is_prefill_complete() {
                    return Ok(None);
                }
            },
            None => {},
        }
        if !present {
            let mut m = owned("forward output has no row ");
            push_count(&mut m, row);
            m.append(" for ");
            m.append(id.to_text().as_str());
            return Err(EngineError::Internal(m));
        }
        Ok(self.sampling_context(id))
    }

    /// The sampling parameters of a running sequence.
    pub fn sampling_params(&self, id: SequenceId) -> (r: Option<&SamplingParams>)
        ensures
            match r {
                Some(p) => queued(self@.scheduler.running, id) && *p
                    == self@.scheduler.running[position(self@.scheduler.running, id)].params,
                None => !queued(self@.scheduler.running, id),
            },
    {
        match self.scheduler.running_sequence(id) {
            Some(s) => Some(s.params()),
            None => None,
        }
    }

    /// Records a sampled token. Returns the event that streams it, and why the
    /// sequence stops, if it does; `None` where the token is of no use.
    pub fn receive_token(&mut self, id: SequenceId, token: TokenId, now: u64) -> (r: Option<
        (StreamEvent, Option<FinishReason>),
    >)
        requires
            old(self).wf(),
        ensures
            final(self).wf(),
            ({
                let m = old(self)@;
                let s = m.scheduler.running[position(m.scheduler.running, id)];
                match r {
                    Some((event, reason)) => {
                        &&& m.takes_token(id)
                        &&& event matches StreamEvent::Token { token: t, text, index } && t
                            == token && text@ == Seq::<char>::empty() && index == if s.total()
                            + 1 >= m.active[id@] {
                            s.total() + 1 - m.active[id@]
                        } else {
                            0
                        }
                        &&& reason == stop_after(s.grown(token, now), token, m.eos)
                        &&& final(self)@ == m.with_scheduler(
                            m.scheduler.receiving(id, token, m.eos, now),
                        )
                    },
                    None => !m.takes_token(id) && final(self)@ == m,
                }
            }),
    {
        let ghost m = self@;
        let ghost p = position(m.scheduler.running, id);
        let keep = Ghost(|s: SequenceModel| bounded(s));
        proof {
            lemma_position(m.scheduler.running, id);
            if queued(m.scheduler.running, id) {
                assert((keep@)(m.scheduler.running[p]));
            }
        }
        let context_len: usize = match self.scheduler.running_sequence(id) {
            None => {
                return None;
            },
            Some(s) => {
                if !s.is_prefill_complete() || s.is_finished() {
                    return None;
                }
                s.total_len()
            },
        };
        let prompt_len: usize = match self.active.get(&id.as_u64()) {
            Some(n) => *n,
            None => {
                return None;
            },
        };
        let reason = self.scheduler.on_token(id, token, self.eos_ids.as_slice(), now);
        let event = StreamEvent::Token {
            token,
            text: String::new(),
            index: (context_len + 1).saturating_sub(prompt_len),
        };
        proof {
            let after = self@.scheduler.running;
            assert forall|i: int| 0 <= i < after.len() implies (keep@)(#[trigger] after[i]) by {
                if i != p {
                    assert(after[i] == m.scheduler.running[i]);
                    assert((keep@)(m.scheduler.running[i]));
                }
            }
        }
        Some((event, reason))
    }

    /// What follows once a token of `id` was offered to its caller. One that
    /// did not take it, because it is gone or does not keep up, is dropped
    /// without a word: a disconnected client should not keep consuming compute.
    /// Otherwise the request is finished if it has a reason to, and what its
    /// caller is to hear of that is returned.
    pub fn settle(&mut self, id: SequenceId, delivered: bool, reason: Option<FinishReason>) -> (r:
        Option<StreamEvent>)
        requires
            old(self).wf(),
        ensures
            final(self).wf(),
            ({
                let m = old(self)@;
                if !delivered {
                    &&& r is None
                    &&& final(self)@ == (EngineModel {
                        scheduler: m.scheduler.cancelling(id),
                        active: m.active.remove(id@),
                        ..m
                    })
                } else {
                    match reason {
                        None => r is None && final(self)@ == m,
                        Some(why) => {
                            &&& final(self)@ == (EngineModel { active: m.active.remove(id@), ..m })
                            &&& r == if m.active.contains_key(id@) {
                                Some(
                                    done_event(
                                        why,
                                        m.active[id@],
                                        generated(m.scheduler.running, id),
                                    ),
                                )
                            } else {
                                None
                            }
                        },
                    }
                }
            }),
    {
        if !delivered {
            self.cancel_silently(id);
            return None;
        }
        match reason {
            Some(reason) => self.finish_request(id, reason),
            None => None,
        }
    }

    /// Publishes the prompts that the step completed, retires what finished,
    /// and returns what callers are to be told.
    pub fn end_step(&mut self, output: &SchedulerOutput) -> (r: Vec<(SequenceId, StreamEvent)>)
        requires
            old(self).wf(),
        ensures
            final(self).wf(),
            ({
                let c = old(self)@.committing(output.scheduled@);
                &&& final(self)@ == c.reaped()
                &&& r@ == reap_notices(c.active, finished(c.scheduler.running))
            }),
    {
        let ghost m = self@;
        let ghost all = output.scheduled@;
        let mut i: usize = 0;
        proof {
            assert(all.take(0) =~= seq![]);
        }
        while i < output.scheduled.len()
            invariant
                all == output.scheduled@,
                i <= all.len(),
                self.wf(),
                self@ == m.committing(all.take(i as int)),
            decreases all.len() - i,
        {
            proof {
                assert(all.take(i + 1).drop_last() =~= all.take(i as int));
            }
            if output.scheduled[i].is_prefill {
                self.scheduler.commit_prefill(output.scheduled[i].id);
            }
            i += 1;
        }
        proof {
            assert(all.take(all.len() as int) =~= all);
        }
        self.reap()
    }
}

/// The tokens a scheduled sequence submits.
fn submission(seq: &Sequence, e: &ScheduledSequence) -> (r: Vec<TokenId>)
    requires
        countable(*e),
        seq.wf(),
    ensures
        r@ == submitted(seq@, *e),
        !e.is_prefill && e.start_position >= seq@.prompt.len() + seq@.output.len()
            && seq@.prompt.len() + seq@.output.len() > 0 ==> r@ == seq![
            (seq@.prompt + seq@.output).last(),
        ],
        !e.is_prefill && e.start_position < seq@.prompt.len() + seq@.output.len() ==> r@ == seq![
            (seq@.prompt + seq@.output)[e.start_position as int],
        ],
        e.is_prefill && e.start_position + e.num_tokens <= seq@.span ==> r@ == (seq@.prompt
            + seq@.output).subrange(
            e.start_position as int,
            e.start_position + e.num_tokens,
        ),
        e.is_prefill && e.start_position <= seq@.span < e.start_position + e.num_tokens ==> r@ == (
        seq@.prompt + seq@.output).subrange(e.start_position as int, seq@.span),
        e.is_prefill && e.start_position > seq@.span ==> r@.len() == 0,
        seq@.prompt.len() + seq@.output.len() == 0 ==> r@.len() == 0,
{
    if e.is_prefill {
        let opening = seq.opening();
        let len: usize = opening.len();
        let start: usize = if e.start_position <= len {
            e.start_position
        } else {
            len
        };
        let end: usize = if e.start_position + e.num_tokens <= len {
            e.start_position + e.num_tokens
        } else {
            len
        };
        slice_to_vec(slice_subrange(opening.as_slice(), start, end))
    } else if e.start_position < seq.total_len() {
        let history = seq.all_tokens();
        let mut out: Vec<TokenId> = Vec::new();
        out.push(history[e.start_position]);
        proof {
            assert(out@ =~= submitted(seq@, *e));
        }
        out
    } else {
        let mut out: Vec<TokenId> = Vec::new();
        let output = seq.output();
        let prompt = seq.prompt();
        if output.len() > 0 {
            out.push(output[output.len() - 1]);
        } else if prompt.len() > 0 {
            // Right after prefill there is no output yet.
            out.push(prompt[prompt.len() - 1]);
        }
        proof {
            assert(out@ =~= submitted(seq@, *e));
        }
        out
    }
}

/// Adds one sequence to a batch.
fn append_sequence(
    batch: &mut ForwardBatch,
    e: &ScheduledSequence,
    tokens: Vec<TokenId>,
    table: Vec<u32>,
)
    requires
        e.start_position + tokens@.len() <= usize::MAX,
    ensures
        batch_model(*final(batch)) == batch_model(*old(batch)).with(*e, tokens@, table@),
{
    let ghost before = batch_model(*batch);
    let count: usize = tokens.len();
    let mut k: usize = 0;
    proof {
        assert(batch.positions@ =~= before.positions + Seq::new(
            0nat,
            |k: int| (e.start_position + k) as u32,
        ));
    }
    while k < count
        invariant
            k <= count,
            e.start_position + count <= usize::MAX,
            batch.positions@ == before.positions + Seq::new(
                k as nat,
                |k: int| (e.start_position + k) as u32,
            ),
            batch.tokens == old(batch).tokens,
            batch.sequence_ids == old(batch).sequence_ids,
            batch.slot_token_counts == old(batch).slot_token_counts,
            batch.context_lens == old(batch).context_lens,
            batch.block_tables == old(batch).block_tables,
            batch.has_prefill == old(batch).has_prefill,
        decreases count - k,
    {
        batch.positions.push(truncate(e.start_position + k));
        proof {
            assert(batch.positions@ =~= before.positions + Seq::new(
                (k + 1) as nat,
                |k: int| (e.start_position + k) as u32,
            ));
        }
        k += 1;
    }
    let ghost ts = tokens@;
    let mut tokens = tokens;
    batch.tokens.append(&mut tokens);
    batch.sequence_ids.push(e.id);
    batch.slot_token_counts.push(count);
    batch.context_lens.push(e.start_position + count);
    let ghost t = table@;
    batch.block_tables.push(table);
    batch.has_prefill = batch.has_prefill || e.is_prefill;
    proof {
        let after = batch_model(*batch);
        let want = before.with(*e, ts, t);
        assert(after.tokens =~= want.tokens);
        assert(after.positions =~= want.positions);
        assert(after.block_tables =~= want.block_tables);
    }
}

/// A position as the model takes it: the low 32 bits.
#[verifier::truncate]
fn truncate(n: usize) -> (r: u32)
    ensures
        r == n as u32,
{
    n as u32
}

proof fn lemma_tables_present_step(
    m: SchedulerModel<KvCacheManager>,
    all: Seq<ScheduledSequence>,
    i: int,
)
    requires
        0 <= i < all.len(),
        tables_present(m, all.take(i)),
        queued(m.running, all[i].id) ==> m.cache.tables.contains_key(all[i].id@),
    ensures
        tables_present(m, all.take(i + 1)),
{
    let more = all.take(i + 1);
    assert forall|k: int| 0 <= k < more.len() && queued(m.running, (#[trigger] more[k]).id) implies
        m.cache.tables.contains_key(more[k].id@) by {
        if k < i {
            assert(all.take(i)[k] == more[k]);
        }
    }
}

proof fn lemma_filter_keeps(
    queue: Seq<SequenceModel>,
    f: spec_fn(SequenceModel) -> bool,
    keep: spec_fn(SequenceModel) -> bool,
)
    requires
        all_keep(queue, keep),
    ensures
        all_keep(queue.filter(f), keep),
    decreases queue.len(),
{
    reveal(Seq::filter);
    if queue.len() > 0 {
        let d = queue.drop_last();
        assert forall|i: int| 0 <= i < d.len() implies keep(#[trigger] d[i]) by {
            assert(d[i] == queue[i]);
        }
        lemma_filter_keeps(d, f, keep);
        assert(keep(queue[queue.len() - 1]));
        let r = queue.filter(f);
        assert forall|i: int| 0 <= i < r.len() implies keep(#[trigger] r[i]) by {
            if i < d.filter(f).len() {
                assert(r[i] == d.filter(f)[i]);
            }
        }
    }
}

proof fn lemma_cancelling_bounded(s: SchedulerModel<KvCacheManager>, id: SequenceId)
    requires
        all_keep(s.running, |s: SequenceModel| bounded(s)),
        all_keep(s.waiting, |s: SequenceModel| bounded(s)),
    ensures
        all_keep(s.cancelling(id).running, |s: SequenceModel| bounded(s)),
        all_keep(s.cancelling(id).waiting, |s: SequenceModel| bounded(s)),
{
    let keep = |s: SequenceModel| bounded(s);
    let c = s.cancelling(id);
    lemma_position(s.waiting, id);
    lemma_position(s.running, id);
    let w = position(s.waiting, id);
    let r = position(s.running, id);
    assert forall|i: int| 0 <= i < c.waiting.len() implies keep(#[trigger] c.waiting[i]) by {
        let j = if w < s.waiting.len() && i >= w {
            i + 1
        } else {
            i
        };
        assert(c.waiting[i] == s.waiting[j]);
    }
    assert forall|i: int| 0 <= i < c.running.len() implies keep(#[trigger] c.running[i]) by {
        let j = if c.running.len() < s.running.len() && i >= r {
            i + 1
        } else {
            i
        };
        assert(c.running[i] == s.running[j]);
    }
}

proof fn lemma_expired_bounded(s: SchedulerModel<KvCacheManager>, now: u64)
    requires
        all_keep(s.running, |s: SequenceModel| bounded(s)),
        all_keep(s.waiting, |s: SequenceModel| bounded(s)),
    ensures
        all_keep(s.expired(now).running, |s: SequenceModel| bounded(s)),
        all_keep(s.expired(now).waiting, |s: SequenceModel| bounded(s)),
{
    let keep = |s: SequenceModel| bounded(s);
    match s.config.request_timeout_secs {
        Some(limit) => {
            let e = s.expired(now);
            assert forall|i: int| 0 <= i < e.running.len() implies keep(
                #[trigger] e.running[i],
            ) by {
                assert(keep(s.running[i]));
            }
            lemma_filter_keeps(
                s.waiting,
                |q: SequenceModel| !overdue(q, limit, now),
                keep,
            );
        },
        None => {},
    }
}

/// The caller of a request that ends hears of it once: what is announced is
/// not listened for any more.
pub proof fn law_ends_are_announced_once(active: Map<u64, usize>, ids: Seq<SequenceId>, id: SequenceId)
    requires
        ids.contains(id),
    ensures
        !without(active, ids).contains_key(id@),
    decreases ids.len(),
{
    if ids.last() != id {
        let i = ids.index_of(id);
        assert(ids.drop_last()[i] == id);
        law_ends_are_announced_once(active, ids.drop_last(), id);
    }
}

} // verus!
