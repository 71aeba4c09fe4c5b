//! What a step puts into its batch, and in what order.

use crate::config::SchedulerConfig;
use crate::id::SequenceId;
use crate::scheduler::cache::KvCacheManagerLike;
use crate::scheduler::policy::{
    batched_tokens, chunk_of, count_by_kind, decoders, partials, prefill_chunk, tokens_by_kind,
    turned_decoder, Pass, ScheduledSequence, SchedulerModel,
};
use crate::scheduler::queue::{lemma_position, lemma_position_is, position, queued};
use crate::sequence::SequenceModel;
use vstd::prelude::*;

verus! {

// ----- sizes ----------------------------------------------------------------------

/// A chunk is never more than what is left or what there is room for; where
/// prompts may be cut it is as much as both allow, and else all or nothing.
pub proof fn law_chunks_use_the_room(chunked: bool, remaining: int, room: int)
    requires
        remaining >= 0,
        room >= 0,
    ensures
        0 <= chunk_of(chunked, remaining, room) <= remaining,
        chunk_of(chunked, remaining, room) <= room,
        chunked ==> chunk_of(chunked, remaining, room) == remaining || chunk_of(
            chunked,
            remaining,
            room,
        ) == room,
        remaining <= room ==> chunk_of(chunked, remaining, room) == remaining,
        !chunked && remaining > room ==> chunk_of(chunked, remaining, room) == 0,
{
}

/// Every entry of a batch is prefill or decode work, and the tokens and entries
/// of the two kinds add up to the batch.
pub proof fn law_the_two_kinds_make_up_a_batch(batch: Seq<ScheduledSequence>)
    ensures
        tokens_by_kind(batch, true) + tokens_by_kind(batch, false) == batched_tokens(batch),
        count_by_kind(batch, true) + count_by_kind(batch, false) == batch.len(),
        count_by_kind(batch, true) >= 0,
        count_by_kind(batch, false) >= 0,
        batch.len() == 1 ==> batched_tokens(batch) == batch[0].num_tokens,
        batch.len() == 1 ==> count_by_kind(batch, batch[0].is_prefill) == 1,
        batch.len() == 1 ==> tokens_by_kind(batch, batch[0].is_prefill) == batch[0].num_tokens,
    decreases batch.len(),
{
    if batch.len() > 0 {
        law_the_two_kinds_make_up_a_batch(batch.drop_last());
        if batch.len() == 1 {
            assert(batch.drop_last() =~= seq![]);
        }
    }
}

/// One more entry counts to its own kind.
pub proof fn law_an_entry_counts_to_its_kind(batch: Seq<ScheduledSequence>, e: ScheduledSequence)
    ensures
        batched_tokens(batch.push(e)) == batched_tokens(batch) + e.num_tokens,
        tokens_by_kind(batch.push(e), e.is_prefill) == tokens_by_kind(batch, e.is_prefill)
            + e.num_tokens,
        tokens_by_kind(batch.push(e), !e.is_prefill) == tokens_by_kind(batch, !e.is_prefill),
        count_by_kind(batch.push(e), e.is_prefill) == count_by_kind(batch, e.is_prefill) + 1,
        count_by_kind(batch.push(e), !e.is_prefill) == count_by_kind(batch, !e.is_prefill),
{
    assert(batch.push(e).drop_last() =~= batch);
}

// ----- candidates -----------------------------------------------------------------

/// Whether a candidate is the running sequence at that place, with the position
/// of the token that it computes next.
pub open spec fn decodes_at(running: Seq<SequenceModel>, c: (SequenceId, usize), i: int) -> bool {
    &&& 0 <= i < running.len()
    &&& running[i].state is Decoding
    &&& c.0 == running[i].id
    &&& running[i].computed < running[i].target ==> c.1 == running[i].computed
    &&& running[i].computed == running[i].target ==> c.1 == running[i].prompt.len()
        + running[i].output.len()
}

/// The candidates for a token are the running sequences that decode, and no
/// others. Each stands at the first token that has to be computed again, or
/// behind its history.
pub proof fn law_decoders_are_candidates(running: Seq<SequenceModel>, k: int) -> (i: int)
    requires
        forall|i: int| 0 <= i < running.len() ==> (#[trigger] running[i]).wf(),
        0 <= k < decoders(running).len(),
    ensures
        decodes_at(running, decoders(running)[k], i),
    decreases running.len(),
{
    let front = running.drop_last();
    if k < decoders(front).len() {
        assert forall|i: int| 0 <= i < front.len() implies (#[trigger] front[i]).wf() by {
            assert(front[i] == running[i]);
        }
        let i = law_decoders_are_candidates(front, k);
        assert(running[i] == front[i]);
        i
    } else {
        assert(running[running.len() - 1].wf());
        running.len() - 1
    }
}

/// Every running sequence that decodes is a candidate.
pub proof fn law_every_decoder_is_a_candidate(running: Seq<SequenceModel>, i: int) -> (k: int)
    requires
        forall|i: int| 0 <= i < running.len() ==> (#[trigger] running[i]).wf(),
        0 <= i < running.len(),
        running[i].state is Decoding,
    ensures
        0 <= k < decoders(running).len(),
        decodes_at(running, decoders(running)[k], i),
    decreases running.len(),
{
    let front = running.drop_last();
    assert(running[i].wf());
    if i < front.len() {
        assert forall|i: int| 0 <= i < front.len() implies (#[trigger] front[i]).wf() by {
            assert(front[i] == running[i]);
        }
        let k = law_every_decoder_is_a_candidate(front, i);
        assert(running[i] == front[i]);
        k
    } else {
        decoders(front).len() as int
    }
}

/// The started prompts are those of the running sequences that still prefill,
/// each with what is done and what is left of its chunks.
pub proof fn law_started_prompts_are_candidates(running: Seq<SequenceModel>, k: int) -> (i: int)
    requires
        forall|i: int| 0 <= i < running.len() ==> (#[trigger] running[i]).wf(),
        0 <= k < partials(running).len(),
    ensures
        0 <= i < running.len(),
        running[i].state is Prefilling,
        partials(running)[k].0 == running[i].id,
        partials(running)[k].1 == running[i].computed,
        partials(running)[k].2 > 0,
        partials(running)[k].1 + partials(running)[k].2 == running[i].span,
    decreases running.len(),
{
    let front = running.drop_last();
    if k < partials(front).len() {
        assert forall|i: int| 0 <= i < front.len() implies (#[trigger] front[i]).wf() by {
            assert(front[i] == running[i]);
        }
        let i = law_started_prompts_are_candidates(front, k);
        assert(running[i] == front[i]);
        i
    } else {
        assert(running[running.len() - 1].wf());
        running.len() - 1
    }
}

/// Every running sequence that still prefills is among the started prompts.
pub proof fn law_every_started_prompt_is_a_candidate(running: Seq<SequenceModel>, i: int) -> (k: int)
    requires
        forall|i: int| 0 <= i < running.len() ==> (#[trigger] running[i]).wf(),
        0 <= i < running.len(),
        running[i].state is Prefilling,
        running[i].computed < running[i].span,
    ensures
        0 <= k < partials(running).len(),
        partials(running)[k].0 == running[i].id,
        partials(running)[k].1 == running[i].computed,
    decreases running.len(),
{
    let front = running.drop_last();
    assert(running[i].wf());
    if i < front.len() {
        assert forall|i: int| 0 <= i < front.len() implies (#[trigger] front[i]).wf() by {
            assert(front[i] == running[i]);
        }
        let k = law_every_started_prompt_is_a_candidate(front, i);
        assert(running[i] == front[i]);
        k
    } else {
        partials(front).len() as int
    }
}

// ----- order ----------------------------------------------------------------------

/// Whether a batch begins with another and has only entries of one kind behind
/// it.
pub open spec fn extends(
    a: Seq<ScheduledSequence>,
    b: Seq<ScheduledSequence>,
    prefill: bool,
) -> bool {
    &&& a.len() <= b.len()
    &&& forall|i: int| 0 <= i < a.len() ==> #[trigger] b[i] == a[i]
    &&& forall|i: int| a.len() <= i < b.len() ==> (#[trigger] b[i]).is_prefill == prefill
}

proof fn lemma_decode_extends<C: KvCacheManagerLike>(
    p: Pass<C>,
    candidates: Seq<(SequenceId, usize)>,
    budget: int,
)
    ensures
        extends(p.scheduled, p.decode(candidates, budget).scheduled, false),
        forall|i: int|
            p.scheduled.len() <= i < p.decode(candidates, budget).scheduled.len() ==> (
            #[trigger] p.decode(candidates, budget).scheduled[i]).num_tokens == 1,
    decreases candidates.len(),
{
    if candidates.len() > 0 && p.used < budget {
        let (id, at) = candidates[0];
        let rest = candidates.drop_first();
        let tried = p.try_decode(id, at);
        if p.is_stuck(id) {
            lemma_decode_extends(tried.evict().try_decode(id, at), rest, budget);
        } else {
            lemma_decode_extends(tried, rest, budget);
        }
    }
}

proof fn lemma_continue_extends<C: KvCacheManagerLike>(
    p: Pass<C>,
    candidates: Seq<(SequenceId, usize, usize)>,
    budget: int,
    chunked: bool,
    now: u64,
)
    ensures
        extends(
            p.scheduled,
            p.continue_prefills(candidates, budget, chunked, now).scheduled,
            true,
        ),
    decreases candidates.len(),
{
    if candidates.len() > 0 && p.used < budget {
        let (id, done, left) = candidates[0];
        let rest = candidates.drop_first();
        let chunk = chunk_of(chunked, left as int, budget - p.used);
        let at = position(p.running, id);
        if chunk == 0 || at >= p.running.len() {
            lemma_continue_extends(p, rest, budget, chunked, now);
        } else {
            let q = Pass {
                running: p.running.update(
                    at,
                    turned_decoder(p.running[at].prefilled(chunk), now),
                ),
                ..p.granted(
                    ScheduledSequence {
                        id,
                        num_tokens: chunk as usize,
                        start_position: done,
                        is_prefill: true,
                    },
                )
            };
            lemma_continue_extends(q, rest, budget, chunked, now);
        }
    }
}

proof fn lemma_fill_extends<C: KvCacheManagerLike>(p: Pass<C>, config: SchedulerConfig, now: u64)
    ensures
        extends(p.scheduled, p.fill(config, now).scheduled, true),
    decreases config.max_num_batched_tokens - p.used, p.running.len(),
{
    if p.considers(config) {
        if p.head_is_blocked() {
            if p.running.len() > 0 {
                lemma_fill_extends(p.evict(), config, now);
            }
        } else if !p.head_is_refused() {
            lemma_fill_extends(p.admit_head(config, now), config, now);
        }
    }
}

/// Where decoding has priority, the decode entries of a batch come before its
/// prefill entries; else behind them. A decode entry is one token.
pub proof fn law_priority_orders_the_batch<C: KvCacheManagerLike>(
    s: SchedulerModel<C>,
    now: u64,
    i: int,
    j: int,
)
    requires
        0 <= i < j < s.planned(now).scheduled.len(),
    ensures
        s.config.prioritize_decode && s.planned(now).scheduled[i].is_prefill ==> s.planned(
            now,
        ).scheduled[j].is_prefill,
        !s.config.prioritize_decode && !s.planned(now).scheduled[i].is_prefill ==> !s.planned(
            now,
        ).scheduled[j].is_prefill,
{
    let b = s.begin();
    let budget = s.config.max_num_batched_tokens as int;
    let chunked = s.config.enable_chunked_prefill;
    if s.config.prioritize_decode {
        let d = b.decode(decoders(s.running), budget);
        let c = d.continue_prefills(partials(d.running), budget, chunked, now);
        lemma_decode_extends(b, decoders(s.running), budget);
        lemma_continue_extends(d, partials(d.running), budget, chunked, now);
        lemma_fill_extends(c, s.config, now);
        let f = c.fill(s.config, now);
        assert(f == s.planned(now));
        if i < d.scheduled.len() {
            assert(d.scheduled[i].is_prefill == false);
            assert(c.scheduled[i] == d.scheduled[i]);
            assert(f.scheduled[i] == c.scheduled[i]);
        } else if j < c.scheduled.len() {
            assert(c.scheduled[j].is_prefill);
            assert(f.scheduled[j] == c.scheduled[j]);
        } else {
            assert(f.scheduled[j].is_prefill);
        }
    } else {
        let c = b.continue_prefills(partials(b.running), budget, chunked, now);
        let f = c.fill(s.config, now);
        let d = f.decode(decoders(f.running), budget);
        lemma_continue_extends(b, partials(b.running), budget, chunked, now);
        lemma_fill_extends(c, s.config, now);
        lemma_decode_extends(f, decoders(f.running), budget);
        assert(d == s.planned(now));
        if i < f.scheduled.len() {
            if i < c.scheduled.len() {
                assert(c.scheduled[i].is_prefill);
                assert(f.scheduled[i] == c.scheduled[i]);
            } else {
                assert(f.scheduled[i].is_prefill);
            }
            assert(d.scheduled[i] == f.scheduled[i]);
        } else {
            assert(!d.scheduled[j].is_prefill);
        }
    }
}

/// A decode entry of a batch is one token.
pub proof fn law_decode_entries_are_one_token<C: KvCacheManagerLike>(
    s: SchedulerModel<C>,
    now: u64,
    i: int,
)
    requires
        0 <= i < s.planned(now).scheduled.len(),
        !s.planned(now).scheduled[i].is_prefill,
    ensures
        s.planned(now).scheduled[i].num_tokens == 1,
{
    let b = s.begin();
    let budget = s.config.max_num_batched_tokens as int;
    let chunked = s.config.enable_chunked_prefill;
    if s.config.prioritize_decode {
        let d = b.decode(decoders(s.running), budget);
        let c = d.continue_prefills(partials(d.running), budget, chunked, now);
        lemma_decode_extends(b, decoders(s.running), budget);
        lemma_continue_extends(d, partials(d.running), budget, chunked, now);
        lemma_fill_extends(c, s.config, now);
        let f = c.fill(s.config, now);
        if i < d.scheduled.len() {
            assert(d.scheduled[i].num_tokens == 1);
            assert(c.scheduled[i] == d.scheduled[i]);
            assert(f.scheduled[i] == c.scheduled[i]);
        } else if i < c.scheduled.len() {
            assert(c.scheduled[i].is_prefill);
            assert(f.scheduled[i] == c.scheduled[i]);
        } else {
            assert(f.scheduled[i].is_prefill);
        }
    } else {
        let c = b.continue_prefills(partials(b.running), budget, chunked, now);
        let f = c.fill(s.config, now);
        let d = f.decode(decoders(f.running), budget);
        lemma_continue_extends(b, partials(b.running), budget, chunked, now);
        lemma_fill_extends(c, s.config, now);
        lemma_decode_extends(f, decoders(f.running), budget);
        if i < f.scheduled.len() {
            if i < c.scheduled.len() {
                assert(c.scheduled[i].is_prefill);
                assert(f.scheduled[i] == c.scheduled[i]);
            } else {
                assert(f.scheduled[i].is_prefill);
            }
            assert(d.scheduled[i] == f.scheduled[i]);
        } else {
            assert(d.scheduled[i].num_tokens == 1);
        }
    }
}

// ----- what is served -------------------------------------------------------------

/// The first candidate that runs and has room in the cache gets the next entry of
/// the batch: one token, at its position. What it had to compute again is one
/// token less; no one else changes.
pub proof fn law_the_next_decoder_is_served<C: KvCacheManagerLike>(
    p: Pass<C>,
    candidates: Seq<(SequenceId, usize)>,
    budget: int,
    i: int,
)
    requires
        candidates.len() > 0,
        p.used < budget,
        0 <= i < p.running.len(),
        p.running[i].id == candidates[0].0,
        forall|j: int| 0 <= j < i ==> (#[trigger] p.running[j]).id != candidates[0].0,
        C::appends(p.cache, candidates[0].0@),
    ensures
        p.decode(candidates, budget).scheduled.len() > p.scheduled.len(),
        p.decode(candidates, budget).scheduled[p.scheduled.len() as int] == (ScheduledSequence {
            id: candidates[0].0,
            num_tokens: 1,
            start_position: candidates[0].1,
            is_prefill: false,
        }),
        ({
            let t = p.try_decode(candidates[0].0, candidates[0].1);
            &&& t.cache == C::after_append(p.cache, candidates[0].0@)
            &&& t.used == p.used + 1
            &&& t.waiting == p.waiting
            &&& t.preempted == p.preempted
            &&& t.running.len() == p.running.len()
            &&& forall|j: int|
                0 <= j < p.running.len() && j != i ==> #[trigger] t.running[j] == p.running[j]
            &&& p.running[i].state is Decoding && p.running[i].computed < p.running[i].target
                ==> t.running[i].computed == p.running[i].computed + 1
            &&& !(p.running[i].state is Decoding && p.running[i].computed < p.running[i].target)
                && p.running[i].wf() ==> t.running[i] == p.running[i]
        }),
{
    let (id, at) = candidates[0];
    lemma_position_is(p.running, id, i);
    let t = p.try_decode(id, at);
    lemma_decode_extends(t, candidates.drop_first(), budget);
    assert(t.scheduled[p.scheduled.len() as int] == (ScheduledSequence {
        id,
        num_tokens: 1,
        start_position: at,
        is_prefill: false,
    }));
}

/// Where the cache has no room for a running candidate, the newest running
/// sequence gives back its blocks and waits at the front, to start over.
pub proof fn law_the_newest_makes_room<C: KvCacheManagerLike>(p: Pass<C>, id: SequenceId)
    requires
        p.is_stuck(id),
    ensures
        exists|i: int| 0 <= i < p.running.len() && (#[trigger] p.running[i]).id == id,
        !C::appends(p.cache, id@),
        p.running.len() > 0,
        p.evict().running == p.running.drop_last(),
        p.evict().waiting.len() == p.waiting.len() + 1,
        p.evict().waiting.skip(1) == p.waiting,
        p.evict().cache == C::after_free(p.cache, p.running.last().id@),
        p.evict().preempted == p.preempted.push(p.running.last().id),
        p.evict().scheduled == p.scheduled,
        p.evict().used == p.used,
        ({
            let v = p.running.last();
            let w = p.evict().waiting[0];
            &&& w.id == v.id
            &&& w.prompt == v.prompt
            &&& w.output == v.output
            &&& w.params == v.params
            &&& v.state is Prefilling || v.state is Decoding ==> w.state is Waiting && w.computed
                == 0 && w.target == v.prompt.len() + v.output.len()
            &&& v.state is Finished || v.state is Waiting ==> w == v
        }),
{
    lemma_position(p.running, id);
    assert(p.running[position(p.running, id)].id == id);
    assert(p.evict().waiting.skip(1) =~= p.waiting);
}

/// A waiting sequence at the front that has a slot, budget and room in the cache
/// gets the next entry of the batch, and runs behind the others.
pub proof fn law_what_fits_is_admitted<C: KvCacheManagerLike>(
    p: Pass<C>,
    config: SchedulerConfig,
    now: u64,
)
    requires
        p.waiting.len() > 0,
        p.waiting[0].wf(),
        p.waiting[0].state is Waiting,
        p.waiting[0].computed == 0,
        p.waiting[0].target == p.waiting[0].prompt.len() + p.waiting[0].output.len(),
        p.waiting[0].target > 0,
        p.running.len() < config.max_num_seqs,
        0 <= p.used < config.max_num_batched_tokens,
        p.waiting[0].target <= config.max_num_batched_tokens - p.used,
        C::needs(p.cache, p.waiting[0].target) <= C::available(p.cache),
        C::allocates(p.cache, p.waiting[0].id@, p.waiting[0].prompt + p.waiting[0].output),
    ensures
        p.fill(config, now).scheduled.len() > p.scheduled.len(),
        p.fill(config, now).scheduled[p.scheduled.len() as int] == (ScheduledSequence {
            id: p.waiting[0].id,
            num_tokens: p.waiting[0].target as usize,
            start_position: 0,
            is_prefill: true,
        }),
        ({
            let a = p.admit_head(config, now);
            &&& a.running.len() == p.running.len() + 1
            &&& a.running.take(p.running.len() as int) == p.running
            &&& a.running.last().id == p.waiting[0].id
            &&& a.running.last().state is Decoding
            &&& a.running.last().computed == p.waiting[0].target
            &&& a.waiting == p.waiting.skip(1)
            &&& a.cache == C::after_allocate(
                p.cache,
                p.waiting[0].id@,
                p.waiting[0].prompt + p.waiting[0].output,
            )
            &&& a.used == p.used + p.waiting[0].target
        }),
{
    let h = p.head();
    assert(h.opening() =~= p.waiting[0].prompt + p.waiting[0].output);
    assert(p.considers(config));
    let a = p.admit_head(config, now);
    assert(a.waiting =~= p.waiting.skip(1));
    assert(a.running.take(p.running.len() as int) =~= p.running);
    lemma_fill_extends(a, config, now);
    assert(a.scheduled[p.scheduled.len() as int].id == p.waiting[0].id);
}

/// Nothing is admitted without a slot, without budget, or from an empty queue;
/// and a prompt for which no blocks are free waits where nothing runs that could
/// make room.
pub proof fn law_what_does_not_fit_waits<C: KvCacheManagerLike>(
    p: Pass<C>,
    config: SchedulerConfig,
    now: u64,
)
    ensures
        p.running.len() >= config.max_num_seqs ==> p.fill(config, now) == p,
        p.used >= config.max_num_batched_tokens ==> p.fill(config, now) == p,
        p.waiting.len() == 0 ==> p.fill(config, now) == p,
        p.running.len() == 0 && p.waiting.len() > 0 && p.waiting[0].computed == 0
            && p.waiting[0].wf() && C::needs(p.cache, p.waiting[0].prompt.len() as int)
            > C::available(p.cache) && C::needs(p.cache, p.waiting[0].target) > C::available(
            p.cache,
        ) ==> p.fill(config, now) == p,
        !config.enable_chunked_prefill && p.waiting.len() > 0 && p.waiting[0].wf()
            && p.waiting[0].computed == 0 && p.waiting[0].prompt.len()
            > config.max_num_batched_tokens - p.used ==> p.fill(config, now) == p,
{
}

/// What a restarted sequence prefills in chunks: all of its history where the
/// cache has the blocks for it, and else its prompt.
pub proof fn law_restarts_take_what_the_cache_holds<C: KvCacheManagerLike>(p: Pass<C>)
    requires
        p.waiting.len() > 0,
        p.waiting[0].computed == 0,
    ensures
        C::needs(p.cache, p.waiting[0].target) <= C::available(p.cache) ==> p.head().span
            == p.waiting[0].target,
        C::needs(p.cache, p.waiting[0].target) > C::available(p.cache) ==> p.head().span
            == p.waiting[0].prompt.len(),
        p.head().id == p.waiting[0].id,
        p.head().prompt == p.waiting[0].prompt,
        p.head().output == p.waiting[0].output,
        p.head().target == p.waiting[0].target,
        p.head().computed == 0,
{
}

/// The first started prompt gets its next chunk, from where it had got to: as much of
/// what is left as there is budget for where prompts may be cut, and else all of it
/// where that fits.
pub proof fn law_the_next_started_prompt_is_served<C: KvCacheManagerLike>(
    p: Pass<C>,
    candidates: Seq<(SequenceId, usize, usize)>,
    budget: int,
    chunked: bool,
    now: u64,
    i: int,
)
    requires
        candidates.len() > 0,
        p.used < budget <= usize::MAX,
        candidates[0].2 > 0,
        chunked || candidates[0].2 <= budget - p.used,
        0 <= i < p.running.len(),
        p.running[i].id == candidates[0].0,
        forall|j: int| 0 <= j < i ==> (#[trigger] p.running[j]).id != candidates[0].0,
        0 <= p.used,
    ensures
        ({
            let after = p.continue_prefills(candidates, budget, chunked, now).scheduled;
            let room = budget - p.used;
            &&& after.len() > p.scheduled.len()
            &&& after[p.scheduled.len() as int].id == candidates[0].0
            &&& after[p.scheduled.len() as int].start_position == candidates[0].1
            &&& after[p.scheduled.len() as int].is_prefill
            &&& candidates[0].2 <= room ==> after[p.scheduled.len() as int].num_tokens
                == candidates[0].2
            &&& candidates[0].2 > room ==> after[p.scheduled.len() as int].num_tokens == room
        }),
{
    let (id, done, left) = candidates[0];
    lemma_position_is(p.running, id, i);
    let chunk = chunk_of(chunked, left as int, budget - p.used);
    let e = ScheduledSequence {
        id,
        num_tokens: chunk as usize,
        start_position: done,
        is_prefill: true,
    };
    let q = Pass {
        running: p.running.update(i, turned_decoder(p.running[i].prefilled(chunk), now)),
        ..p.granted(e)
    };
    lemma_continue_extends(q, candidates.drop_first(), budget, chunked, now);
    assert(q.scheduled[p.scheduled.len() as int] == e);
}

/// A prompt that does not fit whole, where prompts may not be cut, is passed over for
/// the next.
pub proof fn law_what_does_not_fit_whole_is_passed_over<C: KvCacheManagerLike>(
    p: Pass<C>,
    candidates: Seq<(SequenceId, usize, usize)>,
    budget: int,
    now: u64,
)
    requires
        candidates.len() > 0,
        candidates[0].2 > budget - p.used,
    ensures
        p.used < budget ==> p.continue_prefills(candidates, budget, false, now)
            == p.continue_prefills(candidates.skip(1), budget, false, now),
        p.used >= budget ==> p.continue_prefills(candidates, budget, false, now) == p,
{
    assert(candidates.skip(1) =~= candidates.drop_first());
}

/// Started prompts come before new ones: where one runs and there is budget, it gets
/// the first entry of the prefill work.
pub proof fn law_started_prompts_come_first<C: KvCacheManagerLike>(
    p: Pass<C>,
    config: SchedulerConfig,
    now: u64,
    i: int,
)
    requires
        partials(p.running).len() > 0,
        0 <= p.used < config.max_num_batched_tokens,
        config.enable_chunked_prefill,
        partials(p.running)[0].2 > 0,
        0 <= i < p.running.len(),
        p.running[i].id == partials(p.running)[0].0,
        forall|j: int| 0 <= j < i ==> (#[trigger] p.running[j]).id != partials(p.running)[0].0,
    ensures
        p.prefill(config, now).scheduled.len() > p.scheduled.len(),
        p.prefill(config, now).scheduled[p.scheduled.len() as int].id == partials(p.running)[0].0,
        p.prefill(config, now).scheduled[p.scheduled.len() as int].start_position == partials(
            p.running,
        )[0].1,
{
    let budget = config.max_num_batched_tokens as int;
    law_the_next_started_prompt_is_served(p, partials(p.running), budget, true, now, i);
    let c = p.continue_prefills(partials(p.running), budget, true, now);
    lemma_fill_extends(c, config, now);
    assert(c.fill(config, now).scheduled[p.scheduled.len() as int] == c.scheduled[p.scheduled.len() as int]);
}

/// A decoder for which there was no room is tried once more after the newest running
/// sequence made some.
pub proof fn law_a_stuck_decoder_is_tried_again<C: KvCacheManagerLike>(
    p: Pass<C>,
    candidates: Seq<(SequenceId, usize)>,
    budget: int,
)
    requires
        candidates.len() > 0,
        p.used < budget,
        p.is_stuck(candidates[0].0),
    ensures
        ({
            let (id, at) = candidates[0];
            let e = (Pass { cache: C::after_append(p.cache, id@), ..p }).evict();
            let after = p.decode(candidates, budget);
            &&& queued(e.running, id) && C::appends(e.cache, id@) ==> after.scheduled.len()
                > p.scheduled.len() && after.scheduled[p.scheduled.len() as int] == (
            ScheduledSequence { id, num_tokens: 1, start_position: at, is_prefill: false })
            &&& !queued(e.running, id) ==> after == e.decode(candidates.skip(1), budget)
            &&& after.preempted.len() > p.preempted.len()
            &&& after.preempted[p.preempted.len() as int] == p.running.last().id
        }),
{
    let (id, at) = candidates[0];
    let rest = candidates.drop_first();
    let tried = p.try_decode(id, at);
    let e = tried.evict();
    let again = e.try_decode(id, at);
    assert(candidates.skip(1) =~= rest);
    lemma_decode_extends(again, rest, budget);
    lemma_decode_preempts(again, rest, budget);
    if queued(e.running, id) && C::appends(e.cache, id@) {
        assert(again.scheduled[p.scheduled.len() as int] == (ScheduledSequence {
            id,
            num_tokens: 1,
            start_position: at,
            is_prefill: false,
        }));
    }
    assert(again.preempted[p.preempted.len() as int] == p.running.last().id);
}

proof fn lemma_decode_preempts<C: KvCacheManagerLike>(
    p: Pass<C>,
    candidates: Seq<(SequenceId, usize)>,
    budget: int,
)
    ensures
        p.preempted.len() <= p.decode(candidates, budget).preempted.len(),
        forall|i: int|
            0 <= i < p.preempted.len() ==> #[trigger] p.decode(candidates, budget).preempted[i]
                == p.preempted[i],
    decreases candidates.len(),
{
    if candidates.len() > 0 && p.used < budget {
        let (id, at) = candidates[0];
        let rest = candidates.drop_first();
        let tried = p.try_decode(id, at);
        if p.is_stuck(id) {
            lemma_decode_preempts(tried.evict().try_decode(id, at), rest, budget);
        } else {
            lemma_decode_preempts(tried, rest, budget);
        }
    }
}

/// The two parts of a step: decoding has the decoders that run when it begins, which
/// after the prefill part are also those that the part completed.
pub proof fn law_a_step_has_two_parts<C: KvCacheManagerLike>(s: SchedulerModel<C>, now: u64)
    ensures
        ({
            let start = Pass::<C> {
                waiting: s.waiting,
                running: s.running,
                cache: s.cache,
                scheduled: seq![],
                preempted: seq![],
                used: 0,
            };
            let budget = s.config.max_num_batched_tokens as int;
            let filled = start.prefill(s.config, now);
            &&& s.config.prioritize_decode ==> s.planned(now) == start.decode(
                decoders(s.running),
                budget,
            ).prefill(s.config, now)
            &&& !s.config.prioritize_decode ==> s.planned(now) == filled.decode(
                decoders(filled.running),
                budget,
            )
        }),
{
}

/// A chunk moves a sequence on by its tokens; a waiting one starts, with the time
/// of its first start kept; and it decodes once its chunks are complete.
pub proof fn law_a_chunk_moves_a_sequence_on(s: SequenceModel, chunk: int, now: u64)
    requires
        s.wf(),
        s.state is Waiting || s.state is Prefilling,
        0 < chunk <= s.left(),
    ensures
        prefill_chunk(s, chunk, now).computed == s.computed + chunk,
        prefill_chunk(s, chunk, now).prompt == s.prompt,
        prefill_chunk(s, chunk, now).output == s.output,
        chunk == s.span - s.computed ==> prefill_chunk(s, chunk, now).state is Decoding,
        chunk < s.span - s.computed ==> prefill_chunk(s, chunk, now).state is Prefilling,
        s.state is Waiting && s.timings.first_scheduled_at is None ==> prefill_chunk(
            s,
            chunk,
            now,
        ).timings.first_scheduled_at == Some(now),
        s.timings.first_scheduled_at is Some ==> prefill_chunk(s, chunk, now).timings == s.timings,
        s.state is Prefilling ==> prefill_chunk(s, chunk, now) == turned_decoder(
            s.prefilled(chunk),
            now,
        ),
{
}

// ----- what is counted ------------------------------------------------------------

/// A step is counted once, as busy where it scheduled anything; its preemptions
/// and tokens are added to the totals; requests are neither admitted nor finished
/// by it.
pub proof fn law_a_step_is_counted<C: KvCacheManagerLike>(s: SchedulerModel<C>, now: u64)
    ensures
        ({
            let a = s.stats;
            let b = s.stepped(now).stats;
            let p = s.planned(now);
            &&& a.total_steps < u64::MAX ==> b.total_steps == a.total_steps + 1
            &&& p.scheduled.len() > 0 && a.busy_steps < u64::MAX ==> b.busy_steps == a.busy_steps
                + 1
            &&& p.scheduled.len() == 0 ==> b.busy_steps == a.busy_steps
            &&& a.total_preempted + p.preempted.len() <= u64::MAX ==> b.total_preempted
                == a.total_preempted + p.preempted.len()
            &&& 0 <= batched_tokens(p.scheduled) && a.total_batched_tokens + batched_tokens(
                p.scheduled,
            ) <= u64::MAX ==> b.total_batched_tokens == a.total_batched_tokens + batched_tokens(
                p.scheduled,
            )
            &&& 0 <= tokens_by_kind(p.scheduled, true) && a.total_prefill_tokens + tokens_by_kind(
                p.scheduled,
                true,
            ) <= u64::MAX ==> b.total_prefill_tokens == a.total_prefill_tokens + tokens_by_kind(
                p.scheduled,
                true,
            )
            &&& 0 <= tokens_by_kind(p.scheduled, false) && a.total_decode_tokens + tokens_by_kind(
                p.scheduled,
                false,
            ) <= u64::MAX ==> b.total_decode_tokens == a.total_decode_tokens + tokens_by_kind(
                p.scheduled,
                false,
            )
            &&& b.total_admitted == a.total_admitted
            &&& b.total_finished == a.total_finished
            &&& b.total_rejected == a.total_rejected
            &&& s.stepped(now).waiting == p.waiting
            &&& s.stepped(now).running == p.running
            &&& s.stepped(now).cache == p.cache
        }),
{
}

/// A prompt for which too few blocks are free makes the newest running sequence give
/// back its own; one that the cache refuses all the same waits on, at the front, as
/// it was.
pub proof fn law_a_blocked_prompt_makes_room<C: KvCacheManagerLike>(
    p: Pass<C>,
    config: SchedulerConfig,
    now: u64,
)
    requires
        p.considers(config),
    ensures
        p.head_is_blocked() <==> p.head().computed == 0 && C::needs(p.cache, p.head().span)
            > C::available(p.cache),
        p.head_is_refused() <==> p.head().computed == 0 && !C::allocates(
            p.cache,
            p.head().id@,
            (p.head().prompt + p.head().output).take(p.head().span),
        ),
        p.head_is_blocked() && p.running.len() > 0 ==> p.fill(config, now) == p.evict().fill(
            config,
            now,
        ),
        !p.head_is_blocked() && p.head_is_refused() ==> {
            let r = p.fill(config, now);
            &&& r.running == p.running
            &&& r.scheduled == p.scheduled
            &&& r.preempted == p.preempted
            &&& r.waiting.len() == p.waiting.len()
            &&& r.waiting.skip(1) == p.waiting.skip(1)
            &&& r.waiting[0].id == p.waiting[0].id
            &&& r.waiting[0].output == p.waiting[0].output
            &&& p.waiting[0].state is Waiting ==> r.waiting[0] == p.waiting[0]
        },
{
    if !p.head_is_blocked() && p.head_is_refused() {
        let r = p.refuse_head();
        assert(r.waiting.skip(1) =~= p.waiting.skip(1));
    }
}

} // verus!
