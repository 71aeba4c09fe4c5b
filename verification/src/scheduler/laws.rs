//! What holds of every scheduling step.
//!
//! No sequence is lost and none loses a token; the running set is bounded; new
//! arrivals are admitted in order; a started prompt is not stranded; and the
//! cache holds blocks for exactly the running sequences.

use crate::config::SchedulerConfig;
use crate::id::{SequenceId, TokenId};
use crate::kv_cache::laws::law_nothing_held_means_all_free;
use crate::kv_cache::manager::KvCacheManager;
use crate::kv_cache::model::CacheState;
use crate::scheduler::cache::KvCacheManagerLike;
use crate::scheduler::policy::{
    caught_up, chunk_of, decoders, freeing, ids_of, partials, prefill_chunk, put_back,
    stop_after, turned_decoder, Pass, ScheduledSequence, SchedulerModel,
};
use crate::scheduler::queue::{finished, lemma_position, position, queued, unfinished};
use crate::sequence::{FinishReason, SequenceModel};
use vstd::multiset::Multiset;
use vstd::prelude::*;

verus! {

/// What a client cares about in a sequence: who it is, what was asked, and
/// what was generated.
pub open spec fn record(s: SequenceModel) -> (SequenceId, Seq<TokenId>, Seq<TokenId>) {
    (s.id, s.prompt, s.output)
}

pub open spec fn records(queue: Seq<SequenceModel>) -> Seq<
    (SequenceId, Seq<TokenId>, Seq<TokenId>),
> {
    queue.map_values(|s: SequenceModel| record(s))
}

/// Every sequence that runs or waits, each as often as it does.
pub open spec fn census(running: Seq<SequenceModel>, waiting: Seq<SequenceModel>) -> Multiset<
    (SequenceId, Seq<TokenId>, Seq<TokenId>),
> {
    records(running).to_multiset().add(records(waiting).to_multiset())
}

/// What each part of a step keeps.
spec fn kept<C: KvCacheManagerLike>(a: Pass<C>, b: Pass<C>) -> bool {
    &&& census(a.running, a.waiting) == census(b.running, b.waiting)
    &&& a.preempted.len() <= b.preempted.len()
    &&& a.preempted == b.preempted.take(a.preempted.len() as int)
    &&& a.scheduled.len() <= b.scheduled.len()
    &&& a.scheduled == b.scheduled.take(a.scheduled.len() as int)
}

proof fn lemma_kept_transitive<C: KvCacheManagerLike>(a: Pass<C>, b: Pass<C>, c: Pass<C>)
    requires
        kept(a, b),
        kept(b, c),
    ensures
        kept(a, c),
{
    assert(c.preempted.take(b.preempted.len() as int).take(a.preempted.len() as int)
        =~= c.preempted.take(a.preempted.len() as int));
    assert(c.scheduled.take(b.scheduled.len() as int).take(a.scheduled.len() as int)
        =~= c.scheduled.take(a.scheduled.len() as int));
}

proof fn lemma_kept_same<C: KvCacheManagerLike>(a: Pass<C>, b: Pass<C>)
    requires
        census(a.running, a.waiting) == census(b.running, b.waiting),
        a.preempted == b.preempted,
        b.scheduled == a.scheduled || exists|e: ScheduledSequence|
            b.scheduled == #[trigger] a.scheduled.push(e),
    ensures
        kept(a, b),
{
    assert(b.preempted.take(a.preempted.len() as int) =~= a.preempted);
    assert(b.scheduled.take(a.scheduled.len() as int) =~= a.scheduled);
}

proof fn lemma_records_push(queue: Seq<SequenceModel>, s: SequenceModel)
    ensures
        records(queue.push(s)).to_multiset() == records(queue).to_multiset().insert(record(s)),
        records(seq![s] + queue).to_multiset() == records(queue).to_multiset().insert(record(s)),
{
    broadcast use vstd::seq_lib::group_to_multiset_ensures;

    assert(records(queue.push(s)) =~= records(queue).push(record(s)));
    assert(records(seq![s] + queue) =~= records(queue).insert(0, record(s)));
}

proof fn lemma_evict_kept<C: KvCacheManagerLike>(p: Pass<C>)
    requires
        p.running.len() > 0,
    ensures
        kept(p, p.evict()),
{
    let e = p.evict();
    let v = p.running.last();
    lemma_records_push(p.running.drop_last(), v);
    assert(p.running.drop_last().push(v) =~= p.running);
    lemma_records_push(p.waiting, put_back(v));
    assert(census(p.running, p.waiting) =~= census(e.running, e.waiting));
    assert(e.preempted.take(p.preempted.len() as int) =~= p.preempted);
    assert(e.scheduled.take(p.scheduled.len() as int) =~= p.scheduled);
}

/// Whether two running sets have the same sequences in the same places, with
/// the same started prompts.
pub open spec fn alike(a: Seq<SequenceModel>, b: Seq<SequenceModel>) -> bool {
    &&& a.len() == b.len()
    &&& records(a) == records(b)
    &&& ids_of(a) == ids_of(b)
    &&& partials(a) == partials(b)
    &&& forall|i: int|
        #![trigger a[i]]
        #![trigger b[i]]
        0 <= i < a.len() ==> a[i].state == b[i].state && a[i].id == b[i].id && (a[i].wf()
            ==> b[i].wf()) && (a[i].state is Prefilling ==> a[i] == b[i])
}

/// Changing how far a decoder has caught up leaves the started prompts.
proof fn lemma_partials_update(running: Seq<SequenceModel>, at: int, s: SequenceModel)
    requires
        0 <= at < running.len(),
        running[at].state is Decoding,
        s.state is Decoding,
    ensures
        partials(running.update(at, s)) == partials(running),
    decreases running.len(),
{
    let d = running.drop_last();
    let u = running.update(at, s);
    if at < d.len() {
        assert(u.drop_last() =~= d.update(at, s));
        lemma_partials_update(d, at, s);
    } else {
        assert(u.drop_last() =~= d);
    }
}

pub proof fn lemma_caught_up(running: Seq<SequenceModel>, id: SequenceId)
    ensures
        alike(running, caught_up(running, id)),
{
    let p = position(running, id);
    lemma_position(running, id);
    let c = caught_up(running, id);
    if p < running.len() && running[p].state is Decoding && running[p].remaining() > 0 {
        lemma_partials_update(running, p, running[p].prefilled(1));
    }
    assert(records(running) =~= records(c));
    assert(ids_of(running) =~= ids_of(c));
}

proof fn lemma_try_decode_kept<C: KvCacheManagerLike>(p: Pass<C>, id: SequenceId, at: usize)
    ensures
        kept(p, p.try_decode(id, at)),
        alike(p.running, p.try_decode(id, at).running),
        p.try_decode(id, at).waiting == p.waiting,
        p.try_decode(id, at).preempted == p.preempted,
{
    let e = ScheduledSequence { id, num_tokens: 1, start_position: at, is_prefill: false };
    let q = p.try_decode(id, at);
    lemma_caught_up(p.running, id);
    assert(q.scheduled == p.scheduled || q.scheduled == p.scheduled.push(e));
    lemma_kept_same(p, q);
}

/// The decoding part of a step. Where it evicts nothing, it leaves the queues
/// as they are, but for what decoders have caught up with, and uses one token
/// of the budget for each batch entry.
proof fn lemma_decode_kept<C: KvCacheManagerLike>(
    p: Pass<C>,
    candidates: Seq<(SequenceId, usize)>,
    budget: int,
)
    ensures
        kept(p, p.decode(candidates, budget)),
        p.decode(candidates, budget).running.len() <= p.running.len(),
        p.decode(candidates, budget).preempted.len() == p.preempted.len() ==> {
            &&& alike(p.running, p.decode(candidates, budget).running)
            &&& p.decode(candidates, budget).waiting == p.waiting
        },
        p.decode(candidates, budget).used <= p.used + candidates.len(),
        p.used >= 0 ==> p.decode(candidates, budget).used >= 0,
    decreases candidates.len(),
{
    if candidates.len() == 0 || p.used >= budget {
        lemma_kept_same(p, p.decode(candidates, budget));
    } else {
        let (id, at) = candidates[0];
        let rest = candidates.drop_first();
        let tried = p.try_decode(id, at);
        lemma_try_decode_kept(p, id, at);
        if !p.is_stuck(id) {
            lemma_decode_kept(tried, rest, budget);
            lemma_kept_transitive(p, tried, tried.decode(rest, budget));
        } else {
            let e = tried.evict();
            let again = e.try_decode(id, at);
            lemma_evict_kept(tried);
            lemma_try_decode_kept(e, id, at);
            lemma_decode_kept(again, rest, budget);
            lemma_kept_transitive(p, tried, e);
            lemma_kept_transitive(p, e, again);
            lemma_kept_transitive(p, again, again.decode(rest, budget));
        }
    }
}

/// Continuing started prompts changes no id, output or order.
proof fn lemma_continue_kept<C: KvCacheManagerLike>(
    p: Pass<C>,
    candidates: Seq<(SequenceId, usize, usize)>,
    budget: int,
    chunked: bool,
    now: u64,
)
    ensures
        kept(p, p.continue_prefills(candidates, budget, chunked, now)),
        p.continue_prefills(candidates, budget, chunked, now).preempted == p.preempted,
        p.continue_prefills(candidates, budget, chunked, now).waiting == p.waiting,
        records(p.continue_prefills(candidates, budget, chunked, now).running) == records(
            p.running,
        ),
        ids_of(p.continue_prefills(candidates, budget, chunked, now).running) == ids_of(
            p.running,
        ),
        p.used >= 0 ==> p.continue_prefills(candidates, budget, chunked, now).used >= p.used,
        p.cache == p.continue_prefills(candidates, budget, chunked, now).cache,
    decreases candidates.len(),
{
    if candidates.len() == 0 || p.used >= budget {
        lemma_kept_same(p, p.continue_prefills(candidates, budget, chunked, now));
    } else {
        let (id, done, left) = candidates[0];
        let rest = candidates.drop_first();
        let chunk = chunk_of(chunked, left as int, budget - p.used);
        let at = position(p.running, id);
        lemma_position(p.running, id);
        if chunk == 0 || at >= p.running.len() {
            lemma_continue_kept(p, rest, budget, chunked, now);
        } else {
            let e = ScheduledSequence {
                id,
                num_tokens: chunk as usize,
                start_position: done,
                is_prefill: true,
            };
            let q = Pass {
                running: p.running.update(
                    at,
                    turned_decoder(p.running[at].prefilled(chunk), now),
                ),
                ..p.granted(e)
            };
            assert(records(q.running) =~= records(p.running));
            assert(ids_of(q.running) =~= ids_of(p.running));
            lemma_kept_same(p, q);
            lemma_continue_kept(q, rest, budget, chunked, now);
            lemma_kept_transitive(p, q, q.continue_prefills(rest, budget, chunked, now));
        }
    }
}

proof fn lemma_admit_head_kept<C: KvCacheManagerLike>(
    p: Pass<C>,
    config: SchedulerConfig,
    now: u64,
)
    requires
        p.waiting.len() > 0,
    ensures
        kept(p, p.admit_head(config, now)),
{
    let q = p.admit_head(config, now);
    let next = p.head();
    let rest = p.waiting.drop_first();
    let chunk = chunk_of(
        config.enable_chunked_prefill,
        next.left(),
        config.max_num_batched_tokens - p.used,
    );
    lemma_records_push(rest, p.waiting[0]);
    assert(seq![p.waiting[0]] + rest =~= p.waiting);
    lemma_records_push(p.running, prefill_chunk(next, chunk, now));
    assert(census(p.running, p.waiting) =~= census(q.running, q.waiting));
    assert(q.scheduled == p.scheduled.push(q.scheduled.last()));
    lemma_kept_same(p, q);
}

proof fn lemma_refuse_head_kept<C: KvCacheManagerLike>(p: Pass<C>)
    requires
        p.waiting.len() > 0,
    ensures
        kept(p, p.refuse_head()),
        ids_of(p.refuse_head().waiting) == ids_of(p.waiting),
{
    let q = p.refuse_head();
    assert(records(q.waiting) =~= records(p.waiting));
    assert(ids_of(q.waiting) =~= ids_of(p.waiting));
    lemma_kept_same(p, q);
}

/// Whether the first `n` of `b`'s waiting queue joined the running set of `b`
/// in order, to give `a`.
spec fn admitted_in_order<C: KvCacheManagerLike>(b: Pass<C>, a: Pass<C>, n: int) -> bool {
    &&& 0 <= n <= b.waiting.len()
    &&& ids_of(a.running) == ids_of(b.running) + ids_of(b.waiting).take(n)
    &&& ids_of(a.waiting) == ids_of(b.waiting).skip(n)
}

/// The admission part of a step.
proof fn lemma_fill_kept<C: KvCacheManagerLike>(p: Pass<C>, config: SchedulerConfig, now: u64)
    ensures
        kept(p, p.fill(config, now)),
        p.fill(config, now).running.len() <= p.running.len() || p.fill(config, now).running.len()
            <= config.max_num_seqs,
        p.fill(config, now).preempted.len() == p.preempted.len() ==> exists|n: int|
            admitted_in_order(p, p.fill(config, now), n),
    decreases config.max_num_batched_tokens - p.used, p.running.len(),
{
    let f = p.fill(config, now);
    if !p.considers(config) {
        lemma_kept_same(p, f);
        assert(ids_of(p.running) + ids_of(p.waiting).take(0) =~= ids_of(p.running));
        assert(ids_of(p.waiting).skip(0) =~= ids_of(p.waiting));
        assert(admitted_in_order(p, f, 0));
    } else if p.head_is_blocked() {
        if p.running.len() == 0 {
            lemma_kept_same(p, f);
            assert(ids_of(p.running) + ids_of(p.waiting).take(0) =~= ids_of(p.running));
            assert(ids_of(p.waiting).skip(0) =~= ids_of(p.waiting));
            assert(admitted_in_order(p, f, 0));
        } else {
            lemma_evict_kept(p);
            lemma_fill_kept(p.evict(), config, now);
            lemma_kept_transitive(p, p.evict(), f);
        }
    } else if p.head_is_refused() {
        lemma_refuse_head_kept(p);
        assert(ids_of(p.running) + ids_of(p.waiting).take(0) =~= ids_of(p.running));
        assert(ids_of(p.waiting).skip(0) =~= ids_of(p.waiting));
        assert(admitted_in_order(p, f, 0));
    } else {
        let q = p.admit_head(config, now);
        lemma_admit_head_kept(p, config, now);
        lemma_fill_kept(q, config, now);
        lemma_kept_transitive(p, q, f);
        if f.preempted.len() == p.preempted.len() {
            assert(q.preempted.len() == p.preempted.len());
            let n = choose|n: int| admitted_in_order(q, f, n);
            assert(ids_of(q.waiting) =~= ids_of(p.waiting).skip(1));
            assert(ids_of(q.running) =~= ids_of(p.running) + ids_of(p.waiting).take(1));
            assert(ids_of(p.waiting).skip(1).skip(n) =~= ids_of(p.waiting).skip(n + 1));
            assert(ids_of(p.waiting).take(1) + ids_of(p.waiting).skip(1).take(n) =~= ids_of(
                p.waiting,
            ).take(n + 1));
            assert(ids_of(p.running) + ids_of(p.waiting).take(1) + ids_of(p.waiting).skip(1).take(
                n,
            ) =~= ids_of(p.running) + ids_of(p.waiting).take(n + 1));
            assert(admitted_in_order(p, f, n + 1));
        }
    }
}

proof fn lemma_prefill_kept<C: KvCacheManagerLike>(p: Pass<C>, config: SchedulerConfig, now: u64)
    ensures
        kept(p, p.prefill(config, now)),
        p.prefill(config, now).running.len() <= p.running.len() || p.prefill(
            config,
            now,
        ).running.len() <= config.max_num_seqs,
        p.prefill(config, now).preempted.len() == p.preempted.len() ==> exists|n: int|
            admitted_in_order(p, p.prefill(config, now), n),
{
    let c = p.continue_prefills(
        partials(p.running),
        config.max_num_batched_tokens as int,
        config.enable_chunked_prefill,
        now,
    );
    lemma_continue_kept(
        p,
        partials(p.running),
        config.max_num_batched_tokens as int,
        config.enable_chunked_prefill,
        now,
    );
    lemma_fill_kept(c, config, now);
    lemma_kept_transitive(p, c, p.prefill(config, now));
    assert(ids_of(c.running).len() == ids_of(p.running).len());
    if p.prefill(config, now).preempted.len() == p.preempted.len() {
        let n = choose|n: int| admitted_in_order(c, p.prefill(config, now), n);
        assert(admitted_in_order(p, p.prefill(config, now), n));
    }
}

/// A step loses no sequence, and none of them loses a token of its prompt or
/// of its output: all of them run or wait afterwards.
pub proof fn law_no_sequence_is_lost<C: KvCacheManagerLike>(s: SchedulerModel<C>, now: u64)
    ensures
        census(s.stepped(now).running, s.stepped(now).waiting) == census(s.running, s.waiting),
{
    let b = s.begin();
    let budget = s.config.max_num_batched_tokens as int;
    if s.config.prioritize_decode {
        lemma_decode_kept(b, decoders(s.running), budget);
        lemma_prefill_kept(b.decode(decoders(s.running), budget), s.config, now);
    } else {
        let f = b.prefill(s.config, now);
        lemma_prefill_kept(b, s.config, now);
        lemma_decode_kept(f, decoders(f.running), budget);
    }
}

/// A step lets no more sequences run than `max_num_seqs`, unless more ran
/// before.
pub proof fn law_running_set_is_bounded<C: KvCacheManagerLike>(s: SchedulerModel<C>, now: u64)
    ensures
        s.stepped(now).running.len() <= s.running.len() || s.stepped(now).running.len()
            <= s.config.max_num_seqs,
{
    let b = s.begin();
    let budget = s.config.max_num_batched_tokens as int;
    if s.config.prioritize_decode {
        lemma_decode_kept(b, decoders(s.running), budget);
        lemma_prefill_kept(b.decode(decoders(s.running), budget), s.config, now);
    } else {
        let f = b.prefill(s.config, now);
        lemma_prefill_kept(b, s.config, now);
        lemma_decode_kept(f, decoders(f.running), budget);
    }
}

/// Where a step preempts nothing, it admits the first `n` waiting sequences
/// behind the running ones, in their order, for some `n`, and the others keep
/// their places.
pub proof fn law_admission_is_first_come_first_served<C: KvCacheManagerLike>(
    s: SchedulerModel<C>,
    now: u64,
) -> (n: int)
    requires
        s.planned(now).preempted.len() == 0,
    ensures
        0 <= n <= s.waiting.len(),
        ids_of(s.stepped(now).running) == ids_of(s.running) + ids_of(s.waiting).take(n),
        ids_of(s.stepped(now).waiting) == ids_of(s.waiting).skip(n),
{
    let b = s.begin();
    let budget = s.config.max_num_batched_tokens as int;
    let p = s.planned(now);
    if s.config.prioritize_decode {
        let d = b.decode(decoders(s.running), budget);
        lemma_decode_kept(b, decoders(s.running), budget);
        lemma_prefill_kept(d, s.config, now);
        let n = choose|n: int| admitted_in_order(d, p, n);
        assert(admitted_in_order(d, p, n));
        n
    } else {
        let f = b.prefill(s.config, now);
        lemma_prefill_kept(b, s.config, now);
        lemma_decode_kept(f, decoders(f.running), budget);
        let n = choose|n: int| admitted_in_order(b, f, n);
        assert(admitted_in_order(b, f, n));
        n
    }
}

/// Preemption takes the newest running sequence, keeps its tokens, and makes
/// it the next to be considered.
pub proof fn law_preemption_is_fair<C: KvCacheManagerLike>(p: Pass<C>)
    requires
        p.running.len() > 0,
    ensures
        p.evict().running == p.running.take(p.running.len() - 1),
        p.evict().waiting[0].id == p.running.last().id,
        record(p.evict().waiting[0]) == record(p.running.last()),
        p.evict().waiting.drop_first() == p.waiting,
        p.evict().preempted.last() == p.running.last().id,
{
    assert(p.evict().waiting.drop_first() =~= p.waiting);
    assert(p.evict().running =~= p.running.take(p.running.len() - 1));
}

/// The chunks of a prompt are contiguous: one begins where the prompt had got
/// to, and the prompt gets to its end.
pub proof fn law_chunks_are_contiguous<C: KvCacheManagerLike>(
    p: Pass<C>,
    config: SchedulerConfig,
    now: u64,
)
    requires
        p.considers(config),
        p.waiting[0].wf(),
    ensures
        ({
            let e = p.admit_head(config, now).scheduled.last();
            let s = p.admit_head(config, now).running.last();
            &&& e.id == p.waiting[0].id
            &&& e.start_position == p.waiting[0].computed
            &&& e.num_tokens > 0
            &&& s.computed == e.start_position + e.num_tokens
            &&& s.computed <= s.span
            &&& p.waiting[0].state is Waiting ==> (s.state is Decoding <==> s.computed == s.span)
        }),
{
}

/// Whether the `k`-th started prompt is that of the `i`-th running sequence.
spec fn partial_at(running: Seq<SequenceModel>, k: int, i: int) -> bool {
    &&& 0 <= i < running.len()
    &&& running[i].id == partials(running)[k].0
    &&& running[i].state is Prefilling
    &&& running[i].left() > 0
    &&& partials(running)[k].2 == running[i].left() as usize
}

/// The decoders and the started prompts are different running sequences.
proof fn lemma_decoders_and_partials(running: Seq<SequenceModel>)
    ensures
        decoders(running).len() + partials(running).len() <= running.len(),
    decreases running.len(),
{
    if running.len() > 0 {
        lemma_decoders_and_partials(running.drop_last());
    }
}

/// A started prompt is that of a running sequence.
proof fn lemma_partial_at(running: Seq<SequenceModel>, k: int) -> (i: int)
    requires
        0 <= k < partials(running).len(),
    ensures
        partial_at(running, k, i),
    decreases running.len(),
{
    let d = running.drop_last();
    if k < partials(d).len() {
        let i = lemma_partial_at(d, k);
        assert(partials(d)[k] == partials(running)[k]);
        assert(running[i] == d[i]);
        i
    } else {
        assert(running[running.len() - 1] == running.last());
        running.len() - 1
    }
}

/// Whether a batch holds prefill work of that sequence.
pub open spec fn prefills(batch: Seq<ScheduledSequence>, id: SequenceId) -> bool {
    exists|k: int|
        0 <= k < batch.len() && (#[trigger] batch[k]).id == id && batch[k].is_prefill
            && batch[k].num_tokens > 0
}

/// With chunked prefill, and a budget that covers the running set, a step that
/// preempts nothing makes progress on the first prompt that was started and is
/// not complete.
pub proof fn law_started_prompts_are_not_stranded<C: KvCacheManagerLike>(
    s: SchedulerModel<C>,
    now: u64,
)
    requires
        s.wf(),
        s.config.prioritize_decode,
        s.config.enable_chunked_prefill,
        s.running.len() <= s.config.max_num_batched_tokens,
        partials(s.running).len() > 0,
        s.planned(now).preempted.len() == 0,
    ensures
        prefills(s.planned(now).scheduled, partials(s.running)[0].0),
{
    let b = s.begin();
    let budget = s.config.max_num_batched_tokens as int;
    let d = b.decode(decoders(s.running), budget);
    lemma_decode_kept(b, decoders(s.running), budget);
    lemma_prefill_kept(d, s.config, now);
    lemma_decoders_and_partials(s.running);
    assert(alike(s.running, d.running));
    assert(d.used < budget);
    let cands = partials(s.running);
    let (id, done, left) = cands[0];
    let i = lemma_partial_at(d.running, 0);
    assert(s.running[i].wf());
    assert(d.running[i] == s.running[i]);
    let at = position(d.running, id);
    lemma_position(d.running, id);
    assert(at < d.running.len());
    let chunk = chunk_of(true, left as int, budget - d.used);
    assert(0 < chunk <= budget);
    let e = ScheduledSequence {
        id,
        num_tokens: chunk as usize,
        start_position: done,
        is_prefill: true,
    };
    let q = Pass {
        running: d.running.update(at, turned_decoder(d.running[at].prefilled(chunk), now)),
        ..d.granted(e)
    };
    let rest = cands.drop_first();
    let c = q.continue_prefills(rest, budget, true, now);
    lemma_continue_kept(q, rest, budget, true, now);
    lemma_fill_kept(c, s.config, now);
    lemma_kept_transitive(q, c, c.fill(s.config, now));
    let p = s.planned(now);
    assert(p == c.fill(s.config, now));
    let k = d.scheduled.len() as int;
    assert(q.scheduled[k] == e);
    assert(p.scheduled[k] == p.scheduled.take(q.scheduled.len() as int)[k]);
}

/// A sequence stops once it has its maximum of tokens, and not at a stop token
/// before it has its minimum.
pub proof fn law_token_limits_are_respected(s: SequenceModel, token: TokenId, eos: Seq<TokenId>)
    ensures
        s.output.len() >= s.params.max_tokens ==> stop_after(s, token, eos) is Some,
        s.output.len() < s.params.min_tokens ==> stop_after(s, token, eos) != Some(
            FinishReason::Stop,
        ),
        s.output.len() < s.params.max_tokens && !eos.contains(token)
            && !s.params.stop_token_ids@.contains(token) ==> stop_after(s, token, eos) is None,
{
}

// ----- what a step keeps of each sequence ------------------------------------------

/// Whether a property of sequences survives everything a step does to one.
pub open spec fn stable(keep: spec_fn(SequenceModel) -> bool) -> bool {
    forall|s: SequenceModel| #[trigger]
        keep(s) ==> {
            &&& keep(put_back(s))
            &&& forall|n: int|
                s.prompt.len() <= n <= s.target ==> keep(#[trigger] s.spanning(n))
            &&& forall|chunk: int, now: u64|
                chunk >= 0 ==> keep(#[trigger] prefill_chunk(s, chunk, now))
            &&& forall|chunk: int, now: u64|
                chunk >= 0 ==> keep(#[trigger] turned_decoder(s.prefilled(chunk), now))
        }
}

pub open spec fn all_keep(
    queue: Seq<SequenceModel>,
    keep: spec_fn(SequenceModel) -> bool,
) -> bool {
    forall|i: int| 0 <= i < queue.len() ==> keep(#[trigger] queue[i])
}

/// Whether an entry's positions can be counted.
pub open spec fn countable(e: ScheduledSequence) -> bool {
    e.start_position < usize::MAX && e.start_position + e.num_tokens <= usize::MAX
}

pub open spec fn all_countable(batch: Seq<ScheduledSequence>) -> bool {
    forall|i: int| 0 <= i < batch.len() ==> countable(#[trigger] batch[i])
}

spec fn steady<C: KvCacheManagerLike>(p: Pass<C>, keep: spec_fn(SequenceModel) -> bool) -> bool {
    &&& all_keep(p.running, keep)
    &&& all_keep(p.waiting, keep)
    &&& all_countable(p.scheduled)
    &&& stable(keep)
    &&& forall|s: SequenceModel| #[trigger] keep(s) ==> s.wf() && (s.state is Decoding ==> s.total()
        < usize::MAX)
}

proof fn lemma_evict_steady<C: KvCacheManagerLike>(
    p: Pass<C>,
    keep: spec_fn(SequenceModel) -> bool,
)
    requires
        steady(p, keep),
        p.running.len() > 0,
    ensures
        steady(p.evict(), keep),
{
    let e = p.evict();
    assert(keep(p.running[p.running.len() - 1]));
    assert forall|i: int| 0 <= i < e.running.len() implies keep(#[trigger] e.running[i]) by {
        assert(e.running[i] == p.running[i]);
    }
    assert forall|i: int| 0 <= i < e.waiting.len() implies keep(#[trigger] e.waiting[i]) by {
        if i > 0 {
            assert(e.waiting[i] == p.waiting[i - 1]);
        }
    }
}

proof fn lemma_decode_steady<C: KvCacheManagerLike>(
    p: Pass<C>,
    keep: spec_fn(SequenceModel) -> bool,
    candidates: Seq<(SequenceId, usize)>,
    budget: int,
)
    requires
        steady(p, keep),
        forall|k: int| 0 <= k < candidates.len() ==> (#[trigger] candidates[k]).1 < usize::MAX,
    ensures
        steady(p.decode(candidates, budget), keep),
    decreases candidates.len(),
{
    if candidates.len() == 0 || p.used >= budget {
    } else {
        let (id, at) = candidates[0];
        let rest = candidates.drop_first();
        let tried = p.try_decode(id, at);
        assert forall|k: int| 0 <= k < rest.len() implies (#[trigger] rest[k]).1 < usize::MAX by {
            assert(rest[k] == candidates[k + 1]);
        }
        assert(candidates[0].1 < usize::MAX);
        lemma_try_steady(p, keep, id, at);
        if !p.is_stuck(id) {
            lemma_decode_steady(tried, keep, rest, budget);
        } else {
            lemma_evict_steady(tried, keep);
            lemma_try_steady(tried.evict(), keep, id, at);
            lemma_decode_steady(tried.evict().try_decode(id, at), keep, rest, budget);
        }
    }
}

proof fn lemma_try_steady<C: KvCacheManagerLike>(
    p: Pass<C>,
    keep: spec_fn(SequenceModel) -> bool,
    id: SequenceId,
    at: usize,
)
    requires
        steady(p, keep),
        at < usize::MAX,
    ensures
        steady(p.try_decode(id, at), keep),
{
    let q = p.try_decode(id, at);
    lemma_position(p.running, id);
    let k = position(p.running, id);
    if k < p.running.len() && p.running[k].state is Decoding {
        assert(keep(p.running[k]));
        assert(turned_decoder(p.running[k].prefilled(1), 0) == p.running[k].prefilled(1));
        assert(keep(p.running[k].prefilled(1)));
    }
    assert forall|i: int| 0 <= i < q.running.len() implies keep(#[trigger] q.running[i]) by {
        if i != k {
            assert(q.running[i] == p.running[i]);
        }
    }
    assert forall|i: int| 0 <= i < q.scheduled.len() implies countable(
        #[trigger] q.scheduled[i],
    ) by {
        if i < p.scheduled.len() {
            assert(countable(p.scheduled[i]));
        }
    }
}

proof fn lemma_continue_steady<C: KvCacheManagerLike>(
    p: Pass<C>,
    keep: spec_fn(SequenceModel) -> bool,
    candidates: Seq<(SequenceId, usize, usize)>,
    budget: int,
    chunked: bool,
    now: u64,
)
    requires
        steady(p, keep),
        p.used >= 0,
        budget <= usize::MAX,
        forall|k: int|
            0 <= k < candidates.len() ==> (#[trigger] candidates[k]).1 + candidates[k].2
                <= usize::MAX,
    ensures
        steady(p.continue_prefills(candidates, budget, chunked, now), keep),
    decreases candidates.len(),
{
    if candidates.len() == 0 || p.used >= budget {
    } else {
        let (id, done, left) = candidates[0];
        let rest = candidates.drop_first();
        let chunk = chunk_of(chunked, left as int, budget - p.used);
        let at = position(p.running, id);
        lemma_position(p.running, id);
        assert forall|k: int| 0 <= k < rest.len() implies (#[trigger] rest[k]).1 + rest[k].2
            <= usize::MAX by {
            assert(rest[k] == candidates[k + 1]);
        }
        assert(candidates[0].1 + candidates[0].2 <= usize::MAX);
        if chunk == 0 || at >= p.running.len() {
            lemma_continue_steady(p, keep, rest, budget, chunked, now);
        } else {
            let e = ScheduledSequence {
                id,
                num_tokens: chunk as usize,
                start_position: done,
                is_prefill: true,
            };
            let s = turned_decoder(p.running[at].prefilled(chunk), now);
            let q = Pass { running: p.running.update(at, s), ..p.granted(e) };
            assert(keep(p.running[at]));
            assert(keep(s));
            assert forall|i: int| 0 <= i < q.running.len() implies keep(#[trigger] q.running[i]) by {
                if i != at {
                    assert(q.running[i] == p.running[i]);
                }
            }
            assert forall|i: int| 0 <= i < q.scheduled.len() implies countable(
                #[trigger] q.scheduled[i],
            ) by {
                if i < p.scheduled.len() {
                    assert(countable(p.scheduled[i]));
                }
            }
            lemma_continue_steady(q, keep, rest, budget, chunked, now);
        }
    }
}

proof fn lemma_admit_steady<C: KvCacheManagerLike>(
    p: Pass<C>,
    keep: spec_fn(SequenceModel) -> bool,
    config: SchedulerConfig,
    now: u64,
)
    requires
        steady(p, keep),
        p.considers(config),
    ensures
        steady(p.admit_head(config, now), keep),
{
    let q = p.admit_head(config, now);
    let first = p.waiting[0];
    let next = p.head();
    assert(keep(first));
    assert(first.wf());
    assert(keep(first.spanning(first.target)));
    assert(keep(first.spanning(first.prompt.len() as int)));
    assert(keep(next));
    assert(next.wf());
    let chunk = chunk_of(
        config.enable_chunked_prefill,
        next.left(),
        config.max_num_batched_tokens - p.used,
    );
    assert(0 < chunk <= next.left());
    let s = prefill_chunk(next, chunk, now);
    assert(keep(s));
    assert(q.running == p.running.push(s));
    assert(q.waiting == p.waiting.drop_first());
    let e = ScheduledSequence {
        id: next.id,
        num_tokens: chunk as usize,
        start_position: next.computed as usize,
        is_prefill: true,
    };
    assert(q.scheduled == p.scheduled.push(e));
    assert(countable(e));
    assert forall|i: int| 0 <= i < q.running.len() implies keep(#[trigger] q.running[i]) by {
        if i < p.running.len() {
            assert(q.running[i] == p.running[i]);
        }
    }
    assert forall|i: int| 0 <= i < q.waiting.len() implies keep(#[trigger] q.waiting[i]) by {
        assert(q.waiting[i] == p.waiting[i + 1]);
    }
    assert forall|i: int| 0 <= i < q.scheduled.len() implies countable(
        #[trigger] q.scheduled[i],
    ) by {
        if i < p.scheduled.len() {
            assert(countable(p.scheduled[i]));
        }
    }
}

#[verifier::rlimit(40)]
proof fn lemma_fill_steady<C: KvCacheManagerLike>(
    p: Pass<C>,
    keep: spec_fn(SequenceModel) -> bool,
    config: SchedulerConfig,
    now: u64,
)
    requires
        steady(p, keep),
    ensures
        steady(p.fill(config, now), keep),
    decreases config.max_num_batched_tokens - p.used, p.running.len(),
{
    if !p.considers(config) {
    } else if p.head_is_blocked() {
        if p.running.len() > 0 {
            lemma_evict_steady(p, keep);
            lemma_fill_steady(p.evict(), keep, config, now);
        }
    } else if p.head_is_refused() {
        let q = p.refuse_head();
        assert(keep(p.waiting[0]));
        assert forall|i: int| 0 <= i < q.waiting.len() implies keep(#[trigger] q.waiting[i]) by {
            if i > 0 {
                assert(q.waiting[i] == p.waiting[i]);
            }
        }
    } else {
        lemma_admit_steady(p, keep, config, now);
        lemma_fill_steady(p.admit_head(config, now), keep, config, now);
    }
}

proof fn lemma_decoders_countable(
    running: Seq<SequenceModel>,
    keep: spec_fn(SequenceModel) -> bool,
)
    requires
        all_keep(running, keep),
        forall|s: SequenceModel| #[trigger] keep(s) ==> s.wf() && (s.state is Decoding ==> s.total()
            < usize::MAX),
    ensures
        forall|k: int|
            0 <= k < decoders(running).len() ==> (#[trigger] decoders(running)[k]).1 < usize::MAX,
        forall|k: int|
            0 <= k < partials(running).len() ==> (#[trigger] partials(running)[k]).1 + partials(
                running,
            )[k].2 <= usize::MAX,
    decreases running.len(),
{
    if running.len() > 0 {
        let d = running.drop_last();
        assert forall|i: int| 0 <= i < d.len() implies keep(#[trigger] d[i]) by {
            assert(d[i] == running[i]);
        }
        lemma_decoders_countable(d, keep);
        assert(keep(running[running.len() - 1]));
        assert forall|k: int| 0 <= k < decoders(running).len() implies (#[trigger] decoders(
            running,
        )[k]).1 < usize::MAX by {
            if k < decoders(d).len() {
                assert(decoders(running)[k] == decoders(d)[k]);
            }
        }
        assert forall|k: int| 0 <= k < partials(running).len() implies (#[trigger] partials(
            running,
        )[k]).1 + partials(running)[k].2 <= usize::MAX by {
            if k < partials(d).len() {
                assert(partials(running)[k] == partials(d)[k]);
            }
        }
    }
}

/// A property that survives what a step does to one sequence survives the
/// step; and where no decoder's history is at the end of the number range,
/// every position that the step schedules can be counted.
pub proof fn law_step_keeps_what_is_stable<C: KvCacheManagerLike>(
    s: SchedulerModel<C>,
    keep: spec_fn(SequenceModel) -> bool,
    now: u64,
)
    requires
        stable(keep),
        all_keep(s.running, keep),
        all_keep(s.waiting, keep),
        forall|q: SequenceModel| #[trigger] keep(q) ==> q.wf() && (q.state is Decoding ==> q.total()
            < usize::MAX),
    ensures
        all_keep(s.stepped(now).running, keep),
        all_keep(s.stepped(now).waiting, keep),
        all_countable(s.planned(now).scheduled),
{
    let b = s.begin();
    let budget = s.config.max_num_batched_tokens as int;
    let chunked = s.config.enable_chunked_prefill;
    if s.config.prioritize_decode {
        let d = b.decode(decoders(s.running), budget);
        lemma_decoders_countable(s.running, keep);
        lemma_decode_steady(b, keep, decoders(s.running), budget);
        lemma_decode_kept(b, decoders(s.running), budget);
        lemma_decoders_countable(d.running, keep);
        lemma_continue_steady(d, keep, partials(d.running), budget, chunked, now);
        lemma_fill_steady(
            d.continue_prefills(partials(d.running), budget, chunked, now),
            keep,
            s.config,
            now,
        );
    } else {
        let c = b.continue_prefills(partials(b.running), budget, chunked, now);
        lemma_decoders_countable(b.running, keep);
        lemma_continue_steady(b, keep, partials(b.running), budget, chunked, now);
        lemma_fill_steady(c, keep, s.config, now);
        let f = c.fill(s.config, now);
        lemma_decoders_countable(f.running, keep);
        lemma_decode_steady(f, keep, decoders(f.running), budget);
    }
}

// ----- every entry of a batch does something --------------------------------------

/// Whether every entry of a batch has at least one token.
pub open spec fn all_have_tokens(batch: Seq<ScheduledSequence>) -> bool {
    forall|i: int| 0 <= i < batch.len() ==> (#[trigger] batch[i]).num_tokens >= 1
}

proof fn lemma_decode_has_tokens<C: KvCacheManagerLike>(
    p: Pass<C>,
    candidates: Seq<(SequenceId, usize)>,
    budget: int,
)
    requires
        all_have_tokens(p.scheduled),
        p.used >= 0,
    ensures
        all_have_tokens(p.decode(candidates, budget).scheduled),
        p.decode(candidates, budget).used >= 0,
    decreases candidates.len(),
{
    if candidates.len() == 0 || p.used >= budget {
    } else {
        let (id, at) = candidates[0];
        let rest = candidates.drop_first();
        let tried = p.try_decode(id, at);
        if !p.is_stuck(id) {
            lemma_decode_has_tokens(tried, rest, budget);
        } else {
            lemma_decode_has_tokens(tried.evict().try_decode(id, at), rest, budget);
        }
    }
}

proof fn lemma_continue_has_tokens<C: KvCacheManagerLike>(
    p: Pass<C>,
    candidates: Seq<(SequenceId, usize, usize)>,
    budget: int,
    chunked: bool,
    now: u64,
)
    requires
        all_have_tokens(p.scheduled),
        p.used >= 0,
    ensures
        all_have_tokens(p.continue_prefills(candidates, budget, chunked, now).scheduled),
        p.continue_prefills(candidates, budget, chunked, now).used >= 0,
    decreases candidates.len(),
{
    if candidates.len() == 0 || p.used >= budget {
    } else {
        let (id, done, left) = candidates[0];
        let rest = candidates.drop_first();
        let chunk = chunk_of(chunked, left as int, budget - p.used);
        let at = position(p.running, id);
        if chunk == 0 || at >= p.running.len() {
            lemma_continue_has_tokens(p, rest, budget, chunked, now);
        } else {
            let q = Pass {
                running: p.running.update(
                    at,
                    turned_decoder(p.running[at].prefilled(chunk), now),
                ),
                ..p.granted(
                    ScheduledSequence {
                        id,
                        num_tokens: chunk as usize,
                        start_position: done,
                        is_prefill: true,
                    },
                )
            };
            lemma_continue_has_tokens(q, rest, budget, chunked, now);
        }
    }
}

proof fn lemma_fill_has_tokens<C: KvCacheManagerLike>(
    p: Pass<C>,
    config: SchedulerConfig,
    now: u64,
)
    requires
        all_have_tokens(p.scheduled),
        p.used >= 0,
    ensures
        all_have_tokens(p.fill(config, now).scheduled),
        p.fill(config, now).used >= 0,
    decreases config.max_num_batched_tokens - p.used, p.running.len(),
{
    if !p.considers(config) {
    } else if p.head_is_blocked() {
        if p.running.len() > 0 {
            lemma_fill_has_tokens(p.evict(), config, now);
        }
    } else if p.head_is_refused() {
    } else {
        lemma_fill_has_tokens(p.admit_head(config, now), config, now);
    }
}

/// Every scheduled sequence has at least one token to run.
pub proof fn law_scheduled_sequences_have_tokens<C: KvCacheManagerLike>(
    s: SchedulerModel<C>,
    now: u64,
)
    ensures
        all_have_tokens(s.planned(now).scheduled),
{
    let b = s.begin();
    let budget = s.config.max_num_batched_tokens as int;
    let chunked = s.config.enable_chunked_prefill;
    if s.config.prioritize_decode {
        let d = b.decode(decoders(s.running), budget);
        lemma_decode_has_tokens(b, decoders(s.running), budget);
        lemma_continue_has_tokens(d, partials(d.running), budget, chunked, now);
        lemma_fill_has_tokens(
            d.continue_prefills(partials(d.running), budget, chunked, now),
            s.config,
            now,
        );
    } else {
        let c = b.continue_prefills(partials(b.running), budget, chunked, now);
        lemma_continue_has_tokens(b, partials(b.running), budget, chunked, now);
        lemma_fill_has_tokens(c, s.config, now);
        let f = c.fill(s.config, now);
        lemma_decode_has_tokens(f, decoders(f.running), budget);
    }
}

// ----- the cache holds blocks for exactly the running sequences -------------------

/// The ids of a queue, as numbers.
pub open spec fn id_set(queue: Seq<SequenceModel>) -> Set<u64> {
    Set::new(|n: u64| exists|i: int| 0 <= i < queue.len() && (#[trigger] queue[i]).id@ == n)
}

/// Whether no two sequences that run or wait have the same id.
pub open spec fn distinct(running: Seq<SequenceModel>, waiting: Seq<SequenceModel>) -> bool {
    &&& forall|i: int, j: int|
        0 <= i < running.len() && 0 <= j < running.len() && i != j ==> (
        #[trigger] running[i]).id@ != (#[trigger] running[j]).id@
    &&& forall|i: int, j: int|
        0 <= i < waiting.len() && 0 <= j < waiting.len() && i != j ==> (
        #[trigger] waiting[i]).id@ != (#[trigger] waiting[j]).id@
    &&& forall|i: int, j: int|
        0 <= i < running.len() && 0 <= j < waiting.len() ==> (#[trigger] running[i]).id@ != (
        #[trigger] waiting[j]).id@
}

/// Whether exactly the running sequences hold blocks: none that waits was
/// started, and no id occurs twice.
pub open spec fn accounted(
    running: Seq<SequenceModel>,
    waiting: Seq<SequenceModel>,
    cache: CacheState,
) -> bool {
    &&& distinct(running, waiting)
    &&& forall|i: int| 0 <= i < waiting.len() ==> (#[trigger] waiting[i]).computed == 0
    &&& cache.tables.dom() == id_set(running)
}

/// Whether every sequence is at work, as the running ones are right after the
/// finished ones were retired.
pub open spec fn all_active(queue: Seq<SequenceModel>) -> bool {
    forall|i: int|
        0 <= i < queue.len() ==> (#[trigger] queue[i]).state is Prefilling
            || queue[i].state is Decoding
}

/// Whether every sequence waits.
pub open spec fn all_waiting(queue: Seq<SequenceModel>) -> bool {
    forall|i: int| 0 <= i < queue.len() ==> (#[trigger] queue[i]).state is Waiting
}

pub open spec fn safe(p: Pass<KvCacheManager>) -> bool {
    &&& accounted(p.running, p.waiting, p.cache)
    &&& all_active(p.running)
    &&& all_waiting(p.waiting)
}

proof fn lemma_id_set_push(queue: Seq<SequenceModel>, s: SequenceModel)
    ensures
        id_set(queue.push(s)) == id_set(queue).insert(s.id@),
{
    let more = queue.push(s);
    assert forall|x: u64| id_set(more).contains(x) == id_set(queue).insert(s.id@).contains(x) by {
        if id_set(more).contains(x) {
            let i = choose|i: int| 0 <= i < more.len() && (#[trigger] more[i]).id@ == x;
            if i < queue.len() {
                assert(queue[i].id@ == x);
            }
        }
        if id_set(queue).contains(x) {
            let i = choose|i: int| 0 <= i < queue.len() && (#[trigger] queue[i]).id@ == x;
            assert(more[i].id@ == x);
        }
        assert(more[queue.len() as int].id@ == s.id@);
    }
    assert(id_set(more) =~= id_set(queue).insert(s.id@));
}

/// Without one of its sequences, a queue of different ids lacks its id.
proof fn lemma_id_set_remove(queue: Seq<SequenceModel>, at: int)
    requires
        0 <= at < queue.len(),
        forall|i: int, j: int|
            0 <= i < queue.len() && 0 <= j < queue.len() && i != j ==> (
            #[trigger] queue[i]).id@ != (#[trigger] queue[j]).id@,
    ensures
        id_set(queue.remove(at)) == id_set(queue).remove(queue[at].id@),
{
    let less = queue.remove(at);
    assert forall|x: u64| id_set(less).contains(x) == id_set(queue).remove(
        queue[at].id@,
    ).contains(x) by {
        if id_set(less).contains(x) {
            let i = choose|i: int| 0 <= i < less.len() && (#[trigger] less[i]).id@ == x;
            let j = if i < at {
                i
            } else {
                i + 1
            };
            assert(queue[j] == less[i]);
            assert(queue[j].id@ != queue[at].id@);
        }
        if id_set(queue).contains(x) && x != queue[at].id@ {
            let j = choose|j: int| 0 <= j < queue.len() && (#[trigger] queue[j]).id@ == x;
            let i = if j < at {
                j
            } else {
                j - 1
            };
            assert(less[i] == queue[j]);
        }
    }
    assert(id_set(less) =~= id_set(queue).remove(queue[at].id@));
}

/// Queues with the same ids have the same set of them.
pub proof fn lemma_id_set_same(a: Seq<SequenceModel>, b: Seq<SequenceModel>)
    requires
        ids_of(a) == ids_of(b),
    ensures
        id_set(a) == id_set(b),
        a.len() == b.len(),
        forall|i: int| 0 <= i < a.len() ==> (#[trigger] a[i]).id == b[i].id,
{
    assert(ids_of(a).len() == a.len());
    assert(ids_of(b).len() == b.len());
    assert forall|i: int| 0 <= i < a.len() implies (#[trigger] a[i]).id == b[i].id by {
        assert(ids_of(a)[i] == a[i].id);
        assert(ids_of(b)[i] == b[i].id);
    }
    assert forall|x: u64| id_set(a).contains(x) == id_set(b).contains(x) by {
        if id_set(a).contains(x) {
            let i = choose|i: int| 0 <= i < a.len() && (#[trigger] a[i]).id@ == x;
            assert(b[i].id@ == x);
        }
        if id_set(b).contains(x) {
            let i = choose|i: int| 0 <= i < b.len() && (#[trigger] b[i]).id@ == x;
            assert(a[i].id@ == x);
        }
    }
    assert(id_set(a) =~= id_set(b));
}

pub proof fn lemma_evict_safe(p: Pass<KvCacheManager>)
    requires
        safe(p),
        p.running.len() > 0,
    ensures
        safe(p.evict()),
{
    let e = p.evict();
    let v = p.running.last();
    let n = p.running.len() - 1;
    assert(p.running[n] == v);
    lemma_id_set_remove(p.running, n);
    assert(p.running.remove(n) =~= e.running);
    assert(id_set(p.running).contains(v.id@));
    assert(p.cache.tables.contains_key(v.id@));
    assert(e.cache.tables.dom() =~= id_set(e.running));
    assert forall|i: int| 0 <= i < e.running.len() implies #[trigger] e.running[i]
        == p.running[i] by {}
    assert forall|i: int| 0 <= i < e.waiting.len() implies #[trigger] e.waiting[i] == if i == 0 {
        v.suspended()
    } else {
        p.waiting[i - 1]
    } by {}
}

pub proof fn lemma_try_decode_safe(p: Pass<KvCacheManager>, id: SequenceId, at: usize)
    requires
        safe(p),
    ensures
        safe(p.try_decode(id, at)),
{
    let q = p.try_decode(id, at);
    assert(q.cache.tables.dom() =~= p.cache.tables.dom());
    lemma_caught_up(p.running, id);
    lemma_id_set_same(caught_up(p.running, id), p.running);
}

proof fn lemma_decode_safe(
    p: Pass<KvCacheManager>,
    candidates: Seq<(SequenceId, usize)>,
    budget: int,
)
    requires
        safe(p),
    ensures
        safe(p.decode(candidates, budget)),
    decreases candidates.len(),
{
    if candidates.len() == 0 || p.used >= budget {
    } else {
        let (id, at) = candidates[0];
        let rest = candidates.drop_first();
        let tried = p.try_decode(id, at);
        lemma_try_decode_safe(p, id, at);
        if !p.is_stuck(id) {
            lemma_decode_safe(tried, rest, budget);
        } else {
            lemma_evict_safe(tried);
            lemma_try_decode_safe(tried.evict(), id, at);
            lemma_decode_safe(tried.evict().try_decode(id, at), rest, budget);
        }
    }
}

pub proof fn lemma_continue_safe(
    p: Pass<KvCacheManager>,
    candidates: Seq<(SequenceId, usize, usize)>,
    budget: int,
    chunked: bool,
    now: u64,
)
    requires
        safe(p),
    ensures
        safe(p.continue_prefills(candidates, budget, chunked, now)),
    decreases candidates.len(),
{
    if candidates.len() == 0 || p.used >= budget {
    } else {
        let (id, done, left) = candidates[0];
        let rest = candidates.drop_first();
        let chunk = chunk_of(chunked, left as int, budget - p.used);
        let at = position(p.running, id);
        lemma_position(p.running, id);
        if chunk == 0 || at >= p.running.len() {
            lemma_continue_safe(p, rest, budget, chunked, now);
        } else {
            let q = Pass {
                running: p.running.update(
                    at,
                    turned_decoder(p.running[at].prefilled(chunk), now),
                ),
                ..p.granted(
                    ScheduledSequence {
                        id,
                        num_tokens: chunk as usize,
                        start_position: done,
                        is_prefill: true,
                    },
                )
            };
            assert(ids_of(q.running) =~= ids_of(p.running));
            lemma_id_set_same(q.running, p.running);
            assert forall|i: int| 0 <= i < q.running.len() implies (
            #[trigger] q.running[i]).state is Prefilling || q.running[i].state is Decoding by {
                assert(p.running[i].state is Prefilling || p.running[i].state is Decoding);
            }
            lemma_continue_safe(q, rest, budget, chunked, now);
        }
    }
}

/// Admitting the head of the waiting queue gives it blocks.
pub proof fn lemma_admit_safe(p: Pass<KvCacheManager>, config: SchedulerConfig, now: u64)
    requires
        safe(p),
        p.considers(config),
        !p.head_is_blocked(),
        !p.head_is_refused(),
    ensures
        safe(p.admit_head(config, now)),
{
    let q = p.admit_head(config, now);
    let next = p.waiting[0];
    let s = q.running.last();
    assert(q.running == p.running.push(s));
    lemma_id_set_push(p.running, s);
    assert(q.cache.tables.dom() =~= p.cache.tables.dom().insert(next.id@));
    assert forall|i: int| 0 <= i < q.waiting.len() implies #[trigger] q.waiting[i]
        == p.waiting[i + 1] by {}
    assert forall|i: int| 0 <= i < q.running.len() implies #[trigger] q.running[i] == if i
        < p.running.len() {
        p.running[i]
    } else {
        s
    } by {}
    assert(s.id == next.id);
    assert(distinct(q.running, q.waiting)) by {
        assert forall|i: int, j: int|
            0 <= i < q.waiting.len() && 0 <= j < q.waiting.len() && i != j implies (
        #[trigger] q.waiting[i]).id@ != (#[trigger] q.waiting[j]).id@ by {
            assert(p.waiting[i + 1].id@ != p.waiting[j + 1].id@);
        }
        assert forall|i: int, j: int|
            0 <= i < q.running.len() && 0 <= j < q.waiting.len() implies (
        #[trigger] q.running[i]).id@ != (#[trigger] q.waiting[j]).id@ by {
            assert(p.waiting[0].id@ != p.waiting[j + 1].id@);
            if i < p.running.len() {
                assert(p.running[i].id@ != p.waiting[j + 1].id@);
            }
        }
        assert forall|i: int, j: int|
            0 <= i < q.running.len() && 0 <= j < q.running.len() && i != j implies (
        #[trigger] q.running[i]).id@ != (#[trigger] q.running[j]).id@ by {
            if i < p.running.len() {
                assert(p.running[i].id@ != p.waiting[0].id@);
            }
            if j < p.running.len() {
                assert(p.running[j].id@ != p.waiting[0].id@);
            }
            if i < p.running.len() && j < p.running.len() {
                assert(p.running[i].id@ != p.running[j].id@);
            }
        }
    }
}

proof fn lemma_fill_safe(p: Pass<KvCacheManager>, config: SchedulerConfig, now: u64)
    requires
        safe(p),
    ensures
        safe(p.fill(config, now)),
    decreases config.max_num_batched_tokens - p.used, p.running.len(),
{
    if !p.considers(config) {
    } else if p.head_is_blocked() {
        if p.running.len() > 0 {
            lemma_evict_safe(p);
            lemma_fill_safe(p.evict(), config, now);
        }
    } else if p.head_is_refused() {
        let q = p.refuse_head();
        assert(q.waiting =~= p.waiting);
        assert(q.cache == p.cache);
    } else {
        let q = p.admit_head(config, now);
        lemma_admit_safe(p, config, now);
        lemma_fill_safe(q, config, now);
    }
}

/// Whether the scheduler's cache holds blocks for exactly the running
/// sequences, which are all at work.
pub open spec fn in_order(s: SchedulerModel<KvCacheManager>) -> bool {
    &&& accounted(s.running, s.waiting, s.cache)
    &&& all_active(s.running)
    &&& all_waiting(s.waiting)
}

/// A step keeps it so that exactly the running sequences hold blocks, however
/// it preempts, continues and admits.
pub proof fn law_step_keeps_accounts(s: SchedulerModel<KvCacheManager>, now: u64)
    requires
        in_order(s),
    ensures
        in_order(s.stepped(now)),
{
    let b = s.begin();
    let budget = s.config.max_num_batched_tokens as int;
    if s.config.prioritize_decode {
        let d = b.decode(decoders(s.running), budget);
        lemma_decode_safe(b, decoders(s.running), budget);
        lemma_continue_safe(
            d,
            partials(d.running),
            budget,
            s.config.enable_chunked_prefill,
            now,
        );
        lemma_fill_safe(
            d.continue_prefills(
                partials(d.running),
                budget,
                s.config.enable_chunked_prefill,
                now,
            ),
            s.config,
            now,
        );
    } else {
        let c = b.continue_prefills(
            partials(b.running),
            budget,
            s.config.enable_chunked_prefill,
            now,
        );
        lemma_continue_safe(
            b,
            partials(b.running),
            budget,
            s.config.enable_chunked_prefill,
            now,
        );
        lemma_fill_safe(c, s.config, now);
        let f = c.fill(s.config, now);
        lemma_decode_safe(f, decoders(f.running), budget);
    }
}

/// A new request waits without blocks.
pub proof fn law_arrival_keeps_accounts(s: SchedulerModel<KvCacheManager>, q: SequenceModel)
    requires
        in_order(s),
        q.state is Waiting,
        q.computed == 0,
        !id_set(s.running).contains(q.id@),
        !id_set(s.waiting).contains(q.id@),
    ensures
        in_order(s.accepting(q)),
{
    let a = s.accepting(q);
    assert forall|i: int| 0 <= i < a.waiting.len() implies #[trigger] a.waiting[i] == if i
        < s.waiting.len() {
        s.waiting[i]
    } else {
        q
    } by {}
    assert forall|i: int| 0 <= i < s.running.len() implies (#[trigger] s.running[i]).id@
        != q.id@ by {
        if s.running[i].id@ == q.id@ {
            assert(id_set(s.running).contains(q.id@));
        }
    }
    assert forall|i: int| 0 <= i < s.waiting.len() implies (#[trigger] s.waiting[i]).id@
        != q.id@ by {
        if s.waiting[i].id@ == q.id@ {
            assert(id_set(s.waiting).contains(q.id@));
        }
    }
}

/// A cancelled sequence gives back its blocks, if it had any.
pub proof fn law_cancellation_keeps_accounts(s: SchedulerModel<KvCacheManager>, id: SequenceId)
    requires
        in_order(s),
    ensures
        in_order(s.cancelling(id)),
        !queued(s.cancelling(id).waiting, id) && !queued(s.cancelling(id).running, id),
{
    lemma_position(s.waiting, id);
    lemma_position(s.running, id);
    let c = s.cancelling(id);
    let w = position(s.waiting, id);
    let r = position(s.running, id);
    lemma_position(c.waiting, id);
    lemma_position(c.running, id);
    if w < s.waiting.len() {
        assert forall|i: int| 0 <= i < c.waiting.len() implies #[trigger] c.waiting[i]
            == s.waiting[if i < w {
            i
        } else {
            i + 1
        }] by {}
        if queued(c.running, id) {
            assert(s.running[position(c.running, id)].id@ != s.waiting[w].id@);
        }
    } else if r < s.running.len() {
        lemma_id_set_remove(s.running, r);
        assert(id_set(s.running).contains(id@)) by {
            assert(s.running[r].id@ == id@);
        }
        assert(s.cache.tables.contains_key(id@));
        assert(c.cache.tables.dom() =~= id_set(c.running));
        assert forall|i: int| 0 <= i < c.running.len() implies #[trigger] c.running[i]
            == s.running[if i < r {
            i
        } else {
            i + 1
        }] by {}
    }
}

/// Retiring the finished sequences takes exactly their blocks, so that again
/// exactly the running sequences hold blocks.
pub proof fn law_reaping_keeps_accounts(s: SchedulerModel<KvCacheManager>)
    requires
        accounted(s.running, s.waiting, s.cache),
    ensures
        accounted(s.reaped().running, s.reaped().waiting, s.reaped().cache),
        finished(s.reaped().running).len() == 0,
{
    lemma_partition(s.running, s.cache);
    lemma_unfinished_has_none(s.running);
    lemma_subset_distinct(s.running, s.waiting);
}

/// What is left when the finished sequences of a queue give back their blocks.
proof fn lemma_partition(queue: Seq<SequenceModel>, cache: CacheState)
    requires
        forall|i: int, j: int|
            0 <= i < queue.len() && 0 <= j < queue.len() && i != j ==> (
            #[trigger] queue[i]).id@ != (#[trigger] queue[j]).id@,
        cache.tables.dom() == id_set(queue),
    ensures
        freeing::<KvCacheManager>(cache, finished(queue)).tables.dom() == id_set(
            unfinished(queue),
        ),
{
    lemma_freeing_dom(cache, finished(queue));
    let f = freeing::<KvCacheManager>(cache, finished(queue));
    assert forall|x: u64| f.tables.dom().contains(x) == id_set(unfinished(queue)).contains(x) by {
        if id_set(queue).contains(x) {
            let i = choose|i: int| 0 <= i < queue.len() && (#[trigger] queue[i]).id@ == x;
            lemma_in_filter(queue, i);
            if queue[i].state is Finished {
                if id_set(unfinished(queue)).contains(x) {
                    let k = choose|k: int|
                        0 <= k < unfinished(queue).len() && (#[trigger] unfinished(
                            queue,
                        )[k]).id@ == x;
                    let j = lemma_from_unfinished(queue, k);
                    assert(queue[j].id@ == x);
                    assert(i == j);
                }
            } else {
                if id_set(finished(queue)).contains(x) {
                    let k = choose|k: int|
                        0 <= k < finished(queue).len() && (#[trigger] finished(queue)[k]).id@ == x;
                    let j = lemma_from_finished(queue, k);
                    assert(queue[j].id@ == x);
                    assert(i == j);
                }
            }
        }
        if id_set(unfinished(queue)).contains(x) {
            let k = choose|k: int|
                0 <= k < unfinished(queue).len() && (#[trigger] unfinished(queue)[k]).id@ == x;
            let j = lemma_from_unfinished(queue, k);
            assert(queue[j].id@ == x);
            assert(id_set(queue).contains(x));
        }
    }
    assert(f.tables.dom() =~= id_set(unfinished(queue)));
}

proof fn lemma_freeing_dom(cache: CacheState, gone: Seq<SequenceModel>)
    ensures
        freeing::<KvCacheManager>(cache, gone).tables.dom() == cache.tables.dom().difference(
            id_set(gone),
        ),
    decreases gone.len(),
{
    if gone.len() > 0 {
        let d = gone.drop_last();
        lemma_freeing_dom(cache, d);
        lemma_id_set_push(d, gone.last());
        assert(d.push(gone.last()) =~= gone);
        assert(freeing::<KvCacheManager>(cache, gone).tables.dom()
            =~= cache.tables.dom().difference(id_set(gone)));
    } else {
        assert(id_set(gone) =~= Set::empty());
        assert(cache.tables.dom().difference(id_set(gone)) =~= cache.tables.dom());
    }
}

proof fn lemma_in_filter(queue: Seq<SequenceModel>, i: int)
    requires
        0 <= i < queue.len(),
    ensures
        queue[i].state is Finished ==> id_set(finished(queue)).contains(queue[i].id@),
        !(queue[i].state is Finished) ==> id_set(unfinished(queue)).contains(queue[i].id@),
{
    if queue[i].state is Finished {
        queue.lemma_filter_contains(|s: SequenceModel| s.state is Finished, i);
        let k = finished(queue).index_of(queue[i]);
        assert(finished(queue)[k] == queue[i]);
    } else {
        queue.lemma_filter_contains(|s: SequenceModel| !(s.state is Finished), i);
        let k = unfinished(queue).index_of(queue[i]);
        assert(unfinished(queue)[k] == queue[i]);
    }
}

pub proof fn lemma_from_unfinished(queue: Seq<SequenceModel>, k: int) -> (j: int)
    requires
        0 <= k < unfinished(queue).len(),
    ensures
        k <= j < queue.len(),
        queue[j] == unfinished(queue)[k],
        !(queue[j].state is Finished),
    decreases queue.len(),
{
    reveal(Seq::filter);
    let d = queue.drop_last();
    if k < unfinished(d).len() {
        let j = lemma_from_unfinished(d, k);
        assert(queue[j] == d[j]);
        j
    } else {
        d.lemma_filter_len(|s: SequenceModel| !(s.state is Finished));
        queue.len() - 1
    }
}

pub proof fn lemma_from_finished(queue: Seq<SequenceModel>, k: int) -> (j: int)
    requires
        0 <= k < finished(queue).len(),
    ensures
        k <= j < queue.len(),
        queue[j] == finished(queue)[k],
        queue[j].state is Finished,
    decreases queue.len(),
{
    reveal(Seq::filter);
    let d = queue.drop_last();
    if k < finished(d).len() {
        let j = lemma_from_finished(d, k);
        assert(queue[j] == d[j]);
        j
    } else {
        d.lemma_filter_len(|s: SequenceModel| s.state is Finished);
        queue.len() - 1
    }
}

/// Two places of the unfinished part come from two places of the queue.
proof fn lemma_from_unfinished_two(queue: Seq<SequenceModel>, a: int, b: int) -> (r: (int, int))
    requires
        0 <= a < b < unfinished(queue).len(),
    ensures
        0 <= r.0 < r.1 < queue.len(),
        queue[r.0] == unfinished(queue)[a],
        queue[r.1] == unfinished(queue)[b],
    decreases queue.len(),
{
    reveal(Seq::filter);
    let d = queue.drop_last();
    if b < unfinished(d).len() {
        let r = lemma_from_unfinished_two(d, a, b);
        assert(queue[r.0] == d[r.0]);
        assert(queue[r.1] == d[r.1]);
        r
    } else {
        let j = lemma_from_unfinished(d, a);
        assert(queue[j] == d[j]);
        (j, queue.len() - 1)
    }
}

proof fn lemma_subset_distinct(running: Seq<SequenceModel>, waiting: Seq<SequenceModel>)
    requires
        distinct(running, waiting),
    ensures
        distinct(unfinished(running), waiting),
{
    let u = unfinished(running);
    assert forall|i: int, j: int| 0 <= i < u.len() && 0 <= j < u.len() && i != j implies (
    #[trigger] u[i]).id@ != (#[trigger] u[j]).id@ by {
        let (x, y) = if i < j {
            lemma_from_unfinished_two(running, i, j)
        } else {
            lemma_from_unfinished_two(running, j, i)
        };
        assert(running[x].id@ != running[y].id@);
    }
    assert forall|i: int, j: int| 0 <= i < u.len() && 0 <= j < waiting.len() implies (
    #[trigger] u[i]).id@ != (#[trigger] waiting[j]).id@ by {
        let x = lemma_from_unfinished(running, i);
        assert(running[x].id@ != waiting[j].id@);
    }
}

proof fn lemma_unfinished_has_none(queue: Seq<SequenceModel>)
    ensures
        finished(unfinished(queue)).len() == 0,
{
    let u = unfinished(queue);
    if finished(u).len() > 0 {
        let j = lemma_from_finished(u, 0);
        let _ = lemma_from_unfinished(queue, j);
    }
}

/// When nothing runs, every block of the cache is free: a sequence that
/// finished, was cancelled or was preempted leaves nothing behind.
pub proof fn law_idle_cache_is_free(s: SchedulerModel<KvCacheManager>)
    requires
        s.wf(),
        accounted(s.running, s.waiting, s.cache),
        s.running.len() == 0,
    ensures
        s.cache.pool.free.len() == s.cache.pool.blocks.len(),
{
    assert(s.cache.tables.dom() =~= Set::empty());
    law_nothing_held_means_all_free(s.cache);
}

} // verus!
