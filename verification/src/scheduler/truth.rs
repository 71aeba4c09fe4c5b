//! The scheduler keeps what the KV cache promises: each thing it does leaves the
//! cache sound, and the tokens it publishes for a sequence are those the
//! sequence's blocks were given for. A step is taken with no finished sequence
//! left in the running set.

use crate::config::SchedulerConfig;
use crate::id::{SequenceId, TokenId};
use crate::kv_cache::history::{
    law_every_operation_keeps_the_cache_truthful, CacheHistory, CacheStep,
};
use crate::kv_cache::manager::KvCacheManager;
use crate::kv_cache::model::CacheState;
use crate::scheduler::laws::{
    accounted, id_set, in_order, law_arrival_keeps_accounts, law_cancellation_keeps_accounts,
    law_reaping_keeps_accounts, lemma_admit_safe, lemma_caught_up, lemma_continue_safe,
    lemma_evict_safe, lemma_from_finished, lemma_from_unfinished, lemma_id_set_same,
    lemma_try_decode_safe, safe,
};
use crate::scheduler::policy::{
    all_wf, caught_up, chunk_of, decoders, freeing, ids_of, in_time, overdue, partials,
    turned_decoder, Pass, ScheduledSequence, SchedulerModel,
};
use crate::scheduler::queue::{finished, lemma_position, position, queued};
use crate::sequence::SequenceModel;
use vstd::prelude::*;

verus! {

/// The tokens that the sequence of that id has its blocks for.
pub open spec fn opening_of(running: Seq<SequenceModel>, id: u64) -> Seq<TokenId> {
    running[choose|i: int| 0 <= i < running.len() && (#[trigger] running[i]).id@ == id].opening()
}

/// The cache, with the tokens that each running sequence has its blocks for.
pub open spec fn book(running: Seq<SequenceModel>, cache: CacheState) -> CacheHistory {
    CacheHistory {
        cache,
        prompts: Map::new(
            |id: u64| id_set(running).contains(id),
            |id: u64| opening_of(running, id),
        ),
    }
}

/// Whether the queues and the cache fit together: exactly the running sequences
/// hold blocks, and the cache is sound and can publish what each of them has
/// its blocks for.
pub open spec fn truthful(
    running: Seq<SequenceModel>,
    waiting: Seq<SequenceModel>,
    cache: CacheState,
) -> bool {
    &&& accounted(running, waiting, cache)
    &&& all_wf(running)
    &&& all_wf(waiting)
    &&& book(running, cache).truthful()
}

/// Whether no two of the sequences have the same id.
spec fn apart(running: Seq<SequenceModel>) -> bool {
    forall|i: int, j: int|
        0 <= i < running.len() && 0 <= j < running.len() && i != j ==> (
        #[trigger] running[i]).id@ != (#[trigger] running[j]).id@
}

proof fn lemma_opening_of(running: Seq<SequenceModel>, i: int)
    requires
        apart(running),
        0 <= i < running.len(),
    ensures
        opening_of(running, running[i].id@) == running[i].opening(),
        id_set(running).contains(running[i].id@),
{
    let id = running[i].id@;
    let j = choose|j: int| 0 <= j < running.len() && (#[trigger] running[j]).id@ == id;
    assert(running[i].id@ == id);
    assert(0 <= j < running.len() && running[j].id@ == id);
}

/// A truthful history that has the right tokens for each sequence is the book.
proof fn lemma_book(running: Seq<SequenceModel>, h: CacheHistory)
    requires
        apart(running),
        h.truthful(),
        h.cache.tables.dom() == id_set(running),
        forall|i: int|
            0 <= i < running.len() ==> h.prompts[(#[trigger] running[i]).id@]
                == running[i].opening(),
    ensures
        book(running, h.cache).truthful(),
{
    let b = book(running, h.cache);
    assert(b.prompts.dom() =~= h.prompts.dom());
    assert forall|x: u64| #[trigger] b.prompts.contains_key(x) implies b.prompts[x]
        == h.prompts[x] by {
        assert(id_set(running).contains(x));
        let i = choose|i: int| 0 <= i < running.len() && (#[trigger] running[i]).id@ == x;
        lemma_opening_of(running, i);
    }
    assert(b.prompts =~= h.prompts);
}

/// The same sequences with the same tokens have the same book.
proof fn lemma_same_book(a: Seq<SequenceModel>, b: Seq<SequenceModel>, cache: CacheState)
    requires
        apart(a),
        a.len() == b.len(),
        forall|i: int|
            #![trigger a[i]]
            #![trigger b[i]]
            0 <= i < a.len() ==> a[i].id == b[i].id && a[i].opening() == b[i].opening(),
        book(a, cache).truthful(),
        cache.tables.dom() == id_set(a),
        id_set(a) == id_set(b),
    ensures
        book(b, cache).truthful(),
{
    assert forall|i: int| 0 <= i < b.len() implies book(a, cache).prompts[(#[trigger] b[i]).id@]
        == b[i].opening() by {
        lemma_opening_of(a, i);
    }
    lemma_book(b, book(a, cache));
}

spec fn sane(p: Pass<KvCacheManager>) -> bool {
    &&& safe(p)
    &&& truthful(p.running, p.waiting, p.cache)
}

proof fn lemma_evict_true(p: Pass<KvCacheManager>)
    requires
        sane(p),
        p.running.len() > 0,
    ensures
        sane(p.evict()),
{
    let e = p.evict();
    let v = p.running.last();
    lemma_evict_safe(p);
    let h = book(p.running, p.cache);
    let step = CacheStep::Free { seq: v.id@ };
    law_every_operation_keeps_the_cache_truthful(h, step);
    assert(p.running[p.running.len() - 1] == v);
    assert forall|i: int| 0 <= i < e.running.len() implies h.after(step).prompts[(
    #[trigger] e.running[i]).id@] == e.running[i].opening() by {
        assert(e.running[i] == p.running[i]);
        lemma_opening_of(p.running, i);
    }
    lemma_book(e.running, h.after(step));
    assert forall|i: int| 0 <= i < e.waiting.len() implies (#[trigger] e.waiting[i]).wf() by {
        if i > 0 {
            assert(e.waiting[i] == p.waiting[i - 1]);
        } else {
            assert(p.running[p.running.len() - 1].wf());
        }
    }
}

proof fn lemma_try_true(p: Pass<KvCacheManager>, id: SequenceId, at: usize)
    requires
        sane(p),
    ensures
        sane(p.try_decode(id, at)),
{
    let q = p.try_decode(id, at);
    lemma_try_decode_safe(p, id, at);
    if queued(p.running, id) && p.cache.can_append(id@) {
        let h = book(p.running, p.cache);
        let step = CacheStep::Append { seq: id@ };
        law_every_operation_keeps_the_cache_truthful(h, step);
        lemma_position(p.running, id);
        lemma_caught_up(p.running, id);
        lemma_id_set_same(caught_up(p.running, id), p.running);
        assert forall|i: int| 0 <= i < q.running.len() implies h.after(step).prompts[(
        #[trigger] q.running[i]).id@] == q.running[i].opening() by {
            lemma_opening_of(p.running, i);
        }
        lemma_book(q.running, h.after(step));
        assert forall|i: int| 0 <= i < q.running.len() implies (#[trigger] q.running[i]).wf() by {
            assert(p.running[i].wf());
        }
    }
}

proof fn lemma_decode_true(
    p: Pass<KvCacheManager>,
    candidates: Seq<(SequenceId, usize)>,
    budget: int,
)
    requires
        sane(p),
    ensures
        sane(p.decode(candidates, budget)),
    decreases candidates.len(),
{
    if candidates.len() == 0 || p.used >= budget {
    } else {
        let (id, at) = candidates[0];
        let rest = candidates.drop_first();
        let tried = p.try_decode(id, at);
        lemma_try_true(p, id, at);
        if !p.is_stuck(id) {
            lemma_decode_true(tried, rest, budget);
        } else {
            lemma_evict_true(tried);
            lemma_try_true(tried.evict(), id, at);
            lemma_decode_true(tried.evict().try_decode(id, at), rest, budget);
        }
    }
}

proof fn lemma_continue_true(
    p: Pass<KvCacheManager>,
    candidates: Seq<(SequenceId, usize, usize)>,
    budget: int,
    chunked: bool,
    now: u64,
)
    requires
        sane(p),
    ensures
        sane(p.continue_prefills(candidates, budget, chunked, now)),
    decreases candidates.len(),
{
    if candidates.len() == 0 || p.used >= budget {
    } else {
        let (id, done, left) = candidates[0];
        let rest = candidates.drop_first();
        let chunk = chunk_of(chunked, left as int, budget - p.used);
        let at = position(p.running, id);
        lemma_position(p.running, id);
        if chunk == 0 || at >= p.running.len() {
            lemma_continue_true(p, rest, budget, chunked, now);
        } else {
            let q = Pass {
                running: p.running.update(
                    at,
                    turned_decoder(p.running[at].prefilled(chunk), now),
                ),
                ..p.granted(
                    ScheduledSequence {
                        id,
                        num_tokens: chunk as usize,
                        start_position: done,
                        is_prefill: true,
                    },
                )
            };
            let one = seq![(id, done, left)];
            lemma_continue_safe(p, one, budget, chunked, now);
            assert(one[0] == (id, done, left));
            assert(q == p.continue_prefills(one, budget, chunked, now)) by {
                assert(one.drop_first().len() == 0);
                assert(q.continue_prefills(one.drop_first(), budget, chunked, now) == q);
            }
            assert(p.running[at].wf());
            assert forall|i: int| 0 <= i < q.running.len() implies (#[trigger] q.running[i]).wf() by {
                assert(p.running[i].wf());
            }
            lemma_same_book(p.running, q.running, p.cache);
            lemma_continue_true(q, rest, budget, chunked, now);
        }
    }
}

proof fn lemma_fill_true(p: Pass<KvCacheManager>, config: SchedulerConfig, now: u64)
    requires
        sane(p),
    ensures
        sane(p.fill(config, now)),
    decreases config.max_num_batched_tokens - p.used, p.running.len(),
{
    if !p.considers(config) {
    } else if p.head_is_blocked() {
        if p.running.len() > 0 {
            lemma_evict_true(p);
            lemma_fill_true(p.evict(), config, now);
        }
    } else if p.head_is_refused() {
        assert(p.refuse_head().waiting =~= p.waiting);
        assert(p.refuse_head().cache == p.cache);
    } else {
        lemma_admit_true(p, config, now);
        lemma_fill_true(p.admit_head(config, now), config, now);
    }
}

proof fn lemma_admit_true(p: Pass<KvCacheManager>, config: SchedulerConfig, now: u64)
    requires
        sane(p),
        p.considers(config),
        !p.head_is_blocked(),
        !p.head_is_refused(),
    ensures
        sane(p.admit_head(config, now)),
{
    let q = p.admit_head(config, now);
    let next = p.head();
    let s = q.running.last();
    lemma_admit_safe(p, config, now);
    assert(p.waiting[0].wf());
    assert(p.waiting[0].computed == 0);
    assert(next.wf());
    let h = book(p.running, p.cache);
    let step = CacheStep::Admit { seq: next.id@, prompt: next.opening() };
    assert(next.opening().len() == next.span);
    law_every_operation_keeps_the_cache_truthful(h, step);
    assert(s.opening() == next.opening());
    assert forall|i: int| 0 <= i < q.running.len() implies h.after(step).prompts[(
    #[trigger] q.running[i]).id@] == q.running[i].opening() by {
        if i < p.running.len() {
            assert(q.running[i] == p.running[i]);
            assert(p.running[i].id@ != p.waiting[0].id@);
            lemma_opening_of(p.running, i);
        } else {
            assert(q.running[i] == s);
        }
    }
    lemma_book(q.running, h.after(step));
    assert forall|i: int| 0 <= i < q.running.len() implies (#[trigger] q.running[i]).wf() by {
        if i < p.running.len() {
            assert(p.running[i].wf());
        }
    }
    assert forall|i: int| 0 <= i < q.waiting.len() implies (#[trigger] q.waiting[i]).wf() by {
        assert(q.waiting[i] == p.waiting[i + 1]);
    }
}

/// A step keeps the cache sound and the book right, however it preempts,
/// continues and admits.
pub proof fn law_a_step_keeps_the_cache_truthful(s: SchedulerModel<KvCacheManager>, now: u64)
    requires
        in_order(s),
        truthful(s.running, s.waiting, s.cache),
    ensures
        in_order(s.stepped(now)),
        truthful(s.stepped(now).running, s.stepped(now).waiting, s.stepped(now).cache),
{
    let b = s.begin();
    let budget = s.config.max_num_batched_tokens as int;
    let chunked = s.config.enable_chunked_prefill;
    if s.config.prioritize_decode {
        let d = b.decode(decoders(s.running), budget);
        lemma_decode_true(b, decoders(s.running), budget);
        lemma_continue_true(d, partials(d.running), budget, chunked, now);
        lemma_fill_true(
            d.continue_prefills(partials(d.running), budget, chunked, now),
            s.config,
            now,
        );
    } else {
        let c = b.continue_prefills(partials(b.running), budget, chunked, now);
        lemma_continue_true(b, partials(b.running), budget, chunked, now);
        lemma_fill_true(c, s.config, now);
        let f = c.fill(s.config, now);
        lemma_decode_true(f, decoders(f.running), budget);
    }
}

/// So does a new request.
pub proof fn law_arrival_keeps_the_cache_truthful(
    s: SchedulerModel<KvCacheManager>,
    q: SequenceModel,
)
    requires
        in_order(s),
        truthful(s.running, s.waiting, s.cache),
        q.wf(),
        q.state is Waiting,
        q.computed == 0,
        !id_set(s.running).contains(q.id@),
        !id_set(s.waiting).contains(q.id@),
    ensures
        in_order(s.accepting(q)),
        truthful(s.accepting(q).running, s.accepting(q).waiting, s.accepting(q).cache),
{
    law_arrival_keeps_accounts(s, q);
    let a = s.accepting(q);
    assert forall|i: int| 0 <= i < a.waiting.len() implies (#[trigger] a.waiting[i]).wf() by {
        if i < s.waiting.len() {
            assert(a.waiting[i] == s.waiting[i]);
        }
    }
}

/// So does a cancellation.
pub proof fn law_cancellation_keeps_the_cache_truthful(
    s: SchedulerModel<KvCacheManager>,
    id: SequenceId,
)
    requires
        in_order(s),
        truthful(s.running, s.waiting, s.cache),
    ensures
        in_order(s.cancelling(id)),
        truthful(s.cancelling(id).running, s.cancelling(id).waiting, s.cancelling(id).cache),
{
    law_cancellation_keeps_accounts(s, id);
    lemma_position(s.waiting, id);
    lemma_position(s.running, id);
    let c = s.cancelling(id);
    let w = position(s.waiting, id);
    let r = position(s.running, id);
    if w < s.waiting.len() {
        assert forall|i: int| 0 <= i < c.waiting.len() implies (#[trigger] c.waiting[i]).wf() by {
            assert(c.waiting[i] == s.waiting[if i < w {
                i
            } else {
                i + 1
            }]);
        }
    } else if r < s.running.len() {
        let h = book(s.running, s.cache);
        let step = CacheStep::Free { seq: id@ };
        law_every_operation_keeps_the_cache_truthful(h, step);
        assert forall|i: int| 0 <= i < c.running.len() implies h.after(step).prompts[(
        #[trigger] c.running[i]).id@] == c.running[i].opening() && c.running[i].wf() by {
            let j = if i < r {
                i
            } else {
                i + 1
            };
            assert(c.running[i] == s.running[j]);
            assert(s.running[j].id@ != s.running[r].id@);
            lemma_opening_of(s.running, j);
        }
        lemma_book(c.running, h.after(step));
    }
}

/// So does a generated token: a sequence that grows keeps the tokens that it
/// has its blocks for.
pub proof fn law_a_token_keeps_the_cache_truthful(
    s: SchedulerModel<KvCacheManager>,
    id: SequenceId,
    token: TokenId,
    eos: Seq<TokenId>,
    now: u64,
)
    requires
        truthful(s.running, s.waiting, s.cache),
        position(s.running, id) < s.running.len(),
        s.running[position(s.running, id)].total() < usize::MAX,
    ensures
        truthful(
            s.receiving(id, token, eos, now).running,
            s.receiving(id, token, eos, now).waiting,
            s.receiving(id, token, eos, now).cache,
        ),
{
    let r = s.receiving(id, token, eos, now);
    let p = position(s.running, id);
    lemma_position(s.running, id);
    let before = s.running[p];
    assert(before.wf());
    let after = r.running[p];
    assert(after.opening() =~= before.opening());
    assert forall|i: int| 0 <= i < r.running.len() implies {
        &&& (#[trigger] r.running[i]).wf()
        &&& r.running[i].id == s.running[i].id
        &&& r.running[i].opening() == s.running[i].opening()
    } by {
        assert(s.running[i].wf());
    }
    assert(ids_of(r.running) =~= ids_of(s.running));
    lemma_id_set_same(r.running, s.running);
    lemma_same_book(s.running, r.running, s.cache);
}

/// So does publishing what a running sequence has its blocks for.
pub proof fn law_publishing_keeps_the_cache_truthful(
    s: SchedulerModel<KvCacheManager>,
    id: SequenceId,
)
    requires
        truthful(s.running, s.waiting, s.cache),
    ensures
        truthful(s.committing(id).running, s.committing(id).waiting, s.committing(id).cache),
{
    let p = position(s.running, id);
    lemma_position(s.running, id);
    let c = s.committing(id);
    if p < s.running.len() && s.running[p].left() == 0 {
        let h = book(s.running, s.cache);
        let step = CacheStep::Commit { seq: id@ };
        lemma_opening_of(s.running, p);
        assert(s.cache.tables.dom().contains(id@));
        law_every_operation_keeps_the_cache_truthful(h, step);
        assert(h.after(step).cache == c.cache);
        assert(h.after(step).prompts.dom() == c.cache.tables.dom());
        assert forall|i: int| 0 <= i < c.running.len() implies h.after(step).prompts[(
        #[trigger] c.running[i]).id@] == c.running[i].opening() by {
            lemma_opening_of(s.running, i);
        }
        assert(c.cache.tables.dom() =~= id_set(c.running));
        lemma_book(c.running, h.after(step));
    }
}

/// The cache after each of the sequences gave back its blocks.
spec fn released(h: CacheHistory, gone: Seq<SequenceModel>) -> CacheHistory
    decreases gone.len(),
{
    if gone.len() == 0 {
        h
    } else {
        released(h, gone.drop_last()).after(CacheStep::Free { seq: gone.last().id@ })
    }
}

proof fn lemma_released(h: CacheHistory, gone: Seq<SequenceModel>)
    requires
        h.truthful(),
    ensures
        released(h, gone).truthful(),
        released(h, gone).cache == freeing::<KvCacheManager>(h.cache, gone),
        forall|x: u64| #[trigger]
            h.prompts.contains_key(x) && !id_set(gone).contains(x) ==> released(
                h,
                gone,
            ).prompts[x] == h.prompts[x] && released(h, gone).prompts.contains_key(x),
    decreases gone.len(),
{
    if gone.len() > 0 {
        let front = gone.drop_last();
        lemma_released(h, front);
        law_every_operation_keeps_the_cache_truthful(
            released(h, front),
            CacheStep::Free { seq: gone.last().id@ },
        );
        assert forall|x: u64| #[trigger]
            h.prompts.contains_key(x) && !id_set(gone).contains(x) implies !id_set(front).contains(
            x,
        ) && x != gone.last().id@ by {
            if id_set(front).contains(x) {
                let i = choose|i: int| 0 <= i < front.len() && (#[trigger] front[i]).id@ == x;
                assert(gone[i].id@ == x);
            }
            if x == gone.last().id@ {
                assert(gone[gone.len() - 1].id@ == x);
            }
        }
    }
}

/// So does retiring the finished sequences.
pub proof fn law_reaping_keeps_the_cache_truthful(s: SchedulerModel<KvCacheManager>)
    requires
        truthful(s.running, s.waiting, s.cache),
    ensures
        truthful(s.reaped().running, s.reaped().waiting, s.reaped().cache),
{
    let r = s.reaped();
    let gone = finished(s.running);
    let h = book(s.running, s.cache);
    law_reaping_keeps_accounts(s);
    lemma_released(h, gone);
    assert forall|i: int| 0 <= i < r.running.len() implies released(h, gone).prompts[(
    #[trigger] r.running[i]).id@] == r.running[i].opening() && r.running[i].wf() by {
        let j = lemma_from_unfinished(s.running, i);
        lemma_opening_of(s.running, j);
        let x = r.running[i].id@;
        if id_set(gone).contains(x) {
            let k = choose|k: int| 0 <= k < gone.len() && (#[trigger] gone[k]).id@ == x;
            let l = lemma_from_finished(s.running, k);
            assert(s.running[l].id@ == s.running[j].id@);
        }
        assert(h.prompts.contains_key(x));
        assert(s.running[j].wf());
    }
    lemma_book(r.running, released(h, gone));
}

/// So does ending the sequences that took too long.
pub proof fn law_expiry_keeps_the_cache_truthful(s: SchedulerModel<KvCacheManager>, now: u64)
    requires
        truthful(s.running, s.waiting, s.cache),
    ensures
        truthful(s.expired(now).running, s.expired(now).waiting, s.expired(now).cache),
{
    if let Some(limit) = s.config.request_timeout_secs {
        let e = s.expired(now);
        assert forall|i: int| 0 <= i < e.running.len() implies {
            &&& (#[trigger] e.running[i]).wf()
            &&& e.running[i].id == s.running[i].id
            &&& e.running[i].opening() == s.running[i].opening()
        } by {
            assert(s.running[i].wf());
        }
        assert(ids_of(e.running) =~= ids_of(s.running));
        lemma_id_set_same(e.running, s.running);
        lemma_same_book(s.running, e.running, s.cache);
        assert forall|i: int, j: int|
            0 <= i < e.waiting.len() && 0 <= j < e.waiting.len() && i != j implies (
        #[trigger] e.waiting[i]).id@ != (#[trigger] e.waiting[j]).id@ by {
            if i < j {
                lemma_in_time_two(s.waiting, limit, now, i, j);
            } else {
                lemma_in_time_two(s.waiting, limit, now, j, i);
            }
        }
        assert forall|j: int| 0 <= j < e.waiting.len() implies (#[trigger] e.waiting[j]).wf()
            && e.waiting[j].computed == 0 by {
            let k = lemma_in_time(s.waiting, limit, now, j);
            assert(s.waiting[k].wf());
        }
        assert forall|i: int, j: int|
            0 <= i < e.running.len() && 0 <= j < e.waiting.len() implies (
        #[trigger] e.running[i]).id@ != (#[trigger] e.waiting[j]).id@ by {
            let k = lemma_in_time(s.waiting, limit, now, j);
            assert(s.running[i].id@ != s.waiting[k].id@);
        }
    }
}

/// Where a sequence that is left in the queue stood in it.
proof fn lemma_in_time(queue: Seq<SequenceModel>, limit: u64, now: u64, k: int) -> (j: int)
    requires
        0 <= k < in_time(queue, limit, now).len(),
    ensures
        k <= j < queue.len(),
        queue[j] == in_time(queue, limit, now)[k],
    decreases queue.len(),
{
    reveal(Seq::filter);
    let d = queue.drop_last();
    if k < in_time(d, limit, now).len() {
        let j = lemma_in_time(d, limit, now, k);
        assert(queue[j] == d[j]);
        j
    } else {
        d.lemma_filter_len(|s: SequenceModel| !overdue(s, limit, now));
        queue.len() - 1
    }
}

/// Two sequences that are left in the queue stood at two places of it.
proof fn lemma_in_time_two(queue: Seq<SequenceModel>, limit: u64, now: u64, a: int, b: int)
    requires
        0 <= a < b < in_time(queue, limit, now).len(),
        apart(queue),
    ensures
        in_time(queue, limit, now)[a].id@ != in_time(queue, limit, now)[b].id@,
    decreases queue.len(),
{
    reveal(Seq::filter);
    let d = queue.drop_last();
    let kept = in_time(d, limit, now);
    assert forall|i: int, j: int| 0 <= i < d.len() && 0 <= j < d.len() && i != j implies (
    #[trigger] d[i]).id@ != (#[trigger] d[j]).id@ by {
        assert(queue[i] == d[i] && queue[j] == d[j]);
    }
    if b < kept.len() {
        lemma_in_time_two(d, limit, now, a, b);
    } else {
        let i = lemma_in_time(d, limit, now, a);
        assert(queue[i] == d[i]);
        assert(queue[queue.len() - 1] == in_time(queue, limit, now)[b]);
    }
}

} // verus!
