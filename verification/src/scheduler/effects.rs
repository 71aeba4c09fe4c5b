//! What the scheduler's operations do, said of the queues themselves: which
//! sequence gets a token and ends, which leave, which stay, and what is counted.

use crate::id::{SequenceId, TokenId};
use crate::scheduler::cache::KvCacheManagerLike;
use crate::scheduler::policy::{overdue, overdue_of, stop_after, SchedulerModel};
use crate::scheduler::queue::{
    finished, lemma_position, marked, position, queued, tokens_held, unfinished,
};
use crate::sequence::{FinishReason, SequenceModel};
use vstd::prelude::*;

verus! {

// ----- stopping -------------------------------------------------------------------

/// A sequence that has its minimum of tokens stops at every one of the model's
/// end tokens and of its own stop tokens, wherever the token stands in the list,
/// and at no other.
pub proof fn law_every_stop_token_stops(
    s: SequenceModel,
    token: TokenId,
    eos: Seq<TokenId>,
    at: int,
)
    ensures
        0 <= at < eos.len() && eos[at] == token && s.output.len() >= s.params.min_tokens
            ==> stop_after(s, token, eos) == Some(FinishReason::Stop),
        0 <= at < s.params.stop_token_ids@.len() && s.params.stop_token_ids@[at] == token
            && s.output.len() >= s.params.min_tokens ==> stop_after(s, token, eos) == Some(
            FinishReason::Stop,
        ),
        stop_after(s, token, eos) == Some(FinishReason::Stop) ==> {
            &&& s.output.len() >= s.params.min_tokens
            &&& (exists|i: int| 0 <= i < eos.len() && eos[i] == token) || (exists|i: int|
                0 <= i < s.params.stop_token_ids@.len() && s.params.stop_token_ids@[i] == token)
        },
{
    if stop_after(s, token, eos) == Some(FinishReason::Stop) {
        if eos.contains(token) {
            let i = choose|i: int| 0 <= i < eos.len() && eos[i] == token;
            assert(eos[i] == token);
        } else {
            let ids = s.params.stop_token_ids@;
            let i = choose|i: int| 0 <= i < ids.len() && ids[i] == token;
            assert(ids[i] == token);
        }
    }
}

/// A sequence ends for its length exactly where it has its maximum of tokens and
/// did not stop at the last of them; and it goes on exactly where neither holds.
pub proof fn law_the_maximum_ends_for_length(s: SequenceModel, token: TokenId, eos: Seq<TokenId>)
    ensures
        stop_after(s, token, eos) == Some(FinishReason::Length) <==> s.output.len()
            >= s.params.max_tokens && stop_after(s, token, eos) != Some(FinishReason::Stop),
        stop_after(s, token, eos) is None <==> s.output.len() < s.params.max_tokens && stop_after(
            s,
            token,
            eos,
        ) != Some(FinishReason::Stop),
        stop_after(s, token, eos) matches Some(r) ==> r is Stop || r is Length,
{
}

/// A generated token goes to the one running sequence with the id, behind what it
/// had generated; where the token ends it, it is finished for that reason at that
/// time; every other sequence, the cache and the counters stay.
pub proof fn law_a_token_reaches_one_sequence<C: KvCacheManagerLike>(
    s: SchedulerModel<C>,
    id: SequenceId,
    token: TokenId,
    eos: Seq<TokenId>,
    now: u64,
    p: int,
)
    requires
        0 <= p < s.running.len(),
        s.running[p].id == id,
        forall|i: int| 0 <= i < p ==> (#[trigger] s.running[i]).id != id,
        !(s.running[p].state is Finished),
    ensures
        ({
            let after = s.receiving(id, token, eos, now);
            let before = s.running[p];
            let got = after.running[p];
            let stops = eos.contains(token) || before.params.stop_token_ids@.contains(token);
            let n = before.output.len() + 1;
            &&& after.running.len() == s.running.len()
            &&& forall|i: int|
                0 <= i < s.running.len() && i != p ==> #[trigger] after.running[i] == s.running[i]
            &&& got.id == id
            &&& got.prompt == before.prompt
            &&& got.output == before.output.push(token)
            &&& got.params == before.params
            &&& got.computed == before.computed
            &&& stops && n >= before.params.min_tokens ==> got.state is Finished
                && got.finish_reason == Some(FinishReason::Stop) && got.timings.finished_at == Some(
                now,
            )
            &&& !(stops && n >= before.params.min_tokens) && n >= before.params.max_tokens
                ==> got.state is Finished && got.finish_reason == Some(FinishReason::Length)
                && got.timings.finished_at == Some(now)
            &&& !(stops && n >= before.params.min_tokens) && n < before.params.max_tokens
                ==> got.state == before.state && got.finish_reason == before.finish_reason
            &&& after.waiting == s.waiting
            &&& after.cache == s.cache
            &&& after.stats == s.stats
            &&& after.config == s.config
        }),
{
    crate::scheduler::queue::lemma_position_is(s.running, id, p);
}

// ----- deadlines ------------------------------------------------------------------

/// A sequence is overdue exactly where more than the limit has passed since it
/// arrived.
pub proof fn law_overdue_is_past_the_limit(s: SequenceModel, limit_secs: u64, now: u64)
    ensures
        overdue(s, limit_secs, now) <==> now - s.timings.arrived_at > limit_secs * 1_000_000_000,
{
}

/// With a limit, every running sequence past it is finished for its time, all
/// others run on as they were, in their places; of the waiting ones those within
/// the limit stay, in order, and no other. Without a limit nothing changes.
pub proof fn law_deadlines_end_the_overdue<C: KvCacheManagerLike>(
    s: SchedulerModel<C>,
    now: u64,
    i: int,
)
    ensures
        s.config.request_timeout_secs is None ==> s.expired(now) == s && s.expired_ids(now).len()
            == 0,
        s.expired(now).cache == s.cache,
        s.expired(now).stats == s.stats,
        s.expired(now).running.len() == s.running.len(),
        s.config.request_timeout_secs matches Some(limit) ==> {
            &&& 0 <= i < s.running.len() && now - s.running[i].timings.arrived_at > limit
                * 1_000_000_000 ==> {
                let e = s.expired(now).running[i];
                &&& e.state is Finished
                &&& !(s.running[i].state is Finished) ==> e.finish_reason == Some(
                    FinishReason::Timeout,
                ) && e.timings.finished_at == Some(now)
                &&& e.id == s.running[i].id
                &&& e.output == s.running[i].output
                &&& s.expired_ids(now).contains(s.running[i].id)
            }
            &&& 0 <= i < s.running.len() && now - s.running[i].timings.arrived_at <= limit
                * 1_000_000_000 ==> s.expired(now).running[i] == s.running[i]
            &&& 0 <= i < s.waiting.len() && now - s.waiting[i].timings.arrived_at > limit
                * 1_000_000_000 ==> s.expired_ids(now).contains(s.waiting[i].id)
            &&& 0 <= i < s.waiting.len() && now - s.waiting[i].timings.arrived_at <= limit
                * 1_000_000_000 ==> s.expired(now).waiting.contains(s.waiting[i])
            &&& 0 <= i < s.expired(now).waiting.len() ==> {
                let w = s.expired(now).waiting[i];
                &&& s.waiting.contains(w)
                &&& now - w.timings.arrived_at <= limit * 1_000_000_000
            }
        },
{
    if let Some(limit) = s.config.request_timeout_secs {
        let late = |q: SequenceModel| overdue(q, limit, now);
        let good = |q: SequenceModel| !overdue(q, limit, now);
        s.running.filter_lemma(late);
        s.waiting.filter_lemma(late);
        s.waiting.filter_lemma(good);
        let a = overdue_of(s.running, limit, now);
        let b = overdue_of(s.waiting, limit, now);
        if 0 <= i < s.running.len() && overdue(s.running[i], limit, now) {
            assert(late(s.running[i]));
            assert(a.contains(s.running[i]));
            let k = choose|k: int| 0 <= k < a.len() && a[k] == s.running[i];
            assert(s.expired_ids(now)[k] == s.running[i].id);
        }
        if 0 <= i < s.waiting.len() {
            if overdue(s.waiting[i], limit, now) {
                assert(late(s.waiting[i]));
                assert(b.contains(s.waiting[i]));
                let k = choose|k: int| 0 <= k < b.len() && b[k] == s.waiting[i];
                assert(s.expired_ids(now)[a.len() + k] == s.waiting[i].id);
            } else {
                assert(good(s.waiting[i]));
            }
        }
        if 0 <= i < s.expired(now).waiting.len() {
            assert(s.waiting.filter(good).contains(s.expired(now).waiting[i]));
            s.waiting.lemma_filter_contains_rev(good, s.expired(now).waiting[i]);
            assert(good(s.expired(now).waiting[i]));
        }
    }
}

/// Whoever is named as timed out ran or waited past the limit; the running ones
/// are named first.
pub proof fn law_only_the_overdue_are_named<C: KvCacheManagerLike>(
    s: SchedulerModel<C>,
    now: u64,
    k: int,
) -> (at: int)
    requires
        0 <= k < s.expired_ids(now).len(),
    ensures
        s.config.request_timeout_secs is Some,
        ({
            let limit = s.config.request_timeout_secs->0;
            let late = overdue_of(s.running, limit, now).len();
            let queue = if k < late {
                s.running
            } else {
                s.waiting
            };
            &&& 0 <= at < queue.len()
            &&& queue[at].id == s.expired_ids(now)[k]
            &&& now - queue[at].timings.arrived_at > limit * 1_000_000_000
        }),
{
    let limit = s.config.request_timeout_secs->0;
    let late = |q: SequenceModel| overdue(q, limit, now);
    s.running.filter_lemma(late);
    s.waiting.filter_lemma(late);
    let a = overdue_of(s.running, limit, now);
    let b = overdue_of(s.waiting, limit, now);
    if k < a.len() {
        assert(s.running.filter(late).contains(a[k]));
        s.running.lemma_filter_contains_rev(late, a[k]);
        assert(late(a[k]));
        let at = choose|at: int| 0 <= at < s.running.len() && s.running[at] == a[k];
        at
    } else {
        assert(s.waiting.filter(late).contains(b[k - a.len()]));
        s.waiting.lemma_filter_contains_rev(late, b[k - a.len()]);
        assert(late(b[k - a.len()]));
        let at = choose|at: int| 0 <= at < s.waiting.len() && s.waiting[at] == b[k - a.len()];
        at
    }
}

// ----- leaving and arriving -------------------------------------------------------

/// A cancellation takes the one sequence with the id out of the queue it is in,
/// the others keeping their order, and releases blocks only for one that ran.
pub proof fn law_cancellation_takes_one_sequence<C: KvCacheManagerLike>(
    s: SchedulerModel<C>,
    id: SequenceId,
    p: int,
)
    ensures
        ({
            let after = s.cancelling(id);
            let waits = exists|i: int| 0 <= i < s.waiting.len() && (#[trigger] s.waiting[i]).id == id;
            let runs = exists|i: int| 0 <= i < s.running.len() && (#[trigger] s.running[i]).id == id;
            &&& after.stats == s.stats
            &&& after.config == s.config
            &&& !waits && !runs ==> after == s
            &&& waits ==> after.running == s.running && after.cache == s.cache
            &&& !waits && runs ==> after.waiting == s.waiting && after.cache == C::after_free(
                s.cache,
                id@,
            )
            &&& 0 <= p < s.waiting.len() && s.waiting[p].id == id && (forall|i: int|
                0 <= i < p ==> (#[trigger] s.waiting[i]).id != id) ==> after.waiting
                == s.waiting.take(p) + s.waiting.skip(p + 1)
            &&& !waits && 0 <= p < s.running.len() && s.running[p].id == id && (forall|i: int|
                0 <= i < p ==> (#[trigger] s.running[i]).id != id) ==> after.running
                == s.running.take(p) + s.running.skip(p + 1)
        }),
{
    let after = s.cancelling(id);
    lemma_position(s.waiting, id);
    lemma_position(s.running, id);
    let w = position(s.waiting, id);
    let r = position(s.running, id);
    if w < s.waiting.len() {
        assert(s.waiting[w].id == id);
        assert(s.waiting.remove(w) =~= s.waiting.take(w) + s.waiting.skip(w + 1));
    }
    if r < s.running.len() {
        assert(s.running[r].id == id);
        assert(s.running.remove(r) =~= s.running.take(r) + s.running.skip(r + 1));
    }
    if 0 <= p < s.waiting.len() && s.waiting[p].id == id && (forall|i: int|
        0 <= i < p ==> (#[trigger] s.waiting[i]).id != id) {
        crate::scheduler::queue::lemma_position_is(s.waiting, id, p);
    }
    if 0 <= p < s.running.len() && s.running[p].id == id && (forall|i: int|
        0 <= i < p ==> (#[trigger] s.running[i]).id != id) {
        crate::scheduler::queue::lemma_position_is(s.running, id, p);
    }
}

/// An accepted request waits behind all others and is counted once; a refused one
/// is counted as refused, and changes nothing else.
pub proof fn law_arrivals_wait_at_the_back<C: KvCacheManagerLike>(
    s: SchedulerModel<C>,
    q: SequenceModel,
)
    ensures
        s.accepting(q).waiting.len() == s.waiting.len() + 1,
        s.accepting(q).waiting.take(s.waiting.len() as int) == s.waiting,
        s.accepting(q).waiting[s.waiting.len() as int] == q,
        s.accepting(q).running == s.running,
        s.accepting(q).cache == s.cache,
        s.stats.total_admitted < u64::MAX ==> s.accepting(q).stats.total_admitted
            == s.stats.total_admitted + 1,
        s.accepting(q).stats.total_rejected == s.stats.total_rejected,
        s.stats.total_rejected < u64::MAX ==> s.counting_rejection().stats.total_rejected
            == s.stats.total_rejected + 1,
        s.counting_rejection().stats.total_admitted == s.stats.total_admitted,
        s.counting_rejection().waiting == s.waiting,
        s.counting_rejection().running == s.running,
        s.counting_rejection().cache == s.cache,
        s.config.max_model_len matches Some(n) ==> s.context_len() == n,
        s.config.max_model_len is None ==> s.context_len() == usize::MAX,
{
    assert(s.accepting(q).waiting.take(s.waiting.len() as int) =~= s.waiting);
}

/// Retiring takes out exactly the finished sequences, gives back the blocks of
/// each, and counts them.
pub proof fn law_the_finished_are_retired<C: KvCacheManagerLike>(s: SchedulerModel<C>, i: int)
    ensures
        s.reaped().waiting == s.waiting,
        s.reaped().running.len() + finished(s.running).len() == s.running.len(),
        0 <= i < s.running.len() && s.running[i].state is Finished ==> finished(
            s.running,
        ).contains(s.running[i]),
        0 <= i < s.running.len() && !(s.running[i].state is Finished)
            ==> s.reaped().running.contains(s.running[i]),
        0 <= i < s.reaped().running.len() ==> s.running.contains(s.reaped().running[i]) && !(
        s.reaped().running[i].state is Finished),
        0 <= i < finished(s.running).len() ==> s.running.contains(finished(s.running)[i])
            && finished(s.running)[i].state is Finished,
        s.stats.total_finished + finished(s.running).len() <= u64::MAX
            ==> s.reaped().stats.total_finished == s.stats.total_finished + finished(
            s.running,
        ).len(),
{
    lemma_finished_and_not(s.running);
    lemma_finished_members(s.running, i);
}

proof fn lemma_finished_and_not(queue: Seq<SequenceModel>)
    ensures
        finished(queue).len() + unfinished(queue).len() == queue.len(),
    decreases queue.len(),
{
    reveal(Seq::filter);
    if queue.len() > 0 {
        lemma_finished_and_not(queue.drop_last());
    }
}

proof fn lemma_finished_members(queue: Seq<SequenceModel>, i: int)
    ensures
        0 <= i < queue.len() && queue[i].state is Finished ==> finished(queue).contains(queue[i]),
        0 <= i < queue.len() && !(queue[i].state is Finished) ==> unfinished(queue).contains(
            queue[i],
        ),
        0 <= i < unfinished(queue).len() ==> queue.contains(unfinished(queue)[i]) && !(
        unfinished(queue)[i].state is Finished),
        0 <= i < finished(queue).len() ==> queue.contains(finished(queue)[i]) && finished(
            queue,
        )[i].state is Finished,
{
    let done = |s: SequenceModel| s.state is Finished;
    let open = |s: SequenceModel| !(s.state is Finished);
    queue.filter_lemma(done);
    queue.filter_lemma(open);
    if 0 <= i < queue.len() {
        assert(done(queue[i]) || open(queue[i]));
    }
    if 0 <= i < unfinished(queue).len() {
        assert(queue.filter(open).contains(unfinished(queue)[i]));
        queue.lemma_filter_contains_rev(open, unfinished(queue)[i]);
        assert(open(unfinished(queue)[i]));
    }
    if 0 <= i < finished(queue).len() {
        assert(queue.filter(done).contains(finished(queue)[i]));
        queue.lemma_filter_contains_rev(done, finished(queue)[i]);
        assert(done(finished(queue)[i]));
    }
}

/// A prompt is published under the tokens that it was given blocks for, once its
/// chunks are complete and not before.
pub proof fn law_only_complete_prompts_are_published<C: KvCacheManagerLike>(
    s: SchedulerModel<C>,
    id: SequenceId,
    p: int,
)
    requires
        0 <= p < s.running.len(),
        s.running[p].id == id,
        s.running[p].wf(),
        forall|i: int| 0 <= i < p ==> (#[trigger] s.running[i]).id != id,
    ensures
        s.running[p].computed >= s.running[p].span ==> s.committing(id).cache == C::after_commit(
            s.cache,
            id@,
            (s.running[p].prompt + s.running[p].output).take(s.running[p].span),
        ),
        s.running[p].computed < s.running[p].span ==> s.committing(id) == s,
        s.committing(id).running == s.running,
        s.committing(id).waiting == s.waiting,
        s.committing(id).stats == s.stats,
{
    crate::scheduler::queue::lemma_position_is(s.running, id, p);
}

// ----- queues ---------------------------------------------------------------------

/// Of a queue, the marked sequences go and the others stay, both in their order:
/// each is in the one part or the other.
pub proof fn law_marks_part_a_queue(
    queue: Seq<SequenceModel>,
    marks: Seq<bool>,
    more: SequenceModel,
    mark: bool,
)
    requires
        marks.len() == queue.len(),
    ensures
        marked(queue, marks, true).len() + marked(queue, marks, false).len() == queue.len(),
        marked(queue.push(more), marks.push(mark), mark) == marked(queue, marks, mark).push(more),
        marked(queue.push(more), marks.push(mark), !mark) == marked(queue, marks, !mark),
    decreases queue.len(),
{
    assert(queue.push(more).drop_last() =~= queue);
    assert(marks.push(mark).drop_last() =~= marks);
    if queue.len() > 0 {
        law_marks_part_a_queue(queue.drop_last(), marks.drop_last(), more, mark);
    }
}

/// A queue holds the tokens of its sequences, prompts and outputs.
pub proof fn law_queues_hold_the_tokens_of_their_sequences(
    queue: Seq<SequenceModel>,
    more: SequenceModel,
)
    ensures
        tokens_held(seq![]) == 0,
        tokens_held(queue.push(more)) == tokens_held(queue) + more.prompt.len()
            + more.output.len(),
{
    assert(queue.push(more).drop_last() =~= queue);
}

/// Where a sequence is found: at the first place that has its id, if any has.
pub proof fn law_sequences_are_found_by_id(queue: Seq<SequenceModel>, id: SequenceId, p: int)
    ensures
        0 <= p < queue.len() && queue[p].id == id && (forall|i: int|
            0 <= i < p ==> (#[trigger] queue[i]).id != id) ==> position(queue, id) == p && queued(
            queue,
            id,
        ),
        (forall|i: int| 0 <= i < queue.len() ==> (#[trigger] queue[i]).id != id) ==> !queued(
            queue,
            id,
        ),
{
    lemma_position(queue, id);
    if 0 <= p < queue.len() && queue[p].id == id && (forall|i: int|
        0 <= i < p ==> (#[trigger] queue[i]).id != id) {
        crate::scheduler::queue::lemma_position_is(queue, id, p);
    }
}

} // verus!
