//! Whom the decoding part of a step serves.

use crate::id::SequenceId;
use crate::scheduler::cache::KvCacheManagerLike;
use crate::scheduler::laws::lemma_caught_up;
use crate::scheduler::policy::{decoders, ids_of, Pass, ScheduledSequence};
use crate::scheduler::queue::{lemma_position, position, queued};
use crate::sequence::SequenceModel;
use vstd::prelude::*;

verus! {

/// The places of the decoders among the running sequences.
spec fn decoder_places(running: Seq<SequenceModel>) -> Seq<int>
    decreases running.len(),
{
    if running.len() == 0 {
        seq![]
    } else {
        let front = decoder_places(running.drop_last());
        if running.last().state is Decoding {
            front.push(running.len() - 1)
        } else {
            front
        }
    }
}

/// Whether the candidates stand at those places of the ids, each after the one
/// before it and none before `low`.
spec fn in_places(
    candidates: Seq<(SequenceId, usize)>,
    places: Seq<int>,
    ids: Seq<SequenceId>,
    low: int,
) -> bool {
    &&& places.len() == candidates.len()
    &&& forall|k: int|
        0 <= k < places.len() ==> low <= #[trigger] places[k] < ids.len() && ids[places[k]]
            == candidates[k].0
    &&& forall|j: int, k: int| 0 <= j < k < places.len() ==> #[trigger] places[j] < #[trigger] places[k]
}

proof fn lemma_decoder_places(running: Seq<SequenceModel>)
    ensures
        in_places(decoders(running), decoder_places(running), ids_of(running), 0),
    decreases running.len(),
{
    if running.len() > 0 {
        let front = running.drop_last();
        lemma_decoder_places(front);
        let places = decoder_places(running);
        assert forall|k: int| 0 <= k < places.len() implies 0 <= #[trigger] places[k]
            < ids_of(running).len() && ids_of(running)[places[k]] == decoders(running)[k].0 by {
            if k < decoder_places(front).len() {
                let q = decoder_places(front)[k];
                assert(places[k] == q);
                assert(ids_of(front)[q] == decoders(front)[k].0);
                assert(front[q] == running[q]);
            }
        }
        assert forall|j: int, k: int| 0 <= j < k < places.len() implies #[trigger] places[j]
            < #[trigger] places[k] by {
            let before = decoder_places(front);
            assert(before[j] < ids_of(front).len());
            if k < before.len() {
                assert(before[j] < before[k]);
            }
        }
    }
}

/// Whether an id is one of the first `bound`.
spec fn among(ids: Seq<SequenceId>, bound: int, id: SequenceId) -> bool {
    exists|q: int| 0 <= q < bound && ids[q] == id
}

/// Whether every batch entry from `base` on is that of one of the first `bound`
/// ids.
spec fn serves(batch: Seq<ScheduledSequence>, base: int, ids: Seq<SequenceId>, bound: int) -> bool {
    forall|e: int| base <= e < batch.len() ==> among(ids, bound, (#[trigger] batch[e]).id)
}

/// An id runs exactly where its place is among those that still run.
proof fn lemma_runs_at(running: Seq<SequenceModel>, ids: Seq<SequenceId>, place: int)
    requires
        ids.no_duplicates(),
        running.len() <= ids.len(),
        ids_of(running) == ids.take(running.len() as int),
        0 <= place < ids.len(),
    ensures
        queued(running, ids[place]) <==> place < running.len(),
{
    let id = ids[place];
    lemma_position(running, id);
    let p = position(running, id);
    if p < running.len() {
        assert(ids_of(running)[p] == running[p].id);
        assert(ids[p] == id);
    }
    if place < running.len() {
        assert(ids_of(running)[place] == running[place].id);
    }
}

proof fn lemma_served<C: KvCacheManagerLike>(
    p: Pass<C>,
    ids: Seq<SequenceId>,
    candidates: Seq<(SequenceId, usize)>,
    places: Seq<int>,
    budget: int,
    base: int,
    low: int,
)
    requires
        ids.no_duplicates(),
        p.running.len() <= ids.len(),
        ids_of(p.running) == ids.take(p.running.len() as int),
        in_places(candidates, places, ids, low),
        0 <= low <= ids.len(),
        0 <= base <= p.scheduled.len(),
        serves(p.scheduled, base, ids, low),
        serves(p.scheduled, base, ids, p.running.len() as int),
    ensures
        p.decode(candidates, budget).running.len() <= ids.len(),
        ids_of(p.decode(candidates, budget).running) == ids.take(
            p.decode(candidates, budget).running.len() as int,
        ),
        serves(
            p.decode(candidates, budget).scheduled,
            base,
            ids,
            p.decode(candidates, budget).running.len() as int,
        ),
    decreases candidates.len(),
{
    if candidates.len() == 0 || p.used >= budget {
    } else {
        let (id, at) = candidates[0];
        let rest = candidates.drop_first();
        let later = places.drop_first();
        let j = places[0];
        assert(ids[j] == id);
        assert forall|k: int| 0 <= k < later.len() implies j + 1 <= #[trigger] later[k] < ids.len()
            && ids[later[k]] == rest[k].0 by {
            assert(later[k] == places[k + 1]);
            assert(places[0] < places[k + 1]);
        }
        assert(in_places(rest, later, ids, j + 1));
        let tried = p.try_decode(id, at);
        lemma_runs_at(p.running, ids, j);
        lemma_served_one(p, ids, id, at, j, base, low);
        if !p.is_stuck(id) {
            lemma_served(tried, ids, rest, later, budget, base, j + 1);
        } else {
            let e = tried.evict();
            assert(ids_of(e.running) =~= ids.take(e.running.len() as int)) by {
                assert forall|i: int| 0 <= i < e.running.len() implies ids_of(e.running)[i]
                    == ids[i] by {
                    assert(ids_of(p.running)[i] == p.running[i].id);
                }
            }
            assert(serves(e.scheduled, base, ids, e.running.len() as int)) by {
                assert forall|x: int| base <= x < e.scheduled.len() implies among(
                    ids,
                    e.running.len() as int,
                    (#[trigger] e.scheduled[x]).id,
                ) by {
                    assert(among(ids, low, p.scheduled[x].id));
                }
            }
            lemma_served_one(e, ids, id, at, j, base, low);
            lemma_served(e.try_decode(id, at), ids, rest, later, budget, base, j + 1);
        }
    }
}

/// One candidate's token, at a place after those that were served.
proof fn lemma_served_one<C: KvCacheManagerLike>(
    p: Pass<C>,
    ids: Seq<SequenceId>,
    id: SequenceId,
    at: usize,
    j: int,
    base: int,
    low: int,
)
    requires
        ids.no_duplicates(),
        p.running.len() <= ids.len(),
        ids_of(p.running) == ids.take(p.running.len() as int),
        0 <= low <= j < ids.len(),
        ids[j] == id,
        0 <= base <= p.scheduled.len(),
        serves(p.scheduled, base, ids, low),
        serves(p.scheduled, base, ids, p.running.len() as int),
    ensures
        p.try_decode(id, at).running.len() == p.running.len(),
        ids_of(p.try_decode(id, at).running) == ids_of(p.running),
        base <= p.try_decode(id, at).scheduled.len(),
        serves(p.try_decode(id, at).scheduled, base, ids, j + 1),
        serves(p.try_decode(id, at).scheduled, base, ids, p.running.len() as int),
{
    let q = p.try_decode(id, at);
    lemma_runs_at(p.running, ids, j);
    lemma_caught_up(p.running, id);
    let n = p.running.len() as int;
    assert forall|e: int| base <= e < q.scheduled.len() implies among(
        ids,
        j + 1,
        (#[trigger] q.scheduled[e]).id,
    ) && among(ids, n, q.scheduled[e].id) by {
        if e < p.scheduled.len() {
            assert(q.scheduled[e] == p.scheduled[e]);
            assert(among(ids, low, p.scheduled[e].id));
        } else {
            assert(ids[j] == q.scheduled[e].id);
        }
    }
}

/// The decoding part of a step evicts no sequence that it gave a token: room is
/// made by evicting newer sequences only, and one that was evicted gets no
/// token.
pub proof fn law_decoding_keeps_whom_it_serves<C: KvCacheManagerLike>(
    p: Pass<C>,
    budget: int,
    k: int,
)
    requires
        ids_of(p.running).no_duplicates(),
        p.scheduled.len() <= k < p.decode(decoders(p.running), budget).scheduled.len(),
    ensures
        queued(
            p.decode(decoders(p.running), budget).running,
            p.decode(decoders(p.running), budget).scheduled[k].id,
        ),
{
    let ids = ids_of(p.running);
    let q = p.decode(decoders(p.running), budget);
    lemma_decoder_places(p.running);
    assert(ids.take(p.running.len() as int) =~= ids);
    lemma_served(
        p,
        ids,
        decoders(p.running),
        decoder_places(p.running),
        budget,
        p.scheduled.len() as int,
        0,
    );
    assert(among(ids, q.running.len() as int, q.scheduled[k].id));
    let x = choose|x: int| 0 <= x < q.running.len() && ids[x] == q.scheduled[k].id;
    lemma_runs_at(q.running, ids, x);
}

} // verus!
