//! What a sequence hands to the model over its steps, and what its caller hears:
//! the tokens of a batch are the tokens of the histories, and every end is told
//! once, with what was asked and what was generated.

use crate::engine::{
    assembled, done_event, generated, reap_notices, sequence_ids_of, submitted, tableless,
    tables_present, timeout_notices, without, BatchModel, EngineModel, StreamEvent,
};
use crate::id::{SequenceId, TokenId};
use crate::kv_cache::manager::KvCacheManager;
use crate::scheduler::policy::{ScheduledSequence, SchedulerModel};
use crate::scheduler::queue::{finished, lemma_position, lemma_position_is, position, queued};
use crate::sequence::{FinishReason, SequenceModel};
use vstd::prelude::*;

verus! {

// ----- one entry of a batch -------------------------------------------------------

/// Whether a batch begins with another.
pub open spec fn begins_with(whole: BatchModel, front: BatchModel) -> bool {
    &&& front.tokens.len() <= whole.tokens.len()
    &&& front.positions.len() <= whole.positions.len()
    &&& front.sequence_ids.len() <= whole.sequence_ids.len()
    &&& front.counts.len() <= whole.counts.len()
    &&& front.context_lens.len() <= whole.context_lens.len()
    &&& front.block_tables.len() <= whole.block_tables.len()
    &&& forall|k: int| 0 <= k < front.tokens.len() ==> #[trigger] whole.tokens[k] == front.tokens[k]
    &&& forall|k: int|
        0 <= k < front.positions.len() ==> #[trigger] whole.positions[k] == front.positions[k]
    &&& forall|k: int|
        0 <= k < front.sequence_ids.len() ==> #[trigger] whole.sequence_ids[k]
            == front.sequence_ids[k]
    &&& forall|k: int| 0 <= k < front.counts.len() ==> #[trigger] whole.counts[k] == front.counts[k]
    &&& forall|k: int|
        0 <= k < front.context_lens.len() ==> #[trigger] whole.context_lens[k]
            == front.context_lens[k]
    &&& forall|k: int|
        0 <= k < front.block_tables.len() ==> #[trigger] whole.block_tables[k]
            == front.block_tables[k]
    &&& front.has_prefill ==> whole.has_prefill
}

/// Later entries leave what stands before them.
proof fn lemma_batches_grow(
    m: SchedulerModel<KvCacheManager>,
    batch: Seq<ScheduledSequence>,
    i: int,
)
    requires
        0 <= i <= batch.len(),
    ensures
        begins_with(assembled(m, batch), assembled(m, batch.take(i))),
    decreases batch.len(),
{
    if i == batch.len() {
        assert(batch.take(i) =~= batch);
    } else {
        let front = batch.drop_last();
        lemma_batches_grow(m, front, i);
        assert(front.take(i) =~= batch.take(i));
    }
}

/// The parts of a batch have one entry for each of its sequences, and one
/// position for each of its tokens.
proof fn lemma_parts_agree(m: SchedulerModel<KvCacheManager>, batch: Seq<ScheduledSequence>)
    ensures
        ({
            let b = assembled(m, batch);
            let n = b.sequence_ids.len();
            &&& b.counts.len() == n
            &&& b.context_lens.len() == n
            &&& b.block_tables.len() == n
            &&& b.positions.len() == b.tokens.len()
        }),
    decreases batch.len(),
{
    if batch.len() > 0 {
        lemma_parts_agree(m, batch.drop_last());
    }
}

/// A decoding sequence puts one token into the batch: the last of its prompt and
/// output, or, where it has to compute an earlier one again, that one. The entry
/// carries the sequence's id and blocks, and the token its position.
pub proof fn law_a_decoder_submits_its_newest_token(
    m: SchedulerModel<KvCacheManager>,
    batch: Seq<ScheduledSequence>,
    i: int,
    p: int,
)
    requires
        0 <= i < batch.len(),
        !batch[i].is_prefill,
        batch[i].start_position < usize::MAX,
        0 <= p < m.running.len(),
        m.running[p].id == batch[i].id,
        forall|k: int| 0 <= k < p ==> (#[trigger] m.running[k]).id != batch[i].id,
        m.running[p].prompt.len() + m.running[p].output.len() > 0,
    ensures
        ({
            let e = batch[i];
            let history = m.running[p].prompt + m.running[p].output;
            let before = assembled(m, batch.take(i));
            let b = assembled(m, batch);
            let off = before.tokens.len() as int;
            let j = before.sequence_ids.len() as int;
            &&& j < b.sequence_ids.len() && off < b.tokens.len()
            &&& b.sequence_ids[j] == e.id
            &&& b.counts[j] == 1
            &&& b.context_lens[j] == e.start_position + 1
            &&& b.positions[off] == e.start_position as u32
            &&& b.block_tables[j].len() == m.cache.tables[e.id@].blocks.len()
            &&& forall|k: int|
                0 <= k < b.block_tables[j].len() ==> #[trigger] b.block_tables[j][k]
                    == m.cache.tables[e.id@].blocks[k].0
            &&& e.start_position >= history.len() ==> b.tokens[off] == history[history.len() - 1]
            &&& e.start_position < history.len() ==> b.tokens[off]
                == history[e.start_position as int]
        }),
{
    let e = batch[i];
    let s = m.running[p];
    let history = s.prompt + s.output;
    lemma_position_is(m.running, e.id, p);
    assert(batch.take(i + 1).drop_last() =~= batch.take(i));
    lemma_batches_grow(m, batch, i + 1);
    lemma_parts_agree(m, batch.take(i));
    let before = assembled(m, batch.take(i));
    let now = assembled(m, batch.take(i + 1));
    let tokens = submitted(s, e);
    assert(tokens.len() == 1);
    assert(now == before.with(
        e,
        tokens,
        m.cache.tables[e.id@].blocks.map_values(|b: crate::id::BlockId| b.0),
    ));
    assert(now.tokens[before.tokens.len() as int] == tokens[0]);
    assert(now.positions[before.positions.len() as int] == e.start_position as u32);
    assert(now.sequence_ids[before.sequence_ids.len() as int] == e.id);
    assert(now.counts[before.counts.len() as int] == 1);
    assert(now.context_lens[before.context_lens.len() as int] == e.start_position + 1);
    if e.start_position >= history.len() {
        if s.output.len() > 0 {
            assert(history[history.len() - 1] == s.output.last());
        } else {
            assert(history =~= s.prompt);
        }
    }
}

/// A chunk of prefill puts its part of the prompt and output into the batch, each
/// token at its place in them.
pub proof fn law_a_chunk_submits_its_part_of_the_history(
    m: SchedulerModel<KvCacheManager>,
    batch: Seq<ScheduledSequence>,
    i: int,
    p: int,
)
    requires
        0 <= i < batch.len(),
        batch[i].is_prefill,
        0 <= p < m.running.len(),
        m.running[p].id == batch[i].id,
        forall|k: int| 0 <= k < p ==> (#[trigger] m.running[k]).id != batch[i].id,
        m.running[p].wf(),
        batch[i].num_tokens > 0,
        batch[i].start_position + batch[i].num_tokens <= m.running[p].span,
    ensures
        ({
            let e = batch[i];
            let n = e.num_tokens as int;
            let history = m.running[p].prompt + m.running[p].output;
            let before = assembled(m, batch.take(i));
            let b = assembled(m, batch);
            let off = before.tokens.len() as int;
            let j = before.sequence_ids.len() as int;
            &&& j < b.sequence_ids.len() && off + n <= b.tokens.len()
            &&& b.sequence_ids[j] == e.id
            &&& b.counts[j] == n
            &&& b.context_lens[j] == e.start_position + n
            &&& b.has_prefill
            &&& b.block_tables[j].len() == m.cache.tables[e.id@].blocks.len()
            &&& forall|k: int|
                0 <= k < b.block_tables[j].len() ==> #[trigger] b.block_tables[j][k]
                    == m.cache.tables[e.id@].blocks[k].0
            &&& b.tokens.subrange(off, off + n) == history.subrange(
                e.start_position as int,
                e.start_position + n,
            )
            &&& forall|k: int|
                0 <= k < n ==> #[trigger] b.positions[off + k] == (e.start_position + k) as u32
        }),
{
    let e = batch[i];
    let n = e.num_tokens as int;
    let s = m.running[p];
    let history = s.prompt + s.output;
    lemma_position_is(m.running, e.id, p);
    assert(batch.take(i + 1).drop_last() =~= batch.take(i));
    lemma_batches_grow(m, batch, i + 1);
    lemma_parts_agree(m, batch.take(i));
    let before = assembled(m, batch.take(i));
    let now = assembled(m, batch.take(i + 1));
    let b = assembled(m, batch);
    let off = before.tokens.len() as int;
    let tokens = submitted(s, e);
    assert(tokens =~= history.subrange(e.start_position as int, e.start_position + n));
    assert(now == before.with(
        e,
        tokens,
        m.cache.tables[e.id@].blocks.map_values(|b: crate::id::BlockId| b.0),
    ));
    assert(now.sequence_ids[before.sequence_ids.len() as int] == e.id);
    assert(now.counts[before.counts.len() as int] == n);
    assert(now.context_lens[before.context_lens.len() as int] == e.start_position + n);
    assert forall|k: int| 0 <= k < n implies #[trigger] b.positions[off + k] == (e.start_position
        + k) as u32 by {
        assert(now.positions[off + k] == (e.start_position + k) as u32);
    }
    assert forall|k: int| 0 <= k < n implies #[trigger] b.tokens[off + k] == tokens[k] by {
        assert(now.tokens[off + k] == tokens[k]);
    }
    assert(b.tokens.subrange(off, off + n) =~= tokens);
}

/// An entry whose sequence does not run any more adds nothing, and a batch has
/// prefill work only from an entry that is prefill work.
pub proof fn law_only_running_sequences_are_batched(
    m: SchedulerModel<KvCacheManager>,
    batch: Seq<ScheduledSequence>,
)
    ensures
        batch.len() == 0 ==> assembled(m, batch).tokens.len() == 0 && !assembled(
            m,
            batch,
        ).has_prefill,
        batch.len() > 0 && (forall|k: int|
            0 <= k < m.running.len() ==> (#[trigger] m.running[k]).id != batch.last().id)
            ==> assembled(m, batch) == assembled(m, batch.drop_last()),
        assembled(m, batch).has_prefill ==> exists|i: int|
            0 <= i < batch.len() && (#[trigger] batch[i]).is_prefill,
    decreases batch.len(),
{
    if batch.len() > 0 {
        let front = batch.drop_last();
        law_only_running_sequences_are_batched(m, front);
        lemma_position(m.running, batch.last().id);
        if queued(m.running, batch.last().id) {
            assert(m.running[position(m.running, batch.last().id)].id == batch.last().id);
        }
        if assembled(m, batch).has_prefill {
            if assembled(m, front).has_prefill {
                let i = choose|i: int| 0 <= i < front.len() && (#[trigger] front[i]).is_prefill;
                assert(batch[i].is_prefill);
            } else {
                assert(batch[batch.len() - 1].is_prefill);
            }
        }
    }
}

// ----- the steps of one sequence --------------------------------------------------

/// One turn of a sequence at the model.
pub ghost enum Turn {
    /// A chunk of what is prefilled in chunks.
    Chunk { tokens: int },
    /// One generated token that has to be computed again.
    Again,
    /// A newly sampled token.
    Next { token: TokenId, now: u64 },
}

/// Whether it is that kind of turn's time.
pub open spec fn due(s: SequenceModel, turn: Turn) -> bool {
    match turn {
        Turn::Chunk { tokens } => 0 < tokens <= s.span - s.computed,
        Turn::Again => s.span <= s.computed < s.target,
        Turn::Next { .. } => s.computed == s.target,
    }
}

/// The sequence after a turn.
pub open spec fn taken(s: SequenceModel, turn: Turn) -> SequenceModel {
    match turn {
        Turn::Chunk { tokens } => s.prefilled(tokens),
        Turn::Again => s.prefilled(1),
        Turn::Next { token, now } => s.grown(token, now),
    }
}

/// How the turn is scheduled.
pub open spec fn entry(s: SequenceModel, turn: Turn) -> ScheduledSequence {
    match turn {
        Turn::Chunk { tokens } => ScheduledSequence {
            id: s.id,
            num_tokens: tokens as usize,
            start_position: s.computed as usize,
            is_prefill: true,
        },
        Turn::Again => ScheduledSequence {
            id: s.id,
            num_tokens: 1,
            start_position: s.computed as usize,
            is_prefill: false,
        },
        Turn::Next { token, now } => ScheduledSequence {
            id: s.id,
            num_tokens: 1,
            start_position: (s.prompt.len() + s.output.len() + 1) as usize,
            is_prefill: false,
        },
    }
}

/// The sequence after the first `n` turns.
pub open spec fn after_turns(s: SequenceModel, turns: Seq<Turn>, n: int) -> SequenceModel
    decreases n,
{
    if n <= 0 {
        s
    } else {
        taken(after_turns(s, turns, n - 1), turns[n - 1])
    }
}

/// All tokens that the sequence submitted in the first `n` turns, in order.
pub open spec fn submissions(s: SequenceModel, turns: Seq<Turn>, n: int) -> Seq<TokenId>
    decreases n,
{
    if n <= 0 {
        seq![]
    } else {
        let before = after_turns(s, turns, n - 1);
        let turn = turns[n - 1];
        submissions(s, turns, n - 1) + submitted(taken(before, turn), entry(before, turn))
    }
}

/// Whether `all` are the tokens that a sequence, which was `s` at first and is `t`
/// now, has got through so far.
spec fn on_course(s: SequenceModel, t: SequenceModel, all: Seq<TokenId>) -> bool {
    &&& t.computed < t.target ==> all == (t.prompt + t.output).take(t.computed) && t.output
        == s.output
    &&& t.computed == t.target ==> all == t.prompt + t.output
    &&& 0 <= t.computed <= t.target
    &&& t.prompt == s.prompt
    &&& t.target == s.target
    &&& t.span == s.span
    &&& s.prompt.len() <= s.span <= s.target
    &&& s.target == s.prompt.len() + s.output.len()
    &&& s.output.len() <= t.output.len()
}

proof fn lemma_chunk_on_course(s: SequenceModel, t: SequenceModel, all: Seq<TokenId>, tokens: int)
    requires
        on_course(s, t, all),
        0 < tokens <= t.span - t.computed,
        t.target < usize::MAX,
    ensures
        ({
            let turn = Turn::Chunk { tokens };
            on_course(s, taken(t, turn), all + submitted(taken(t, turn), entry(t, turn)))
        }),
{
    let turn = Turn::Chunk { tokens };
    let u = taken(t, turn);
    let history = t.prompt + t.output;
    let more = submitted(u, entry(t, turn));
    assert(u.opening() =~= history.take(t.span));
    assert(more =~= history.subrange(t.computed, t.computed + tokens));
    assert(all + more =~= history.take(t.computed + tokens));
    if u.computed == u.target {
        assert(history.take(u.computed) =~= history);
    }
}

proof fn lemma_again_on_course(s: SequenceModel, t: SequenceModel, all: Seq<TokenId>)
    requires
        on_course(s, t, all),
        t.span <= t.computed < t.target,
        t.target < usize::MAX,
    ensures
        on_course(
            s,
            taken(t, Turn::Again),
            all + submitted(taken(t, Turn::Again), entry(t, Turn::Again)),
        ),
{
    let u = taken(t, Turn::Again);
    let history = t.prompt + t.output;
    let more = submitted(u, entry(t, Turn::Again));
    assert(more =~= seq![history[t.computed]]);
    assert(all + more =~= history.take(t.computed + 1));
    if u.computed == u.target {
        assert(history.take(u.computed) =~= history);
    }
}

proof fn lemma_next_on_course(
    s: SequenceModel,
    t: SequenceModel,
    all: Seq<TokenId>,
    token: TokenId,
    now: u64,
)
    requires
        on_course(s, t, all),
        t.computed == t.target,
        t.prompt.len() + t.output.len() + 1 < usize::MAX,
    ensures
        ({
            let turn = Turn::Next { token, now };
            on_course(s, taken(t, turn), all + submitted(taken(t, turn), entry(t, turn)))
        }),
{
    let turn = Turn::Next { token, now };
    let u = taken(t, turn);
    let more = submitted(u, entry(t, turn));
    assert(u.output.last() == token);
    assert(more =~= seq![token]);
    assert(all + more =~= u.prompt + u.output);
}

proof fn lemma_turns_on_course(s: SequenceModel, turns: Seq<Turn>, n: int)
    requires
        s.wf(),
        s.computed == 0,
        s.target == s.prompt.len() + s.output.len(),
        0 <= n <= turns.len(),
        s.prompt.len() + s.output.len() + turns.len() < usize::MAX,
        forall|i: int|
            0 <= i < turns.len() ==> due(after_turns(s, turns, i), #[trigger] turns[i]),
    ensures
        on_course(s, after_turns(s, turns, n), submissions(s, turns, n)),
        after_turns(s, turns, n).output.len() <= s.output.len() + n,
    decreases n,
{
    if n > 0 {
        lemma_turns_on_course(s, turns, n - 1);
        let t = after_turns(s, turns, n - 1);
        let all = submissions(s, turns, n - 1);
        assert(due(t, turns[n - 1]));
        match turns[n - 1] {
            Turn::Chunk { tokens } => lemma_chunk_on_course(s, t, all, tokens),
            Turn::Again => lemma_again_on_course(s, t, all),
            Turn::Next { token, now } => lemma_next_on_course(s, t, all, token, now),
        }
    } else {
        assert((s.prompt + s.output).take(0) =~= seq![]);
        if s.target == 0 {
            assert(s.prompt + s.output =~= seq![]);
        }
    }
}

/// Whatever a sequence's turns are, the tokens it submitted, in order, are its
/// prompt and output from the first on: none is left out, none comes twice, and
/// once its prefill is done each turn submits the token that was sampled last.
pub proof fn law_submissions_are_the_history(s: SequenceModel, turns: Seq<Turn>, n: int)
    requires
        s.wf(),
        s.computed == 0,
        s.target == s.prompt.len() + s.output.len(),
        0 <= n <= turns.len(),
        s.prompt.len() + s.output.len() + turns.len() < usize::MAX,
        forall|i: int|
            0 <= i < turns.len() ==> due(after_turns(s, turns, i), #[trigger] turns[i]),
    ensures
        ({
            let t = after_turns(s, turns, n);
            let all = submissions(s, turns, n);
            &&& t.computed < t.target ==> all == (t.prompt + t.output).take(t.computed)
            &&& t.computed == t.target ==> all == t.prompt + t.output
            &&& t.computed <= t.target
            &&& t.prompt == s.prompt
        }),
{
    lemma_turns_on_course(s, turns, n);
}

// ----- who is told what -----------------------------------------------------------

/// Whether an id is among those given.
pub open spec fn among(ids: Seq<SequenceId>, id: u64) -> bool {
    exists|i: int| 0 <= i < ids.len() && (#[trigger] ids[i])@ == id
}

/// Whoever is not among the given ids is listened for as before; whoever is, is
/// not.
pub proof fn law_only_the_given_are_dropped(
    active: Map<u64, usize>,
    ids: Seq<SequenceId>,
    id: u64,
)
    ensures
        without(active, ids).contains_key(id) <==> active.contains_key(id) && !among(ids, id),
        without(active, ids).contains_key(id) ==> without(active, ids)[id] == active[id],
    decreases ids.len(),
{
    if ids.len() > 0 {
        let front = ids.drop_last();
        law_only_the_given_are_dropped(active, front, id);
        if among(front, id) {
            let i = choose|i: int| 0 <= i < front.len() && (#[trigger] front[i])@ == id;
            assert(ids[i]@ == id);
        }
        if among(ids, id) {
            let i = choose|i: int| 0 <= i < ids.len() && (#[trigger] ids[i])@ == id;
            if i < front.len() {
                assert(front[i]@ == id);
            }
        }
        if ids.last()@ == id {
            assert(ids[ids.len() - 1]@ == id);
        }
    }
}

/// Every retired sequence whose caller listens is announced, for its own reason,
/// with the length of its prompt and of what it generated.
pub proof fn law_the_retired_are_announced(
    active: Map<u64, usize>,
    done: Seq<SequenceModel>,
    i: int,
) -> (k: int)
    requires
        0 <= i < done.len(),
        active.contains_key(done[i].id@),
        forall|j: int| 0 <= j < i ==> (#[trigger] done[j]).id@ != done[i].id@,
        done[i].finish_reason is Some,
        done[i].output.len() <= usize::MAX,
    ensures
        0 <= k < reap_notices(active, done).len(),
        reap_notices(active, done)[k].0 == done[i].id,
        reap_notices(active, done)[k].1 == (StreamEvent::Done {
            reason: done[i].finish_reason->0,
            prompt_tokens: active[done[i].id@],
            completion_tokens: done[i].output.len() as usize,
        }),
    decreases done.len(),
{
    let front = done.drop_last();
    if i < front.len() {
        assert forall|j: int| 0 <= j < i implies (#[trigger] front[j]).id@ != front[i].id@ by {
            assert(front[j] == done[j]);
        }
        law_the_retired_are_announced(active, front, i)
    } else {
        let ids = sequence_ids_of(front);
        law_only_the_given_are_dropped(active, ids, done[i].id@);
        if among(ids, done[i].id@) {
            let j = choose|j: int| 0 <= j < ids.len() && (#[trigger] ids[j])@ == done[i].id@;
            assert(done[j].id@ == done[i].id@);
        }
        reap_notices(active, front).len() as int
    }
}

/// Nobody is announced as retired but a retired sequence whose caller listens.
pub proof fn law_only_the_retired_are_announced(
    active: Map<u64, usize>,
    done: Seq<SequenceModel>,
    k: int,
) -> (i: int)
    requires
        0 <= k < reap_notices(active, done).len(),
    ensures
        0 <= i < done.len(),
        reap_notices(active, done)[k].0 == done[i].id,
        active.contains_key(done[i].id@),
        reap_notices(active, done)[k].1 is Done,
    decreases done.len(),
{
    let front = done.drop_last();
    if k < reap_notices(active, front).len() {
        let i = law_only_the_retired_are_announced(active, front, k);
        assert(front[i] == done[i]);
        i
    } else {
        law_only_the_given_are_dropped(active, sequence_ids_of(front), done.last().id@);
        done.len() - 1
    }
}

/// Every timed-out request whose caller listens is announced, as timed out, with
/// the length of its prompt and of what it generated while it ran.
pub proof fn law_the_timed_out_are_announced(
    active: Map<u64, usize>,
    running: Seq<SequenceModel>,
    ids: Seq<SequenceId>,
    i: int,
) -> (k: int)
    requires
        0 <= i < ids.len(),
        active.contains_key(ids[i]@),
        forall|j: int| 0 <= j < i ==> (#[trigger] ids[j])@ != ids[i]@,
    ensures
        0 <= k < timeout_notices(active, running, ids).len(),
        timeout_notices(active, running, ids)[k].0 == ids[i],
        timeout_notices(active, running, ids)[k].1 matches StreamEvent::Done {
            reason,
            prompt_tokens,
            completion_tokens,
        } && reason is Timeout && prompt_tokens == active[ids[i]@] && completion_tokens
            == generated(running, ids[i]),
    decreases ids.len(),
{
    let front = ids.drop_last();
    if i < front.len() {
        assert forall|j: int| 0 <= j < i implies (#[trigger] front[j])@ != front[i]@ by {
            assert(front[j] == ids[j]);
        }
        law_the_timed_out_are_announced(active, running, front, i)
    } else {
        law_only_the_given_are_dropped(active, front, ids[i]@);
        if among(front, ids[i]@) {
            let j = choose|j: int| 0 <= j < front.len() && (#[trigger] front[j])@ == ids[i]@;
            assert(ids[j]@ == ids[i]@);
        }
        timeout_notices(active, running, front).len() as int
    }
}

/// What is reported as generated is the length of the running sequence's output,
/// and nothing where none runs.
pub proof fn law_generated_is_the_output_length(
    running: Seq<SequenceModel>,
    id: SequenceId,
    p: int,
)
    ensures
        0 <= p < running.len() && running[p].id == id && (forall|k: int|
            0 <= k < p ==> (#[trigger] running[k]).id != id) && running[p].output.len()
            <= usize::MAX ==> generated(running, id) == running[p].output.len(),
        (forall|k: int| 0 <= k < running.len() ==> (#[trigger] running[k]).id != id)
            ==> generated(running, id) == 0,
{
    lemma_position(running, id);
    if 0 <= p < running.len() && running[p].id == id && (forall|k: int|
        0 <= k < p ==> (#[trigger] running[k]).id != id) {
        lemma_position_is(running, id, p);
    }
    if queued(running, id) {
        assert(running[position(running, id)].id == id);
    }
}

/// A token is of use exactly for a sequence that runs with all of its prefill
/// done, has not ended, and is listened for.
pub proof fn law_tokens_are_taken_where_they_are_of_use(m: EngineModel, id: SequenceId, p: int)
    requires
        0 <= p < m.scheduler.running.len(),
        m.scheduler.running[p].id == id,
        forall|k: int| 0 <= k < p ==> (#[trigger] m.scheduler.running[k]).id != id,
    ensures
        m.takes_token(id) <==> {
            &&& m.scheduler.running[p].computed == m.scheduler.running[p].target
            &&& !(m.scheduler.running[p].state is Finished)
            &&& m.active.contains_key(id@)
        },
{
    lemma_position_is(m.scheduler.running, id, p);
}

/// After a round of retiring or of deadlines the engine listens for exactly those
/// it listened for and that did not end, and has forgotten nothing else.
pub proof fn law_ended_requests_are_not_listened_for(m: EngineModel, now: u64, id: u64)
    ensures
        m.reaped().active.contains_key(id) <==> m.active.contains_key(id) && !among(
            sequence_ids_of(finished(m.scheduler.running)),
            id,
        ),
        m.reaped().scheduler == m.scheduler.reaped(),
        m.reaped().eos == m.eos,
        m.reaped().upcoming == m.upcoming,
        m.expired(now).active.contains_key(id) <==> m.active.contains_key(id) && !among(
            m.scheduler.expired_ids(now),
            id,
        ),
        m.expired(now).scheduler == m.scheduler.expired(now),
        m.expired(now).eos == m.eos,
        m.expired(now).upcoming == m.upcoming,
{
    law_only_the_given_are_dropped(
        m.active,
        sequence_ids_of(finished(m.scheduler.running)),
        id,
    );
    law_only_the_given_are_dropped(m.active, m.scheduler.expired_ids(now), id);
}

/// A step publishes for its prefill entries, one after the other, and for no
/// decode entry; it changes nothing else of the engine.
pub proof fn law_prefill_entries_are_published(
    m: EngineModel,
    batch: Seq<ScheduledSequence>,
    e: ScheduledSequence,
)
    ensures
        batch.len() == 0 ==> m.committing(batch) == m,
        e.is_prefill ==> m.committing(batch.push(e)).scheduler == m.committing(
            batch,
        ).scheduler.committing(e.id),
        !e.is_prefill ==> m.committing(batch.push(e)) == m.committing(batch),
        m.committing(batch).active == m.active,
        m.committing(batch).eos == m.eos,
        m.committing(batch).scheduler.waiting == m.scheduler.waiting,
        m.committing(batch).scheduler.running == m.scheduler.running,
    decreases batch.len(),
{
    assert(batch.push(e).drop_last() =~= batch);
    if batch.len() > 0 {
        law_prefill_entries_are_published(m, batch.drop_last(), e);
    }
}

/// The end of a request is told with its reason, the length of its prompt and the
/// number of tokens generated.
pub proof fn law_ends_are_told_in_full(reason: FinishReason, prompt: usize, completion: usize)
    ensures
        done_event(reason, prompt, completion) == (StreamEvent::Done {
            reason,
            prompt_tokens: prompt,
            completion_tokens: completion,
        }),
{
}

/// A batch is refused for the first entry whose sequence runs without a block table,
/// and accepted where every entry that runs has one.
pub proof fn law_running_entries_need_a_table(
    m: SchedulerModel<KvCacheManager>,
    batch: Seq<ScheduledSequence>,
    i: int,
)
    ensures
        tables_present(m, batch) && 0 <= i < batch.len() && queued(m.running, batch[i].id)
            ==> m.cache.tables.contains_key(batch[i].id@),
        tableless(m, batch, i) ==> !tables_present(m, batch),
        tableless(m, batch, i) ==> 0 <= i < batch.len() && !m.cache.tables.contains_key(
            batch[i].id@,
        ) && forall|k: int|
            0 <= k < i && queued(m.running, (#[trigger] batch[k]).id) ==> m.cache.tables.contains_key(
                batch[k].id@,
            ),
{
    if tableless(m, batch, i) {
        assert forall|k: int|
            0 <= k < i && queued(m.running, (#[trigger] batch[k]).id) implies m.cache.tables.contains_key(
            batch[k].id@,
        ) by {
            assert(batch.take(i)[k] == batch[k]);
        }
        assert(batch[i] == batch[i]);
    }
}

} // verus!
