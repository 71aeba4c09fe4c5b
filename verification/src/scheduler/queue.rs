//! The waiting and running queues.
//!
//! They exist as named types because the scheduler's fairness properties are
//! properties of these orderings.

use crate::id::SequenceId;
use crate::scheduler::driver::is_overdue;
use crate::scheduler::policy::{ids_of, overdue, overdue_of};
use crate::sequence::{FinishReason, Sequence, SequenceModel};
use std::collections::VecDeque;
use vstd::prelude::*;

verus! {

/// The position of the first sequence with that id, or the length where there
/// is none.
pub open spec fn position(queue: Seq<SequenceModel>, id: SequenceId) -> int
    decreases queue.len(),
{
    if queue.len() == 0 || queue[0].id == id {
        0
    } else {
        1 + position(queue.drop_first(), id)
    }
}

/// Whether a sequence with that id is in the queue.
pub open spec fn queued(queue: Seq<SequenceModel>, id: SequenceId) -> bool {
    position(queue, id) < queue.len()
}

/// [`position`] is the first place with the id.
pub proof fn lemma_position(queue: Seq<SequenceModel>, id: SequenceId)
    ensures
        0 <= position(queue, id) <= queue.len(),
        position(queue, id) < queue.len() ==> queue[position(queue, id)].id == id,
        forall|i: int| 0 <= i < position(queue, id) ==> (#[trigger] queue[i]).id != id,
    decreases queue.len(),
{
    if queue.len() > 0 && queue[0].id != id {
        let rest = queue.drop_first();
        lemma_position(rest, id);
        assert forall|i: int| 0 <= i < position(queue, id) implies (#[trigger] queue[i]).id
            != id by {
            if i > 0 {
                assert(rest[i - 1] == queue[i]);
            }
        }
    }
}

/// A place with the id before which the id does not occur is its position.
pub proof fn lemma_position_is(queue: Seq<SequenceModel>, id: SequenceId, at: int)
    requires
        0 <= at <= queue.len(),
        at < queue.len() ==> queue[at].id == id,
        forall|i: int| 0 <= i < at ==> (#[trigger] queue[i]).id != id,
    ensures
        position(queue, id) == at,
{
    lemma_position(queue, id);
    let p = position(queue, id);
    if p < at {
        assert(queue[p].id == id);
    } else if at < p {
        assert(queue[at].id != id);
    }
}

/// The models of a run of sequences.
pub open spec fn models(items: Seq<Sequence>) -> Seq<SequenceModel> {
    items.map_values(|s: Sequence| s@)
}

/// Those elements of `queue` that are marked with `want`, in order.
pub open spec fn marked(queue: Seq<SequenceModel>, marks: Seq<bool>, want: bool) -> Seq<
    SequenceModel,
>
    decreases queue.len(),
{
    if queue.len() == 0 {
        seq![]
    } else {
        let front = marked(queue.drop_last(), marks.drop_last(), want);
        if marks.last() == want {
            front.push(queue.last())
        } else {
            front
        }
    }
}

/// FIFO queue of sequences awaiting their first schedule, or awaiting
/// rescheduling after preemption.
///
/// A preempted sequence goes to the front, not the back: it has already waited
/// once, so sending it to the back would let a steady arrival stream starve it.
#[derive(Debug)]
pub struct WaitingQueue {
    inner: VecDeque<Sequence>,
}

impl View for WaitingQueue {
    type V = Seq<SequenceModel>;

    closed spec fn view(&self) -> Seq<SequenceModel> {
        models(self.inner@)
    }
}

impl WaitingQueue {
    /// The sequences themselves, in order.
    pub closed spec fn items(&self) -> Seq<Sequence> {
        self.inner@
    }

    /// The view is that of the sequences.
    pub proof fn lemma_items(&self)
        ensures
            self@ == models(self.items()),
    {
    }

    pub fn new() -> (r: Self)
        ensures
            r@ == Seq::<SequenceModel>::empty(),
    {
        let r = WaitingQueue { inner: VecDeque::new() };
        proof {
            assert(r@ =~= Seq::<SequenceModel>::empty());
        }
        r
    }

    pub fn len(&self) -> (r: usize)
        ensures
            r == self@.len(),
    {
        self.inner.len()
    }

    pub fn is_empty(&self) -> (r: bool)
        ensures
            r == (self@.len() == 0),
    {
        self.inner.len() == 0
    }

    /// Enqueues a newly arrived sequence at the back.
    pub fn push_back(&mut self, seq: Sequence)
        ensures
            final(self)@ == old(self)@.push(seq@),
    {
        self.inner.push_back(seq);
        proof {
            assert(self@ =~= old(self)@.push(seq@));
        }
    }

    /// Re-enqueues a preempted sequence at the front, preserving its priority.
    pub fn push_front(&mut self, seq: Sequence)
        ensures
            final(self)@ == seq![seq@] + old(self)@,
    {
        self.inner.push_front(seq);
        proof {
            assert(self@ =~= seq![seq@] + old(self)@);
        }
    }

    /// Removes and returns the next sequence to consider.
    pub fn pop_front(&mut self) -> (r: Option<Sequence>)
        ensures
            match r {
                Some(s) => {
                    &&& old(self)@.len() > 0
                    &&& s@ == old(self)@[0]
                    &&& final(self)@ == old(self)@.drop_first()
                },
                None => old(self)@.len() == 0 && final(self)@ == old(self)@,
            },
    {
        let r = self.inner.pop_front();
        proof {
            if r is Some {
                assert(self@ =~= old(self)@.drop_first());
            }
        }
        r
    }

    /// Inspects the next sequence without removing it.
    pub fn peek(&self) -> (r: Option<&Sequence>)
        ensures
            match r {
                Some(s) => self@.len() > 0 && s@ == self@[0],
                None => self@.len() == 0,
            },
    {
        if self.inner.len() == 0 {
            None
        } else {
            Some(&self.inner[0])
        }
    }

    /// Removes a specific sequence, e.g. on client cancellation.
    pub fn remove(&mut self, id: SequenceId) -> (r: Option<Sequence>)
        ensures
            match r {
                Some(s) => {
                    &&& queued(old(self)@, id)
                    &&& s@ == old(self)@[position(old(self)@, id)]
                    &&& final(self)@ == old(self)@.remove(position(old(self)@, id))
                },
                None => !queued(old(self)@, id) && final(self)@ == old(self)@,
            },
    {
        let mut i: usize = 0;
        while i < self.inner.len()
            invariant
                i <= self.inner@.len(),
                self.inner@ == old(self).inner@,
                forall|k: int| 0 <= k < i ==> (#[trigger] old(self)@[k]).id != id,
            decreases self.inner@.len() - i,
        {
            if self.inner[i].id() == id {
                proof {
                    lemma_position_is(old(self)@, id, i as int);
                }
                let r = self.inner.remove(i);
                proof {
                    assert(self@ =~= old(self)@.remove(i as int));
                }
                return r;
            }
            i += 1;
        }
        proof {
            lemma_position_is(old(self)@, id, old(self)@.len() as int);
        }
        None
    }

    /// Removes and returns every sequence for which `pred` holds, preserving
    /// the order of those that remain.
    pub fn drain_where<F: Fn(&Sequence) -> bool>(&mut self, pred: F) -> (r: Vec<Sequence>)
        requires
            forall|i: int|
                0 <= i < old(self).items().len() ==> pred.requires(
                    (&#[trigger] old(self).items()[i],),
                ),
        ensures
            exists|marks: Seq<bool>|
                #![trigger marked(old(self)@, marks, true)]
                {
                    &&& marks.len() == old(self)@.len()
                    &&& forall|i: int|
                        0 <= i < marks.len() ==> pred.ensures(
                            (&#[trigger] old(self).items()[i],),
                            marks[i],
                        )
                    &&& models(r@) == marked(old(self)@, marks, true)
                    &&& final(self)@ == marked(old(self)@, marks, false)
                },
    {
        let ghost all = self.inner@;
        let ghost queue = self@;
        let mut removed: Vec<Sequence> = Vec::new();
        let mut kept: VecDeque<Sequence> = VecDeque::new();
        let ghost mut marks: Seq<bool> = seq![];
        let ghost mut k: int = 0;
        proof {
            assert(self.inner@ =~= all.skip(0));
            assert(models(removed@) =~= marked(queue.take(0), marks, true));
            assert(models(kept@) =~= marked(queue.take(0), marks, false));
        }
        loop
            invariant
                all == old(self).items(),
                queue == models(all),
                0 <= k <= all.len(),
                marks.len() == k,
                self.inner@ == all.skip(k),
                forall|i: int|
                    0 <= i < all.len() ==> pred.requires((&#[trigger] old(self).items()[i],)),
                forall|i: int|
                    0 <= i < k ==> pred.ensures((&#[trigger] old(self).items()[i],), marks[i]),
                models(removed@) == marked(queue.take(k), marks, true),
                models(kept@) == marked(queue.take(k), marks, false),
            ensures
                k == all.len(),
            decreases all.len() - k,
        {
            match self.inner.pop_front() {
                None => {
                    break;
                },
                Some(seq) => {
                    let ghost item = seq;
                    assert(seq == old(self).items()[k]);
                    let hit: bool = pred(&seq);
                    let ghost r0 = removed@;
                    let ghost k0 = kept@;
                    if hit {
                        removed.push(seq);
                    } else {
                        kept.push_back(seq);
                    }
                    proof {
                        let now = queue.take(k + 1);
                        let m = marks.push(hit);
                        assert(now.drop_last() =~= queue.take(k));
                        assert(m.drop_last() =~= marks);
                        assert(now.last() == item@);
                        if hit {
                            assert(models(removed@) =~= models(r0).push(item@));
                        } else {
                            assert(models(kept@) =~= models(k0).push(item@));
                        }
                        assert(self.inner@ =~= all.skip(k + 1));
                        marks = m;
                        k = k + 1;
                    }
                },
            }
        }
        self.inner = kept;
        proof {
            assert(queue.take(k) =~= queue);
        }
        removed
    }

    /// The queued sequences, in order.
    pub fn iter(&self) -> (r: Vec<&Sequence>)
        ensures
            r@.len() == self@.len(),
            forall|i: int| 0 <= i < r@.len() ==> (#[trigger] r@[i])@ == self@[i],
    {
        let mut out: Vec<&Sequence> = Vec::new();
        let mut i: usize = 0;
        while i < self.inner.len()
            invariant
                i <= self.inner@.len(),
                out@.len() == i,
                forall|k: int| 0 <= k < i ==> (#[trigger] out@[k])@ == self@[k],
            decreases self.inner@.len() - i,
        {
            out.push(&self.inner[i]);
            i += 1;
        }
        out
    }
}

/// The set of sequences currently holding KV blocks and a batch slot.
///
/// Insertion order is preserved, so a sequence does not lose or gain priority
/// merely by having been stepped.
#[derive(Debug)]
pub struct RunningQueue {
    inner: Vec<Sequence>,
}

impl View for RunningQueue {
    type V = Seq<SequenceModel>;

    closed spec fn view(&self) -> Seq<SequenceModel> {
        models(self.inner@)
    }
}

/// The number of tokens that a run of sequences holds.
pub open spec fn tokens_held(queue: Seq<SequenceModel>) -> int
    decreases queue.len(),
{
    if queue.len() == 0 {
        0
    } else {
        tokens_held(queue.drop_last()) + queue.last().total()
    }
}

proof fn lemma_tokens_held(queue: Seq<SequenceModel>, i: int)
    requires
        0 <= i <= queue.len(),
    ensures
        0 <= tokens_held(queue.take(i)) <= tokens_held(queue),
    decreases queue.len(),
{
    if i < queue.len() {
        lemma_tokens_held(queue.drop_last(), i);
        assert(queue.drop_last().take(i) =~= queue.take(i));
    } else {
        assert(queue.take(i) =~= queue);
        if queue.len() > 0 {
            lemma_tokens_held(queue.drop_last(), queue.len() - 1);
            assert(queue.drop_last().take(queue.len() - 1) =~= queue.drop_last());
        }
    }
}

/// The finished sequences of a run, in order.
pub open spec fn finished(queue: Seq<SequenceModel>) -> Seq<SequenceModel> {
    queue.filter(|s: SequenceModel| s.state is Finished)
}

/// The sequences of a run that are not finished, in order.
pub open spec fn unfinished(queue: Seq<SequenceModel>) -> Seq<SequenceModel> {
    queue.filter(|s: SequenceModel| !(s.state is Finished))
}

/// One more sequence goes into one of the two.
pub proof fn lemma_finished_push(queue: Seq<SequenceModel>, s: SequenceModel)
    ensures
        finished(queue.push(s)) == if s.state is Finished {
            finished(queue).push(s)
        } else {
            finished(queue)
        },
        unfinished(queue.push(s)) == if s.state is Finished {
            unfinished(queue)
        } else {
            unfinished(queue).push(s)
        },
{
    reveal(Seq::filter);
    assert(queue.push(s).drop_last() =~= queue);
}

impl RunningQueue {
    pub fn new() -> (r: Self)
        ensures
            r@ == Seq::<SequenceModel>::empty(),
    {
        let r = RunningQueue { inner: Vec::new() };
        proof {
            assert(r@ =~= Seq::<SequenceModel>::empty());
        }
        r
    }

    pub fn len(&self) -> (r: usize)
        ensures
            r == self@.len(),
    {
        self.inner.len()
    }

    pub fn is_empty(&self) -> (r: bool)
        ensures
            r == (self@.len() == 0),
    {
        self.inner.len() == 0
    }

    pub fn push(&mut self, seq: Sequence)
        ensures
            final(self)@ == old(self)@.push(seq@),
    {
        self.inner.push(seq);
        proof {
            assert(self@ =~= old(self)@.push(seq@));
        }
    }

    /// The place of the first sequence with that id.
    fn find(&self, id: SequenceId) -> (r: Option<usize>)
        ensures
            match r {
                Some(i) => queued(self@, id) && i == position(self@, id),
                None => !queued(self@, id),
            },
    {
        let mut i: usize = 0;
        while i < self.inner.len()
            invariant
                i <= self.inner@.len(),
                forall|k: int| 0 <= k < i ==> (#[trigger] self@[k]).id != id,
            decreases self.inner@.len() - i,
        {
            if self.inner[i].id() == id {
                proof {
                    lemma_position_is(self@, id, i as int);
                }
                return Some(i);
            }
            i += 1;
        }
        proof {
            lemma_position_is(self@, id, self@.len() as int);
        }
        None
    }

    pub fn get(&self, id: SequenceId) -> (r: Option<&Sequence>)
        ensures
            match r {
                Some(s) => queued(self@, id) && s@ == self@[position(self@, id)],
                None => !queued(self@, id),
            },
    {
        match self.find(id) {
            Some(i) => {
                proof {
                    lemma_position(self@, id);
                }
                Some(&self.inner[i])
            },
            None => None,
        }
    }

    pub fn get_mut(&mut self, id: SequenceId) -> (r: Option<&mut Sequence>)
        ensures
            match r {
                Some(s) => {
                    &&& queued(old(self)@, id)
                    &&& s@ == old(self)@[position(old(self)@, id)]
                    &&& final(self)@ == old(self)@.update(position(old(self)@, id), final(s)@)
                },
                None => !queued(old(self)@, id) && final(self)@ == old(self)@,
            },
    {
        match self.find(id) {
            Some(i) => {
                proof {
                    lemma_position(self@, id);
                }
                let ghost before = self@;
                let r = &mut self.inner[i];
                proof {
                    assert(models(after_borrow(self).inner@) =~= before.update(
                        i as int,
                        final(r)@,
                    ));
                }
                Some(r)
            },
            None => None,
        }
    }

    pub fn remove(&mut self, id: SequenceId) -> (r: Option<Sequence>)
        ensures
            match r {
                Some(s) => {
                    &&& queued(old(self)@, id)
                    &&& s@ == old(self)@[position(old(self)@, id)]
                    &&& final(self)@ == old(self)@.remove(position(old(self)@, id))
                },
                None => !queued(old(self)@, id) && final(self)@ == old(self)@,
            },
    {
        match self.find(id) {
            Some(i) => {
                proof {
                    lemma_position(self@, id);
                }
                let s = self.inner.remove(i);
                proof {
                    assert(self@ =~= old(self)@.remove(i as int));
                }
                Some(s)
            },
            None => None,
        }
    }

    /// Removes the most recently admitted sequence.
    ///
    /// This is the preemption victim policy: the newest sequence has generated
    /// the fewest tokens, so evicting it discards the least work.
    pub fn pop_newest(&mut self) -> (r: Option<Sequence>)
        ensures
            match r {
                Some(s) => {
                    &&& old(self)@.len() > 0
                    &&& s@ == old(self)@.last()
                    &&& final(self)@ == old(self)@.drop_last()
                },
                None => old(self)@.len() == 0 && final(self)@ == old(self)@,
            },
    {
        let r = self.inner.pop();
        proof {
            if r is Some {
                assert(self@ =~= old(self)@.drop_last());
            }
        }
        r
    }

    /// The running sequences, in order of admission.
    pub fn iter(&self) -> (r: Vec<&Sequence>)
        ensures
            r@.len() == self@.len(),
            forall|i: int| 0 <= i < r@.len() ==> (#[trigger] r@[i])@ == self@[i],
    {
        let mut out: Vec<&Sequence> = Vec::new();
        let mut i: usize = 0;
        while i < self.inner.len()
            invariant
                i <= self.inner@.len(),
                out@.len() == i,
                forall|k: int| 0 <= k < i ==> (#[trigger] out@[k])@ == self@[k],
            decreases self.inner@.len() - i,
        {
            out.push(&self.inner[i]);
            i += 1;
        }
        out
    }

    /// Finishes every sequence that is older than `limit_secs` seconds, and
    /// returns their ids.
    pub(crate) fn expire(&mut self, limit_secs: u64, now: u64) -> (r: Vec<SequenceId>)
        ensures
            r@ == ids_of(overdue_of(old(self)@, limit_secs, now)),
            final(self)@ == old(self)@.map_values(
                |s: SequenceModel|
                    if overdue(s, limit_secs, now) {
                        s.ended(FinishReason::Timeout, now)
                    } else {
                        s
                    },
            ),
    {
        let ghost all = self@;
        let mut ids: Vec<SequenceId> = Vec::new();
        let mut i: usize = 0;
        proof {
            reveal(Seq::filter);
            assert(ids@ =~= ids_of(overdue_of(all.take(0), limit_secs, now)));
        }
        while i < self.inner.len()
            invariant
                all == old(self)@,
                i <= self.inner@.len() == all.len(),
                ids@ == ids_of(overdue_of(all.take(i as int), limit_secs, now)),
                forall|k: int| i <= k < all.len() ==> #[trigger] self@[k] == all[k],
                forall|k: int|
                    0 <= k < i ==> #[trigger] self@[k] == if overdue(all[k], limit_secs, now) {
                        all[k].ended(FinishReason::Timeout, now)
                    } else {
                        all[k]
                    },
            decreases self.inner@.len() - i,
        {
            let ghost before = self@;
            proof {
                reveal(Seq::filter);
                assert(self@[i as int] == all[i as int]);
                assert(all.take(i + 1).drop_last() =~= all.take(i as int));
            }
            if is_overdue(&self.inner[i], limit_secs, now) {
                ids.push(self.inner[i].id());
                self.inner[i].finish(FinishReason::Timeout, now);
                proof {
                    assert(self@ =~= before.update(
                        i as int,
                        all[i as int].ended(FinishReason::Timeout, now),
                    ));
                    assert(ids@ =~= ids_of(overdue_of(all.take(i + 1), limit_secs, now)));
                }
            }
            i += 1;
        }
        proof {
            assert(all.take(all.len() as int) =~= all);
            assert(self@ =~= all.map_values(
                |s: SequenceModel|
                    if overdue(s, limit_secs, now) {
                        s.ended(FinishReason::Timeout, now)
                    } else {
                        s
                    },
            ));
        }
        ids
    }

    /// Removes and returns every finished sequence.
    pub fn take_finished(&mut self) -> (r: Vec<Sequence>)
        ensures
            models(r@) == finished(old(self)@),
            final(self)@ == unfinished(old(self)@),
    {
        let ghost all = self@;
        let mut done: Vec<Sequence> = Vec::new();
        let mut i: usize = 0;
        let ghost mut k: int = 0;
        proof {
            reveal(Seq::filter);
            assert(models(done@) =~= finished(all.take(0)));
            assert(unfinished(all.take(0)) =~= seq![]);
            assert(self@ =~= unfinished(all.take(0)) + all.skip(0));
        }
        while i < self.inner.len()
            invariant
                all == old(self)@,
                0 <= k <= all.len(),
                i == unfinished(all.take(k)).len(),
                models(done@) == finished(all.take(k)),
                self@ == unfinished(all.take(k)) + all.skip(k),
            decreases all.len() - k,
        {
            let ghost before = self@;
            let ghost d0 = done@;
            proof {
                assert(before.len() == unfinished(all.take(k)).len() + all.len() - k);
                assert(before[i as int] == all[k]);
                assert(all.take(k + 1) =~= all.take(k).push(all[k]));
                lemma_finished_push(all.take(k), all[k]);
            }
            if self.inner[i].is_finished() {
                let s = self.inner.remove(i);
                done.push(s);
                proof {
                    assert(self@ =~= before.remove(i as int));
                    assert(self@ =~= unfinished(all.take(k + 1)) + all.skip(k + 1));
                    assert(models(done@) =~= models(d0).push(all[k]));
                }
            } else {
                proof {
                    assert(self@ =~= unfinished(all.take(k + 1)) + all.skip(k + 1));
                }
                i += 1;
            }
            proof {
                k = k + 1;
            }
        }
        proof {
            assert(k == all.len());
            assert(all.take(k) =~= all);
            assert(self@ =~= unfinished(all));
        }
        done
    }

    /// Total tokens currently held across all running sequences.
    pub fn total_tokens(&self) -> (r: usize)
        requires
            tokens_held(self@) <= usize::MAX,
            forall|i: int| 0 <= i < self@.len() ==> (#[trigger] self@[i]).wf(),
        ensures
            r == tokens_held(self@),
    {
        let mut n: usize = 0;
        let mut i: usize = 0;
        proof {
            assert(self@.take(0) =~= seq![]);
        }
        while i < self.inner.len()
            invariant
                i <= self.inner@.len(),
                tokens_held(self@) <= usize::MAX,
                forall|k: int| 0 <= k < self@.len() ==> (#[trigger] self@[k]).wf(),
                n == tokens_held(self@.take(i as int)),
            decreases self.inner@.len() - i,
        {
            proof {
                lemma_tokens_held(self@, i + 1);
                assert(self@.take(i + 1).drop_last() =~= self@.take(i as int));
                assert(self@[i as int].wf());
            }
            n += self.inner[i].total_len();
            i += 1;
        }
        proof {
            assert(self@.take(self@.len() as int) =~= self@);
        }
        n
    }
}

/// New arrivals leave the waiting queue in the order in which they came, and a
/// preempted sequence leaves before all of them.
pub proof fn law_waiting_queue_is_fair(
    queue: Seq<SequenceModel>,
    arrival: SequenceModel,
    preempted: SequenceModel,
)
    ensures
        queue.len() > 0 ==> queue.push(arrival)[0] == queue[0],
        queue.len() > 0 ==> queue.push(arrival).drop_first() == queue.drop_first().push(arrival),
        (seq![preempted] + queue)[0] == preempted,
        (seq![preempted] + queue).drop_first() == queue,
        (seq![preempted] + queue.push(arrival))[0] == preempted,
{
    if queue.len() > 0 {
        assert(queue.push(arrival).drop_first() =~= queue.drop_first().push(arrival));
    }
    assert((seq![preempted] + queue).drop_first() =~= queue);
}

} // verus!
