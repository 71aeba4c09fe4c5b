use orion_serve::id::{IdCounter, SequenceId};
use orion_serve::sampling_params::SamplingParams;
use orion_serve::scheduler::queue::{RunningQueue, WaitingQueue};
use orion_serve::sequence::{FinishReason, Sequence, SequenceState};

fn seq(ids: &mut IdCounter, prompt_len: usize) -> Sequence {
    Sequence::new(vec![1; prompt_len], SamplingParams::default(), ids, 0)
}

#[test]
fn waiting_queue_is_fifo_for_new_arrivals() {
    let mut ids = IdCounter::new();
    let mut q = WaitingQueue::new();
    let a = seq(&mut ids, 1);
    let b = seq(&mut ids, 2);
    let (ida, idb) = (a.id(), b.id());
    q.push_back(a);
    q.push_back(b);

    assert_eq!(q.pop_front().unwrap().id(), ida);
    assert_eq!(q.pop_front().unwrap().id(), idb);
    assert!(q.pop_front().is_none());
}

#[test]
fn preempted_sequences_regain_priority() {
    let mut ids = IdCounter::new();
    // The starvation-regression test: a preempted sequence must not be sent
    // to the back of a queue that new arrivals keep refilling.
    let mut q = WaitingQueue::new();
    for _ in 0..5 {
        q.push_back(seq(&mut ids, 1));
    }
    let preempted = seq(&mut ids, 9);
    let id = preempted.id();
    q.push_front(preempted);

    assert_eq!(
        q.pop_front().unwrap().id(),
        id,
        "preempted sequence must be scheduled before newer arrivals"
    );
}

#[test]
fn repeated_preemption_cannot_starve_a_sequence() {
    let mut ids = IdCounter::new();
    // Simulates the pathological loop: a sequence is preempted, new work
    // arrives, and it is preempted again. It must still run before any of
    // the newer arrivals.
    let mut q = WaitingQueue::new();
    let victim = seq(&mut ids, 100);
    let id = victim.id();
    q.push_back(victim);

    for round in 0..10 {
        let s = q.pop_front().unwrap();
        assert_eq!(s.id(), id, "starved on round {round}");
        q.push_back(seq(&mut ids, 1)); // a new arrival appears
        q.push_front(s); // the victim is preempted again
    }
    assert_eq!(q.pop_front().unwrap().id(), id);
}

#[test]
fn peek_does_not_consume() {
    let mut ids = IdCounter::new();
    let mut q = WaitingQueue::new();
    let s = seq(&mut ids, 3);
    let id = s.id();
    q.push_back(s);

    assert_eq!(q.peek().unwrap().id(), id);
    assert_eq!(q.len(), 1);
    assert_eq!(q.pop_front().unwrap().id(), id);
}

#[test]
fn removal_targets_one_sequence_and_preserves_order() {
    let mut ids = IdCounter::new();
    let mut q = WaitingQueue::new();
    let a = seq(&mut ids, 1);
    let b = seq(&mut ids, 2);
    let c = seq(&mut ids, 3);
    let (ida, idb, idc) = (a.id(), b.id(), c.id());
    q.push_back(a);
    q.push_back(b);
    q.push_back(c);

    assert_eq!(q.remove(idb).unwrap().id(), idb);
    assert_eq!(q.len(), 2);
    assert_eq!(q.pop_front().unwrap().id(), ida);
    assert_eq!(q.pop_front().unwrap().id(), idc);
}

#[test]
fn removing_an_absent_sequence_returns_none() {
    let mut ids = IdCounter::new();
    let mut q = WaitingQueue::new();
    q.push_back(seq(&mut ids, 1));
    assert!(q.remove(SequenceId::from_raw(9999)).is_none());
    assert_eq!(q.len(), 1);
}

#[test]
fn drain_where_partitions_and_keeps_order() {
    let mut ids = IdCounter::new();
    let mut q = WaitingQueue::new();
    for len in [1, 10, 2, 20, 3] {
        q.push_back(seq(&mut ids, len));
    }
    let long = q.drain_where(|s: &Sequence| s.prompt_len() >= 10);
    assert_eq!(long.len(), 2);
    let remaining: Vec<_> = q.iter().into_iter().map(|s| s.prompt_len()).collect();
    assert_eq!(remaining, vec![1, 2, 3]);
}

#[test]
fn running_queue_evicts_the_newest_sequence_first() {
    let mut ids = IdCounter::new();
    let mut q = RunningQueue::new();
    let a = seq(&mut ids, 1);
    let b = seq(&mut ids, 2);
    let (ida, idb) = (a.id(), b.id());
    q.push(a);
    q.push(b);

    assert_eq!(
        q.pop_newest().unwrap().id(),
        idb,
        "the newest sequence has the least work to lose"
    );
    assert_eq!(q.pop_newest().unwrap().id(), ida);
    assert!(q.pop_newest().is_none());
}

#[test]
fn take_finished_removes_only_completed_sequences() {
    let mut ids = IdCounter::new();
    let mut q = RunningQueue::new();
    for _ in 0..4 {
        q.push(seq(&mut ids, 2));
    }
    let ids: Vec<_> = q.iter().into_iter().map(|s| s.id()).collect();
    q.get_mut(ids[1]).unwrap().finish(FinishReason::Stop, 0);
    q.get_mut(ids[3]).unwrap().finish(FinishReason::Length, 0);

    let finished = q.take_finished();
    assert_eq!(finished.len(), 2);
    assert_eq!(q.len(), 2);
    let left: Vec<_> = q.iter().into_iter().map(|s| s.id()).collect();
    assert_eq!(left, vec![ids[0], ids[2]]);
}

#[test]
fn total_tokens_sums_prompt_and_output() {
    let mut ids = IdCounter::new();
    let mut q = RunningQueue::new();
    let mut a = seq(&mut ids, 5);
    a.push_token(1, 0);
    a.push_token(2, 0);
    q.push(a);
    q.push(seq(&mut ids, 3));
    assert_eq!(q.total_tokens(), 7 + 3);
}

#[test]
fn running_queue_lookup_by_id() {
    let mut ids = IdCounter::new();
    let mut q = RunningQueue::new();
    let s = seq(&mut ids, 4);
    let id = s.id();
    q.push(s);

    assert!(q.get(id).is_some());
    assert_eq!(q.get(id).unwrap().state(), SequenceState::Waiting);
    assert!(q.get(SequenceId::from_raw(4242)).is_none());
    assert_eq!(q.remove(id).unwrap().id(), id);
    assert!(q.is_empty());
}
