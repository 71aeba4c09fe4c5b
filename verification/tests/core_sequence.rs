use orion_serve::id::IdCounter;
use orion_serve::sampling_params::SamplingParams;
use orion_serve::sequence::{FinishReason, Sequence, SequenceState};

fn seq(prompt_len: usize) -> Sequence {
    let mut counter = IdCounter::new();
    Sequence::new(vec![1; prompt_len], SamplingParams::default(), &mut counter, 0)
}

#[test]
fn new_sequence_starts_waiting_with_no_progress() {
    let s = seq(10);
    assert_eq!(s.state(), SequenceState::Waiting);
    assert_eq!(s.remaining_prefill(), 10);
    assert!(!s.is_prefill_complete());
    assert_eq!(s.total_len(), 10);
    assert!(s.finish_reason().is_none());
}

#[test]
fn legal_lifecycle_transitions_are_accepted() {
    let mut s = seq(4);
    assert!(s.transition_to(SequenceState::Prefilling, 1));
    assert!(s.transition_to(SequenceState::Decoding, 1));
    s.finish(FinishReason::Length, 9);
    assert!(s.is_finished());
}

#[test]
fn illegal_transitions_are_rejected_without_mutating_state() {
    let mut s = seq(4);
    // Waiting cannot jump straight to Decoding.
    assert!(!s.transition_to(SequenceState::Decoding, 1));
    assert_eq!(s.state(), SequenceState::Waiting);

    s.finish(FinishReason::Stop, 9);
    // Finished is terminal.
    assert!(!s.transition_to(SequenceState::Decoding, 1));
    assert!(!s.transition_to(SequenceState::Waiting, 1));
    assert_eq!(s.state(), SequenceState::Finished);
}

#[test]
fn chunked_prefill_advances_and_saturates() {
    let mut s = seq(10);
    assert!(s.transition_to(SequenceState::Prefilling, 1));
    s.advance_prefill(4);
    assert_eq!(s.computed_prefix_len(), 4);
    assert_eq!(s.remaining_prefill(), 6);
    // An oversized final chunk must not overshoot.
    s.advance_prefill(100);
    assert_eq!(s.computed_prefix_len(), 10);
    assert_eq!(s.remaining_prefill(), 0);
    assert!(s.is_prefill_complete());
}

#[test]
fn preemption_resets_prefill_but_keeps_generated_tokens() {
    let mut s = seq(8);
    assert!(s.transition_to(SequenceState::Prefilling, 1));
    s.advance_prefill(8);
    assert!(s.transition_to(SequenceState::Decoding, 1));
    s.push_token(42, 42);
    s.push_token(43, 43);

    assert!(s.preempt());
    assert_eq!(s.state(), SequenceState::Waiting);
    assert_eq!(s.computed_prefix_len(), 0, "prefill must be recomputed");
    assert_eq!(s.output(), &[42, 43], "generated tokens must survive");
}

#[test]
fn a_restart_prefills_the_prompt_and_the_generated_tokens() {
    let mut s = seq(8);
    assert!(s.transition_to(SequenceState::Prefilling, 1));
    s.advance_prefill(8);
    assert!(s.transition_to(SequenceState::Decoding, 1));
    s.push_token(42, 42);
    s.push_token(43, 43);
    assert!(s.preempt());
    assert_eq!(s.remaining_prefill(), 10);
    assert_eq!(s.prefill_len(), 10);
    assert!(!s.is_prefill_complete());
    assert_eq!(s.opening(), vec![1, 1, 1, 1, 1, 1, 1, 1, 42, 43]);
}

#[test]
fn exactly_the_documented_transitions_are_allowed() {
    let states = [SequenceState::Waiting, SequenceState::Prefilling, SequenceState::Decoding, SequenceState::Finished];
    let legal = [
        (SequenceState::Waiting, SequenceState::Prefilling),
        (SequenceState::Prefilling, SequenceState::Decoding),
        (SequenceState::Decoding, SequenceState::Finished),
        (SequenceState::Decoding, SequenceState::Waiting),
        (SequenceState::Waiting, SequenceState::Finished),
    ];
    for from in states {
        for to in states {
            assert_eq!(from.can_transition_to(to), legal.contains(&(from, to)));
        }
    }
    // Only a decoder is preempted.
    assert!(!seq(4).preempt());
}

#[test]
fn finish_is_idempotent_and_keeps_the_first_reason() {
    let mut s = seq(2);
    s.finish(FinishReason::Stop, 9);
    s.finish(FinishReason::Timeout, 9);
    assert!(matches!(s.finish_reason(), Some(FinishReason::Stop)));
}

#[test]
fn first_token_timing_is_stamped_once() {
    let mut s = seq(2);
    assert!(s.timings().time_to_first_token().is_none());
    s.push_token(1, 1);
    let first = s.timings().first_token_at;
    assert!(first.is_some());
    s.push_token(2, 2);
    assert_eq!(s.timings().first_token_at, first);
}

#[test]
fn sequence_tpot_is_undefined_below_two_tokens() {
    let mut s = seq(2);
    assert!(s.transition_to(SequenceState::Prefilling, 1));
    s.push_token(1, 1);
    s.finish(FinishReason::Length, 9);
    assert!(s.timings().time_per_output_token(1).is_none());
    assert!(s.timings().time_per_output_token(2).is_some());
}

#[test]
fn min_tokens_gates_eos_termination() {
    let params = SamplingParams {
        min_tokens: 2,
        ..Default::default()
    };
    let mut s = Sequence::new(vec![1, 2], params, &mut IdCounter::new(), 0);
    assert!(!s.may_stop_on_eos());
    s.push_token(10, 10);
    assert!(!s.may_stop_on_eos());
    s.push_token(11, 11);
    assert!(s.may_stop_on_eos());
}

#[test]
fn all_tokens_yields_prompt_then_output() {
    let mut s = Sequence::new(vec![1, 2], SamplingParams::default(), &mut IdCounter::new(), 0);
    s.push_token(3, 3);
    assert_eq!(s.all_tokens(), vec![1, 2, 3]);
}

#[test]
fn active_states_are_exactly_prefilling_and_decoding() {
    assert!(!SequenceState::Waiting.is_active());
    assert!(SequenceState::Prefilling.is_active());
    assert!(SequenceState::Decoding.is_active());
    assert!(!SequenceState::Finished.is_active());
}

#[test]
fn queue_time_runs_from_arrival_to_the_first_schedule() {
    let mut counter = IdCounter::new();
    let mut s = Sequence::new(vec![1; 4], SamplingParams::default(), &mut counter, 100);
    assert_eq!(s.timings().queue_time(), None);
    assert!(s.transition_to(SequenceState::Prefilling, 350));
    assert_eq!(s.timings().queue_time(), Some(250));
}
