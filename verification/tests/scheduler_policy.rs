use orion_serve::config::SchedulerConfig;
use orion_serve::error::EngineError;
use orion_serve::id::IdCounter;
use orion_serve::kv_cache::manager::KvCacheManager;
use orion_serve::sampling_params::SamplingParams;
use orion_serve::scheduler::driver::Scheduler;
use orion_serve::scheduler::testing::FakeCache;
use orion_serve::sequence::{FinishReason, Sequence};

fn config() -> SchedulerConfig {
    SchedulerConfig {
        max_num_seqs: 4,
        max_num_batched_tokens: 32,
        max_model_len: Some(1024),
        enable_chunked_prefill: true,
        max_waiting_requests: 8,
        request_timeout_secs: None,
        prioritize_decode: true,
        ..Default::default()
    }
}

/// A scheduler over the real cache manager, so policy tests exercise the
/// genuine allocation path.
fn scheduler(blocks: usize) -> Scheduler<KvCacheManager> {
    Scheduler::new(config(), KvCacheManager::new(blocks, 4, false))
}

fn seq(ids: &mut IdCounter, prompt_len: usize, max_tokens: usize) -> Sequence {
    Sequence::new(
        vec![1; prompt_len],
        SamplingParams::default().with_max_tokens(max_tokens),
        ids,
        0,
    )
}

#[test]
fn an_empty_scheduler_produces_an_empty_batch() {
    let mut s = scheduler(16);
    let out = s.schedule(0);
    assert!(out.is_empty());
    assert!(!s.has_work());
}

#[test]
fn a_single_request_is_prefilled_then_decodes() {
    let mut ids = IdCounter::new();
    let mut s = scheduler(16);
    let id = s.add_request(seq(&mut ids, 8, 4)).unwrap();

    let out = s.schedule(0);
    assert_eq!(out.num_sequences(), 1);
    assert_eq!(out.scheduled[0].id, id);
    assert_eq!(out.scheduled[0].num_tokens, 8, "whole prompt in one chunk");
    assert!(out.scheduled[0].is_prefill);
    assert_eq!(out.scheduled[0].start_position, 0);

    // After prefill it becomes a decoder producing one token per step.
    s.on_token(id, 100, &[], 0);
    let out = s.schedule(0);
    assert_eq!(out.num_sequences(), 1);
    assert!(!out.scheduled[0].is_prefill);
    assert_eq!(out.scheduled[0].num_tokens, 1);
    assert_eq!(out.scheduled[0].start_position, 9, "8 prompt + 1 generated");
}

#[test]
fn several_requests_are_batched_into_one_step() {
    let mut ids = IdCounter::new();
    let mut s = scheduler(64);
    for _ in 0..3 {
        s.add_request(seq(&mut ids, 8, 4)).unwrap();
    }
    let out = s.schedule(0);
    assert_eq!(
        out.num_sequences(),
        3,
        "continuous batching, not sequential"
    );
    assert_eq!(out.num_batched_tokens(), 24);
}

#[test]
fn the_token_budget_bounds_a_step() {
    let mut ids = IdCounter::new();
    let mut s = scheduler(64);
    // Three 16-token prompts against a 32-token budget.
    for _ in 0..3 {
        s.add_request(seq(&mut ids, 16, 4)).unwrap();
    }
    let out = s.schedule(0);
    assert!(
        out.num_batched_tokens() <= 32,
        "budget exceeded: {}",
        out.num_batched_tokens()
    );
}

#[test]
fn max_num_seqs_bounds_the_running_set() {
    let mut ids = IdCounter::new();
    let mut s = scheduler(256);
    for _ in 0..8 {
        s.add_request(seq(&mut ids, 1, 4)).unwrap();
    }
    s.schedule(0);
    assert_eq!(s.num_running(), 4, "max_num_seqs is 4");
    assert_eq!(s.num_waiting(), 4);
}

#[test]
fn chunked_prefill_splits_a_long_prompt_across_steps() {
    let mut ids = IdCounter::new();
    let mut s = scheduler(64);
    // 100 tokens against a 32-token budget: needs four steps.
    let id = s.add_request(seq(&mut ids, 100, 4)).unwrap();

    let mut consumed = 0;
    let mut steps = 0;
    loop {
        let out = s.schedule(0);
        let sched = &out.scheduled[0];
        assert_eq!(sched.id, id);
        if !sched.is_prefill {
            break;
        }
        assert_eq!(
            sched.start_position, consumed,
            "chunks must be contiguous in position space"
        );
        consumed += sched.num_tokens;
        assert!(sched.num_tokens <= 32);
        steps += 1;
        assert!(steps < 10, "prefill failed to terminate");
    }
    assert_eq!(consumed, 100, "every prompt token must be prefilled once");
    assert_eq!(steps, 4, "ceil(100/32)");
}

#[test]
fn a_partially_prefilled_sequence_is_never_stranded() {
    let mut ids = IdCounter::new();
    // Regression: a sequence that has had one prefill chunk lives in the
    // running queue but is not yet a decoder. If neither scheduling path
    // picks it up it stalls forever, and the request hangs.
    let mut s = scheduler(64);
    let id = s.add_request(seq(&mut ids, 100, 4)).unwrap();

    let first = s.schedule(0);
    assert!(first.scheduled[0].is_prefill);
    assert!(
        first.scheduled[0].num_tokens < 100,
        "the prompt should have been chunked, not taken whole"
    );
    assert_eq!(s.num_running(), 1);
    assert_eq!(s.num_waiting(), 0, "it left the waiting queue");

    // The very next step must make progress on it.
    let second = s.schedule(0);
    assert!(
        !second.is_empty(),
        "partially prefilled sequence produced an empty batch"
    );
    assert_eq!(second.scheduled[0].id, id);
    assert!(second.scheduled[0].num_tokens > 0);
}

#[test]
fn every_admitted_request_eventually_finishes() {
    let mut ids = IdCounter::new();
    // A liveness property: run a mixed workload to completion and assert
    // the scheduler never deadlocks or drops anyone.
    let mut s = Scheduler::new(
        SchedulerConfig {
            max_num_seqs: 4,
            max_num_batched_tokens: 32,
            max_model_len: Some(1024),
            enable_chunked_prefill: true,
            max_waiting_requests: 64,
            request_timeout_secs: None,
            prioritize_decode: true,
            ..Default::default()
        },
        KvCacheManager::new(128, 4, false),
    );

    let mut outstanding = Vec::new();
    for len in [4usize, 60, 8, 100, 16] {
        outstanding.push(s.add_request(seq(&mut ids, len, 5)).unwrap());
    }
    let submitted = outstanding.len();

    let mut completed = 0;
    for step in 0..500 {
        let out = s.schedule(0);
        for sched in &out.scheduled {
            if !sched.is_prefill {
                s.on_token(sched.id, 42, &[], 0);
            }
        }
        completed += s.reap_finished().len();
        if !s.has_work() {
            break;
        }
        assert!(step < 499, "workload failed to drain");
    }
    assert_eq!(completed, submitted, "every request must finish");
    assert_eq!(s.num_running(), 0);
    assert_eq!(s.num_waiting(), 0);
}

#[test]
fn chunked_prefill_interleaves_with_running_decodes() {
    let mut ids = IdCounter::new();
    let mut s = scheduler(128);
    // One short request reaches decode first.
    let short = s.add_request(seq(&mut ids, 4, 100)).unwrap();
    s.schedule(0);
    s.on_token(short, 1, &[], 0);

    // A long prompt arrives; it must not monopolize the step.
    s.add_request(seq(&mut ids, 200, 4)).unwrap();
    let out = s.schedule(0);

    assert!(out.is_mixed(), "step should mix decode and prefill");
    assert_eq!(out.num_decode_sequences(), 1);
    assert!(
        out.scheduled.iter().any(|x| x.id == short && !x.is_prefill),
        "the streaming request must still get its token"
    );
    assert!(out.num_batched_tokens() <= 32);
}

#[test]
fn unchunked_prefill_waits_for_a_prompt_that_fits() {
    let mut ids = IdCounter::new();
    let cfg = SchedulerConfig {
        enable_chunked_prefill: false,
        max_num_batched_tokens: 32,
        max_model_len: Some(1024),
        ..config()
    };
    let mut s = Scheduler::new(cfg, KvCacheManager::new(128, 4, false));

    // Fill most of the budget with a decoding sequence.
    let a = s.add_request(seq(&mut ids, 30, 100)).unwrap();
    s.schedule(0);
    s.on_token(a, 1, &[], 0);

    // A 20-token prompt cannot fit in the 31 remaining... it can.
    // Use one that genuinely cannot: 32 tokens with 1 already used.
    s.add_request(seq(&mut ids, 32, 4)).unwrap();
    let out = s.schedule(0);
    assert_eq!(
        out.num_prefill_sequences(),
        0,
        "prompt must wait for a step with room for all of it"
    );
    assert_eq!(s.num_waiting(), 1);
}

#[test]
fn stop_token_finishes_a_sequence_and_frees_its_blocks() {
    let mut ids = IdCounter::new();
    let mut s = scheduler(16);
    let id = s.add_request(seq(&mut ids, 8, 100)).unwrap();
    s.schedule(0);
    let free_before = s.cache().free_blocks();
    assert!(free_before < 16);

    let reason = s.on_token(id, 2, &[2], 0);
    assert_eq!(reason, Some(FinishReason::Stop));

    let finished = s.reap_finished();
    assert_eq!(finished.len(), 1);
    assert_eq!(s.cache().free_blocks(), 16, "blocks must be returned");
    assert_eq!(s.num_running(), 0);
}

#[test]
fn max_tokens_terminates_generation() {
    let mut ids = IdCounter::new();
    let mut s = scheduler(32);
    let id = s.add_request(seq(&mut ids, 4, 3)).unwrap();
    s.schedule(0);

    assert_eq!(s.on_token(id, 10, &[], 0), None);
    assert_eq!(s.on_token(id, 11, &[], 0), None);
    assert_eq!(s.on_token(id, 12, &[], 0), Some(FinishReason::Length));
}

#[test]
fn min_tokens_suppresses_an_early_eos() {
    let mut s = scheduler(32);
    let params = SamplingParams {
        min_tokens: 3,
        max_tokens: 10,
        ..Default::default()
    };
    let id = s.add_request(Sequence::new(vec![1; 4], params, &mut IdCounter::new(), 0)).unwrap();
    s.schedule(0);

    assert_eq!(s.on_token(id, 2, &[2], 0), None, "EOS below min_tokens");
    assert_eq!(s.on_token(id, 2, &[2], 0), None);
    assert_eq!(s.on_token(id, 2, &[2], 0), Some(FinishReason::Stop));
}

#[test]
fn queue_overflow_is_rejected_with_a_retryable_error() {
    let mut ids = IdCounter::new();
    let mut s = scheduler(1024);
    for _ in 0..8 {
        s.add_request(seq(&mut ids, 1, 1)).unwrap();
    }
    let err = s.add_request(seq(&mut ids, 1, 1)).unwrap_err();
    assert!(matches!(err, EngineError::QueueFull { .. }));
    assert!(err.is_retryable());
    assert_eq!(s.stats().total_rejected, 1);
}

#[test]
fn an_oversized_context_is_rejected_at_admission() {
    let mut ids = IdCounter::new();
    let mut s = scheduler(1024);
    let err = s.add_request(seq(&mut ids, 1000, 100)).unwrap_err();
    assert!(matches!(err, EngineError::ContextLengthExceeded { .. }));
    assert!(err.is_client_error());
}

#[test]
fn a_prompt_larger_than_the_whole_cache_is_rejected_immediately() {
    let mut ids = IdCounter::new();
    // Otherwise it would sit at the queue head forever, blocking everyone.
    let mut s = scheduler(4); // 4 blocks * 4 tokens = 16 tokens
    let err = s.add_request(seq(&mut ids, 100, 4)).unwrap_err();
    assert!(matches!(err, EngineError::CacheExhausted { .. }));
    assert_eq!(s.num_waiting(), 0);
}

#[test]
fn cancelling_a_waiting_request_removes_it() {
    let mut ids = IdCounter::new();
    let mut s = scheduler(32);
    let id = s.add_request(seq(&mut ids, 4, 4)).unwrap();
    assert!(s.cancel(id));
    assert_eq!(s.num_waiting(), 0);
    assert!(!s.cancel(id), "second cancel is a no-op");
}

#[test]
fn cancelling_a_running_request_frees_its_blocks() {
    let mut ids = IdCounter::new();
    let mut s = scheduler(32);
    let id = s.add_request(seq(&mut ids, 8, 100)).unwrap();
    s.schedule(0);
    assert!(s.cache().free_blocks() < 32);

    assert!(s.cancel(id));
    assert_eq!(s.cache().free_blocks(), 32);
    assert_eq!(s.num_running(), 0);
}

#[test]
fn preemption_evicts_the_newest_and_it_keeps_its_tokens() {
    let mut ids = IdCounter::new();
    // A tiny cache forces eviction once sequences grow.
    let cfg = SchedulerConfig {
        max_num_seqs: 8,
        max_num_batched_tokens: 64,
        max_model_len: Some(1024),
        ..config()
    };
    let mut s = Scheduler::new(cfg, KvCacheManager::new(4, 4, false));

    let a = s.add_request(seq(&mut ids, 4, 100)).unwrap();
    let b = s.add_request(seq(&mut ids, 4, 100)).unwrap();
    s.schedule(0);
    assert_eq!(s.num_running(), 2);

    // Both grow until the 4-block cache cannot hold another token.
    let mut preempted = Vec::new();
    for _ in 0..8 {
        s.on_token(a, 1, &[], 0);
        s.on_token(b, 1, &[], 0);
        let out = s.schedule(0);
        preempted.extend(out.preempted);
    }

    assert!(
        !preempted.is_empty(),
        "cache pressure must cause preemption"
    );
    assert_eq!(preempted[0], b, "the newest sequence is evicted first");
    assert!(s.stats().total_preempted > 0);
}

#[test]
fn a_preempted_sequence_is_rescheduled_before_new_arrivals() {
    let mut ids = IdCounter::new();
    let mut s = Scheduler::new(
        SchedulerConfig {
            max_num_seqs: 2,
            max_num_batched_tokens: 64,
            max_model_len: Some(1024),
            ..config()
        },
        KvCacheManager::new(3, 4, false),
    );

    let a = s.add_request(seq(&mut ids, 4, 100)).unwrap();
    let b = s.add_request(seq(&mut ids, 4, 100)).unwrap();
    s.schedule(0);

    for _ in 0..6 {
        s.on_token(a, 1, &[], 0);
        s.on_token(b, 1, &[], 0);
        let out = s.schedule(0);
        if !out.preempted.is_empty() {
            // The victim went to the front, so it is next to be scheduled.
            let victim = out.preempted[0];
            let next = s.schedule(0);
            assert!(
                next.scheduled.iter().any(|x| x.id == victim) || s.cache().free_blocks() == 0,
                "preempted sequence must regain priority when room exists"
            );
            return;
        }
    }
}

#[test]
fn cache_exhaustion_during_decode_does_not_lose_sequences() {
    let mut ids = IdCounter::new();
    // Every sequence must end up either running or waiting - never dropped.
    let mut s = Scheduler::new(
        SchedulerConfig {
            max_num_seqs: 8,
            max_num_batched_tokens: 64,
            max_model_len: Some(1024),
            ..config()
        },
        KvCacheManager::new(6, 4, false),
    );

    let ids: Vec<_> = (0..4).map(|_| s.add_request(seq(&mut ids, 4, 50)).unwrap()).collect();
    s.schedule(0);

    for _ in 0..10 {
        for &id in &ids {
            s.on_token(id, 1, &[], 0);
        }
        s.reap_finished();
        s.schedule(0);
        let accounted = s.num_running() + s.num_waiting();
        let done = s.stats().total_finished as usize;
        assert_eq!(accounted + done, 4, "a sequence went missing");
    }
}

#[test]
fn stats_track_prefill_and_decode_separately() {
    let mut ids = IdCounter::new();
    let mut s = scheduler(64);
    let id = s.add_request(seq(&mut ids, 8, 4)).unwrap();
    s.schedule(0);
    assert_eq!(s.stats().total_prefill_tokens, 8);
    assert_eq!(s.stats().total_decode_tokens, 0);

    s.on_token(id, 1, &[], 0);
    s.schedule(0);
    assert_eq!(s.stats().total_decode_tokens, 1);
    assert_eq!(s.stats().total_admitted, 1);
}

#[test]
fn prefill_priority_can_be_inverted_by_config() {
    let mut ids = IdCounter::new();
    let cfg = SchedulerConfig {
        prioritize_decode: false,
        max_num_batched_tokens: 8,
        ..config()
    };
    let mut s = Scheduler::new(cfg, KvCacheManager::new(128, 4, false));

    let running = s.add_request(seq(&mut ids, 4, 100)).unwrap();
    s.schedule(0);
    s.on_token(running, 1, &[], 0);

    // A new 8-token prompt should now claim the budget ahead of the decode.
    s.add_request(seq(&mut ids, 8, 4)).unwrap();
    let out = s.schedule(0);
    assert_eq!(out.num_prefill_sequences(), 1);
    assert_eq!(
        out.num_decode_sequences(),
        0,
        "prefill consumed the whole budget first"
    );
}

#[test]
fn timeouts_expire_waiting_and_running_sequences() {
    let mut ids = IdCounter::new();
    let cfg = SchedulerConfig {
        request_timeout_secs: Some(0),
        ..config()
    };
    // A zero-second limit is rejected by config validation, so construct
    // the scheduler directly to exercise the expiry path.
    let mut s = Scheduler::new(
        SchedulerConfig {
            request_timeout_secs: Some(1),
            ..cfg
        },
        KvCacheManager::new(64, 4, false),
    );
    s.add_request(seq(&mut ids, 4, 4)).unwrap();
    // Nothing has aged past one second yet.
    assert!(s.expire_timeouts(0).is_empty());
}

#[test]
fn a_simulated_cache_failure_is_handled_without_panicking() {
    let mut ids = IdCounter::new();
    // FakeCache lets us force exhaustion deterministically, which a real
    // manager only reaches through specific size arithmetic.
    let mut s = Scheduler::new(config(), FakeCache::new(2, 4));
    s.add_request(seq(&mut ids, 4, 10)).unwrap();
    s.add_request(seq(&mut ids, 4, 10)).unwrap();
    s.schedule(0);

    s.cache_mut().fail_next_append();
    let ids: Vec<_> = s.running_ids();
    for id in ids {
        s.on_token(id, 1, &[], 0);
    }
    let out = s.schedule(0);
    // Either it preempted or it simply scheduled less; both are fine, and
    // no sequence may be lost.
    assert_eq!(s.num_running() + s.num_waiting(), 2 - out.finished.len());
}

#[test]
fn the_mean_batch_is_taken_over_the_steps_that_ran_something() {
    let mut ids = IdCounter::new();
    let mut s = scheduler(16);
    let mean = s.stats().mean_batch_tokens();
    assert_eq!((mean.numerator, mean.denominator), (0, 1));

    // A step without work does not count.
    assert!(s.schedule(0).is_empty());
    let id = s.add_request(seq(&mut ids, 8, 4)).unwrap();
    s.schedule(0);
    s.on_token(id, 100, &[], 0);
    s.schedule(0);
    // Eight tokens, then one, over two steps.
    let mean = s.stats().mean_batch_tokens();
    assert_eq!((mean.numerator, mean.denominator), (9, 2));
}

#[test]
fn a_preempted_sequence_restarts_with_its_generated_tokens() {
    let mut ids = IdCounter::new();
    let mut s = Scheduler::new(config(), FakeCache::new(64, 4));
    let a = s.add_request(seq(&mut ids, 4, 100)).unwrap();
    let b = s.add_request(seq(&mut ids, 4, 100)).unwrap();
    s.schedule(0);
    s.on_token(a, 1, &[], 0);
    s.on_token(b, 7, &[], 0);
    s.cache_mut().fail_next_append();
    let out = s.schedule(0);
    assert_eq!(out.preempted, vec![b]);
    // The cache has room, so the generated token is prefilled with the prompt.
    assert!(out
        .scheduled
        .iter()
        .any(|e| e.id == b && e.is_prefill && e.start_position == 0 && e.num_tokens == 5));
    assert!(out.scheduled.iter().all(|e| e.num_tokens >= 1));
    let running = s.running_sequence(b).unwrap();
    assert_eq!(running.remaining_prefill(), 0);
    assert_eq!(running.output(), &[7]);
}

#[test]
fn without_room_the_generated_tokens_are_computed_one_by_one() {
    let mut ids = IdCounter::new();
    let mut s = Scheduler::new(config(), KvCacheManager::new(4, 4, false));
    let a = s.add_request(seq(&mut ids, 4, 100)).unwrap();
    let b = s.add_request(seq(&mut ids, 4, 100)).unwrap();
    s.schedule(0);
    let mut generated = 0;
    loop {
        s.on_token(a, 1, &[], 0);
        s.on_token(b, 7, &[], 0);
        generated += 1;
        let out = s.schedule(0);
        if !out.preempted.is_empty() {
            assert_eq!(out.preempted[0], b);
            break;
        }
    }
    assert_eq!(generated, 5);
    // There was room for the prompt only.
    assert_eq!(s.running_sequence(b).unwrap().remaining_prefill(), generated);
    assert!(s.cancel(a));
    for done in 0..generated {
        let out = s.schedule(0);
        assert_eq!(out.scheduled.len(), 1);
        assert_eq!(out.scheduled[0].start_position, 4 + done);
        assert!(!out.scheduled[0].is_prefill);
        let running = s.running_sequence(b).unwrap();
        assert_eq!(running.remaining_prefill(), generated - done - 1);
    }
    assert!(s.running_sequence(b).unwrap().is_prefill_complete());
    assert_eq!(s.schedule(0).scheduled[0].start_position, 4 + generated);
}

#[test]
fn a_sequence_evicted_in_a_step_makes_no_room_for_itself() {
    let mut ids = IdCounter::new();
    let mut s = Scheduler::new(config(), FakeCache::new(64, 4));
    let a = s.add_request(seq(&mut ids, 4, 100)).unwrap();
    let b = s.add_request(seq(&mut ids, 4, 100)).unwrap();
    let c = s.add_request(seq(&mut ids, 4, 100)).unwrap();
    s.schedule(0);
    for id in [a, b, c] {
        s.on_token(id, 1, &[], 0);
    }
    s.cache_mut().fail_next_append();
    let out = s.schedule(0);
    // The newest makes room for the oldest; nobody is evicted on its behalf.
    assert_eq!(out.preempted, vec![c]);
    let decoding: Vec<_> = out
        .scheduled
        .iter()
        .filter(|e| !e.is_prefill)
        .map(|e| e.id)
        .collect();
    assert_eq!(decoding, vec![a, b]);
    assert!(s.running_sequence(a).is_some());
    assert!(s.running_sequence(b).is_some());
}

#[test]
fn a_sequence_that_was_its_own_victim_does_not_run() {
    let mut ids = IdCounter::new();
    let mut s = Scheduler::new(
        SchedulerConfig {
            max_num_batched_tokens: 3,
            enable_chunked_prefill: true,
            ..config()
        },
        KvCacheManager::new(1, 3, false),
    );
    let a = s.add_request(seq(&mut ids, 3, 100)).unwrap();
    s.schedule(0);
    s.on_token(a, 1, &[], 0);
    let out = s.schedule(0);
    // The only block is full, so the sequence is evicted to make room for it.
    assert_eq!(out.preempted, vec![a]);
    assert!(out.scheduled.iter().all(|e| e.is_prefill));
}
