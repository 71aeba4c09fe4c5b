use orion_serve::config::SchedulerConfig;
use orion_serve::engine::{Engine, LoopAction, StreamEvent};
use orion_serve::error::EngineError;
use orion_serve::float::{Float32, WrittenFloat};
use orion_serve::id::{SequenceId, TokenId};
use orion_serve::kv_cache::manager::KvCacheManager;
use orion_serve::ratio::Ratio;
use orion_serve::sampling::argmax;
use orion_serve::sampling_params::SamplingParams;
use orion_serve::scheduler::driver::Scheduler;
use orion_serve::sequence::FinishReason;

fn value(r: Ratio) -> f64 {
    r.numerator as f64 / r.denominator as f64
}

fn written(v: f32) -> WrittenFloat {
    WrittenFloat::new(v.to_bits(), format!("{v}"))
}

/// An engine and the callers that listen to it, over a model whose largest
/// logit is always at one token.
struct Running {
    engine: Engine,
    favoured: TokenId,
    events: Vec<(SequenceId, StreamEvent)>,
    gone: Vec<SequenceId>,
}

fn engine(favoured: TokenId) -> Running {
    let cache = KvCacheManager::new(64, 4, true);
    let scheduler = Scheduler::new(
        SchedulerConfig {
            max_num_seqs: 8,
            max_num_batched_tokens: 64,
            max_model_len: Some(256),
            request_timeout_secs: None,
            ..Default::default()
        },
        cache,
    );
    Running {
        engine: Engine::new(scheduler, vec![15]),
        favoured,
        events: Vec::new(),
        gone: Vec::new(),
    }
}

impl Running {
    fn submit(
        &mut self,
        prompt: Vec<TokenId>,
        params: SamplingParams,
    ) -> Result<SequenceId, EngineError> {
        self.engine.submit(prompt, params, 0)
    }

    fn has_work(&self) -> bool {
        self.engine.has_work()
    }

    fn forward(&self) -> TokenId {
        let mut logits = vec![Float32 { bits: 0 }; 16];
        logits[self.favoured as usize] = Float32 {
            bits: 10.0f32.to_bits(),
        };
        argmax(&logits).unwrap() as TokenId
    }

    fn step(&mut self) -> Result<usize, EngineError> {
        let start = self.engine.begin_step(0);
        self.events.extend(start.notices);
        let plan = match start.plan? {
            Some(plan) => plan,
            None => return Ok(0),
        };
        plan.batch.validate()?;
        for (row, &id) in plan.batch.sequence_ids.iter().enumerate() {
            if self.engine.sampling_turn(id, row, true)?.is_none() {
                continue;
            }
            let token = self.forward();
            if let Some((event, reason)) = self.engine.receive_token(id, token, 0) {
                let delivered = !self.gone.contains(&id);
                if delivered {
                    self.events.push((id, event));
                }
                if let Some(done) = self.engine.settle(id, delivered, reason) {
                    self.events.push((id, done));
                }
            }
        }
        let ran = plan.batch.sequence_ids.len();
        let notices = self.engine.end_step(&plan.output);
        self.events.extend(notices);
        Ok(ran)
    }

    fn run(&mut self, limit: usize) -> usize {
        let mut steps = 0;
        while self.has_work() && steps < limit {
            self.step().unwrap();
            steps += 1;
        }
        steps
    }

    fn of(&self, id: SequenceId) -> Vec<StreamEvent> {
        self.events
            .iter()
            .filter(|(i, _)| *i == id)
            .map(|(_, e)| e.clone())
            .collect()
    }
}

fn greedy(max_tokens: usize) -> SamplingParams {
    SamplingParams {
        temperature: written(0.0),
        max_tokens,
        ..Default::default()
    }
}

fn tokens(events: &[StreamEvent]) -> Vec<TokenId> {
    events
        .iter()
        .filter_map(|ev| match ev {
            StreamEvent::Token { token, .. } => Some(*token),
            _ => None,
        })
        .collect()
}

#[test]
fn a_request_generates_until_max_tokens() {
    let mut e = engine(5);
    let id = e.submit(vec![1, 2, 3], greedy(4)).unwrap();
    e.run(20);

    let events = e.of(id);
    let t = tokens(&events);
    assert_eq!(t.len(), 4, "should stop at max_tokens");
    assert!(t.iter().all(|&t| t == 5), "greedy should pick token 5");

    match events.last() {
        Some(StreamEvent::Done {
            reason,
            prompt_tokens,
            completion_tokens,
        }) => {
            assert_eq!(*reason, FinishReason::Length);
            assert_eq!(*prompt_tokens, 3);
            assert_eq!(*completion_tokens, 4);
        }
        other => panic!("expected a terminal Done, got {other:?}"),
    }
}

#[test]
fn an_eos_token_stops_generation_early() {
    let mut e = engine(15);
    let id = e.submit(vec![1, 2], greedy(100)).unwrap();
    e.run(10);

    let events = e.of(id);
    let done = events
        .iter()
        .find(|e| matches!(e, StreamEvent::Done { .. }));
    match done {
        Some(StreamEvent::Done {
            reason,
            completion_tokens,
            ..
        }) => {
            assert_eq!(*reason, FinishReason::Stop);
            assert_eq!(*completion_tokens, 1, "should stop on the first EOS");
        }
        other => panic!("expected Done, got {other:?}"),
    }
}

#[test]
fn several_requests_are_served_concurrently() {
    let mut e = engine(5);
    let mut ids = Vec::new();
    for _ in 0..4 {
        ids.push(e.submit(vec![1, 2], greedy(3)).unwrap());
    }
    e.run(50);

    for (i, id) in ids.into_iter().enumerate() {
        let events = e.of(id);
        let n = tokens(&events).len();
        assert_eq!(n, 3, "request {i} generated {n} tokens");
        assert!(
            matches!(events.last(), Some(StreamEvent::Done { .. })),
            "request {i} did not terminate"
        );
    }
}

#[test]
fn cache_blocks_are_released_when_requests_finish() {
    let mut e = engine(5);
    let free_before = e.engine.stats().cache_free_blocks;

    e.submit(vec![1; 8], greedy(2)).unwrap();
    e.run(30);

    assert_eq!(
        e.engine.stats().cache_free_blocks,
        free_before,
        "finished requests must return their blocks"
    );
    assert_eq!(e.engine.num_active(), 0, "engine leaked per-request state");
}

#[test]
fn invalid_sampling_parameters_are_rejected_at_submission() {
    let mut e = engine(5);
    let bad = SamplingParams {
        temperature: written(-1.0),
        ..Default::default()
    };
    let result = e.submit(vec![1], bad);
    assert!(matches!(result, Err(EngineError::InvalidRequest(_))));
    assert_eq!(
        e.engine.stats().waiting,
        0,
        "a rejected request must not queue"
    );
}

#[test]
fn an_oversized_context_is_rejected_at_submission() {
    let mut e = engine(5);
    let result = e.submit(vec![1; 300], greedy(10));
    assert!(matches!(
        result,
        Err(EngineError::ContextLengthExceeded { .. })
    ));
}

#[test]
fn cancelling_frees_blocks_and_notifies_the_caller() {
    let mut e = engine(5);
    let id = e.submit(vec![1; 8], greedy(100)).unwrap();

    e.step().unwrap();
    assert!(e.engine.stats().cache_free_blocks < 64);

    let told = e.engine.cancel(id);
    assert_eq!(
        e.engine.stats().cache_free_blocks,
        64,
        "cancel must free blocks"
    );
    assert!(
        matches!(
            told,
            Some(StreamEvent::Done {
                reason: FinishReason::Cancelled,
                ..
            })
        ),
        "caller should be told about the cancellation"
    );
}

#[test]
fn cancelling_an_unknown_sequence_is_harmless() {
    let mut e = engine(5);
    assert!(e.engine.cancel(SequenceId::from_raw(9999)).is_none());
    assert_eq!(e.engine.stats().running, 0);
}

#[test]
fn a_stopping_engine_drains_its_work_first() {
    let mut e = engine(5);
    assert_eq!(e.engine.next_action(false), LoopAction::Wait);
    assert_eq!(e.engine.next_action(true), LoopAction::Stop);
    e.submit(vec![1, 2], greedy(2)).unwrap();
    while e.engine.next_action(true) == LoopAction::Step {
        e.step().unwrap();
    }
    assert_eq!(e.engine.next_action(true), LoopAction::Stop);
    // Each token says how many there are with it.
    let counts: Vec<usize> = e
        .events
        .iter()
        .filter_map(|(_, event)| match event {
            StreamEvent::Token { index, .. } => Some(*index),
            _ => None,
        })
        .collect();
    assert_eq!(counts, vec![1, 2]);
}

#[test]
fn an_empty_step_is_not_an_error() {
    let mut e = engine(5);
    assert!(!e.has_work());
    assert_eq!(e.step().unwrap(), 0);
}

#[test]
fn a_long_prompt_is_prefilled_in_chunks_then_decodes() {
    let mut e = engine(5);
    // 100 prompt tokens against a 64-token budget forces chunking.
    let id = e.submit(vec![1; 100], greedy(2)).unwrap();
    let steps = e.run(50);

    assert_eq!(
        tokens(&e.of(id)).len(),
        2,
        "chunked prefill must still produce max_tokens"
    );
    assert!(steps > 2, "chunking should take several steps");
}

#[test]
fn stats_reflect_engine_activity() {
    let mut e = engine(5);
    assert_eq!(e.engine.stats().running, 0);

    e.submit(vec![1; 4], greedy(5)).unwrap();
    e.step().unwrap();

    let s = e.engine.stats();
    assert_eq!(s.running, 1);
    assert!(value(s.cache_utilization()) > 0.0);
    assert!(s.scheduler.total_admitted >= 1);
}

#[test]
fn a_disconnected_caller_has_its_request_cancelled() {
    let mut e = engine(5);
    let id = e.submit(vec![1, 2], greedy(100)).unwrap();
    e.gone.push(id);

    e.run(20);
    assert!(!e.has_work(), "engine kept working for a gone client");
    assert_eq!(
        e.engine.stats().cache_free_blocks,
        64,
        "blocks must be released"
    );
}

#[test]
fn the_prefix_cache_serves_a_repeated_prompt() {
    let mut e = engine(5);
    let prompt: Vec<TokenId> = (0..16).collect();

    for _ in 0..2 {
        e.submit(prompt.clone(), greedy(1)).unwrap();
        e.run(20);
    }

    let s = e.engine.stats();
    assert!(
        s.prefix_cache_hits > 0,
        "an identical repeated prompt should hit the prefix cache"
    );
    assert!(value(s.prefix_cache_hit_rate()) > 0.0);
}

#[test]
fn an_overdue_request_is_announced_as_a_timeout() {
    let scheduler = Scheduler::new(
        SchedulerConfig {
            request_timeout_secs: Some(1),
            ..Default::default()
        },
        KvCacheManager::new(64, 4, true),
    );
    let mut e = Engine::new(scheduler, vec![15]);
    let id = e.submit(vec![1, 2], greedy(4), 0).unwrap();
    let start = e.begin_step(1_000_000_001);
    assert!(matches!(start.plan, Ok(None)));
    assert!(start.notices.iter().any(|(i, ev)| *i == id
        && matches!(
            ev,
            StreamEvent::Done {
                reason: FinishReason::Timeout,
                ..
            }
        )));
    assert!(!e.has_work());
    assert_eq!(e.num_active(), 0);
}

#[test]
fn an_assembled_batch_is_laid_out_by_sequence() {
    let mut e = engine(5);
    let a = e.submit(vec![10, 11, 12], greedy(4)).unwrap();
    let b = e.submit(vec![20], greedy(4)).unwrap();
    let plan = e.engine.begin_step(0).plan.unwrap().unwrap();
    assert_eq!(plan.batch.tokens, vec![10, 11, 12, 20]);
    assert_eq!(plan.batch.positions, vec![0, 1, 2, 0]);
    assert_eq!(plan.batch.sequence_ids, vec![a, b]);
    assert_eq!(plan.batch.slot_token_counts, vec![3, 1]);
    assert_eq!(plan.batch.context_lens, vec![3, 1]);
    assert!(plan.batch.has_prefill);
}

#[test]
fn an_error_event_carries_code_and_message() {
    let ev = StreamEvent::from_error(&EngineError::EngineShutdown);
    assert!(ev.is_terminal());
    assert_eq!(
        ev,
        StreamEvent::Error {
            code: "engine_shutdown",
            message: "inference engine has shut down".to_string(),
        }
    );
}

#[test]
fn a_missing_row_is_an_error_unless_the_prompt_is_unfinished() {
    let mut e = engine(5);
    let short = e.submit(vec![1, 2, 3], greedy(4)).unwrap();
    assert!(e.engine.begin_step(0).plan.unwrap().is_some());
    let err = e.engine.sampling_turn(short, 0, false).unwrap_err();
    assert_eq!(
        err.message(),
        format!("internal invariant violated: forward output has no row 0 for {}", short.to_text())
    );
    assert_eq!(
        e.engine.sampling_turn(short, 0, true).unwrap(),
        Some(vec![1, 2, 3])
    );

    let mut e = engine(5);
    let long = e.submit(vec![1; 100], greedy(2)).unwrap();
    assert!(e.engine.begin_step(0).plan.unwrap().is_some());
    assert_eq!(e.engine.sampling_turn(long, 0, false).unwrap(), None);
}
