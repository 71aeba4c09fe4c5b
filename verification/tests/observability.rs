use orion_serve::observability::{
    batch_buckets, cache_usage, histograms, latency_buckets, names, token_count_buckets,
    token_latency_buckets, LogFormat, Unit,
};

#[test]
fn log_formats_parse_from_strings() {
    assert_eq!("json".parse::<LogFormat>().unwrap(), LogFormat::Json);
    assert_eq!("pretty".parse::<LogFormat>().unwrap(), LogFormat::Pretty);
    assert_eq!("TEXT".parse::<LogFormat>().unwrap(), LogFormat::Pretty);
    let err = "yaml".parse::<LogFormat>().unwrap_err();
    assert!(err.contains("yaml"), "the error should name the bad value");
    assert_eq!(
        LogFormat::parse("YAML").unwrap_err(),
        "unknown log format `yaml`, expected `pretty` or `json`"
    );
}

#[test]
fn metric_names_are_unique_and_prefixed() {
    let all = [
        names::REQUESTS_TOTAL,
        names::REQUEST_ERRORS_TOTAL,
        names::TOKENS_GENERATED_TOTAL,
        names::PROMPT_TOKENS_TOTAL,
        names::COMPLETION_TOKENS_TOTAL,
        names::PREEMPTIONS_TOTAL,
        names::PREFIX_CACHE_HITS_TOTAL,
        names::PREFIX_CACHE_MISSES_TOTAL,
        names::REQUESTS_RUNNING,
        names::REQUESTS_WAITING,
        names::KV_CACHE_USAGE_RATIO,
        names::KV_CACHE_BLOCKS_USED,
        names::KV_CACHE_BLOCKS_FREE,
        names::TIME_TO_FIRST_TOKEN,
        names::TIME_PER_OUTPUT_TOKEN,
        names::REQUEST_LATENCY,
        names::QUEUE_TIME,
        names::BATCH_SIZE,
        names::BATCH_TOKENS,
        names::STEP_DURATION,
    ];

    let unique: std::collections::HashSet<_> = all.iter().collect();
    assert_eq!(unique.len(), all.len(), "duplicate metric name");

    for n in all {
        assert!(n.starts_with("orion_"), "{n} is missing the namespace");
    }
}

#[test]
fn counter_metrics_follow_prometheus_naming() {
    // Counters end in _total; that is what Prometheus tooling expects.
    for n in [
        names::REQUESTS_TOTAL,
        names::REQUEST_ERRORS_TOTAL,
        names::TOKENS_GENERATED_TOTAL,
        names::PREEMPTIONS_TOTAL,
    ] {
        assert!(n.ends_with("_total"), "{n} should end in _total");
    }
}

#[test]
fn latency_metrics_carry_their_unit() {
    for n in [
        names::TIME_TO_FIRST_TOKEN,
        names::TIME_PER_OUTPUT_TOKEN,
        names::REQUEST_LATENCY,
        names::QUEUE_TIME,
        names::STEP_DURATION,
    ] {
        assert!(n.ends_with("_seconds"), "{n} should state its unit");
    }
}

#[test]
fn latency_buckets_are_ascending_and_cover_the_useful_range() {
    for buckets in [latency_buckets(), token_latency_buckets(), batch_buckets()] {
        assert!(
            buckets.windows(2).all(|w| w[0] < w[1]),
            "buckets must be strictly ascending"
        );
    }
    // TPOT resolution has to reach into single-digit milliseconds.
    assert!(token_latency_buckets()[0] as f64 / 1e6 <= 0.001);
    // Request latency has to reach a realistic timeout.
    assert!(*latency_buckets().last().unwrap() as f64 / 1e6 >= 30.0);
    assert_eq!(token_count_buckets().last(), Some(&32768));
}

#[test]
fn engine_state_ratio_handles_an_empty_cache() {
    // Must not divide by zero before the cache is sized.
    let r = cache_usage(0, 0);
    assert_eq!(r.numerator, 0);
    assert!(r.denominator > 0);
    let r = cache_usage(3, 1);
    assert_eq!((r.numerator, r.denominator), (3, 4));
}

#[test]
fn every_histogram_has_its_own_boundaries() {
    let all = histograms();
    let of = |name: &str| all.iter().find(|h| h.name == name).unwrap();
    assert_eq!(all.len(), 7);
    assert_eq!(of(names::QUEUE_TIME).bounds, latency_buckets());
    assert_eq!(of(names::STEP_DURATION).bounds, token_latency_buckets());
    assert_eq!(of(names::STEP_DURATION).unit, Unit::Micros);
    assert_eq!(of(names::BATCH_SIZE).bounds, batch_buckets());
    assert_eq!(of(names::BATCH_TOKENS).bounds, token_count_buckets());
    assert_eq!(of(names::BATCH_TOKENS).unit, Unit::Count);
}
