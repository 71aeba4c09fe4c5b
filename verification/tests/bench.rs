use orion_serve::bench::frames::{device_name, toolkit_release, Frame, FrameReader};
use orion_serve::bench::report::{aggregate, BenchmarkResult, RunMetadata};
use orion_serve::bench::sample::{measure, Percentiles, RequestSample, Tally};
use orion_serve::bench::workload::{select_shapes, WorkloadShape};

const MS: u64 = 1_000_000;

fn sample(ttft_ms: u64, total_ms: u64, tokens: usize) -> RequestSample {
    RequestSample {
        ttft: Some(ttft_ms * MS),
        total: total_ms * MS,
        prompt_tokens: 100,
        completion_tokens: tokens,
        success: true,
    }
}

fn metadata(model: &str, precision: &str) -> RunMetadata {
    RunMetadata {
        timestamp_utc: "unix:0".to_string(),
        os: "linux".to_string(),
        arch: "x86_64".to_string(),
        cpu_cores: 8,
        gpu: None,
        cuda_version: None,
        driver_version: None,
        orion_version: "0.1.0".to_string(),
        model: model.to_string(),
        precision: precision.to_string(),
        notes: None,
    }
}

#[test]
fn percentiles_come_from_the_observed_sample() {
    let values: Vec<u64> = (1..=100).collect();
    let p = Percentiles::from_nanos(&values).unwrap();

    assert_eq!(p.min, 1);
    assert_eq!(p.max, 100);
    assert_eq!(p.p50, 50);
    assert_eq!(p.p90, 90);
    assert_eq!(p.p95, 95);
    assert_eq!(p.p99, 99);
    assert!((p.sum as f64 / p.count as f64 - 50.5).abs() < 1e-9);
}

#[test]
fn percentiles_are_none_for_an_empty_sample() {
    // "No data" and "zero latency" must not look the same.
    assert!(Percentiles::from_nanos(&vec![]).is_none());
}

#[test]
fn a_single_observation_is_every_percentile() {
    let p = Percentiles::from_nanos(&vec![42]).unwrap();
    assert_eq!(p.p50, 42);
    assert_eq!(p.p99, 42);
    assert_eq!(p.min, 42);
    assert_eq!(p.max, 42);
}

#[test]
fn percentiles_are_order_independent() {
    let ascending = Percentiles::from_nanos(&vec![1, 2, 3, 4]).unwrap();
    let shuffled = Percentiles::from_nanos(&vec![3, 1, 4, 2]).unwrap();
    assert_eq!(ascending.p50, shuffled.p50);
    assert_eq!(ascending.max, shuffled.max);
}

#[test]
fn nearest_rank_never_invents_an_unobserved_value() {
    let values = vec![10, 20, 30];
    let p = Percentiles::from_nanos(&values).unwrap();
    for q in [p.p50, p.p90, p.p99] {
        assert!(values.contains(&q), "{q} was never observed");
    }
}

#[test]
fn tpot_excludes_the_first_token() {
    // 100ms to first token, 1100ms total, 11 tokens.
    // Decode time is 1000ms over 10 inter-token gaps: 100ms each.
    let s = sample(100, 1100, 11);
    assert_eq!(s.tpot(), Some(100 * MS));
}

#[test]
fn lib_tpot_is_undefined_below_two_tokens() {
    // Reporting zero would drag an average down misleadingly.
    assert!(sample(100, 100, 1).tpot().is_none());
    assert!(sample(100, 100, 0).tpot().is_none());
    assert!(sample(100, 200, 2).tpot().is_some());
}

#[test]
fn failed_requests_are_counted_not_dropped() {
    let samples = vec![
        sample(50, 500, 10),
        RequestSample::failed(100),
        sample(60, 600, 10),
    ];
    let r = aggregate(metadata("test", "f32"), "test", 2, &samples, 1000 * MS);

    assert_eq!(r.total_requests, 3);
    assert_eq!(r.successful_requests, 2);
    assert_eq!(r.failed_requests, 1, "failures must be visible");
    // Throughput counts only successes: a fast-failing server is not fast.
    let throughput = r.successful_requests as f64 / (r.duration as f64 / 1e9);
    assert!((throughput - 2.0).abs() < 1e-9);
}

#[test]
fn throughput_is_computed_over_wall_clock() {
    let samples: Vec<_> = (0..10).map(|_| sample(50, 500, 20)).collect();
    let r = aggregate(metadata("m", "f32"), "w", 4, &samples, 2000 * MS);

    let secs = r.duration as f64 / 1e9;
    assert!((r.successful_requests as f64 / secs - 5.0).abs() < 1e-9);
    assert!((r.total_completion_tokens as f64 / secs - 100.0).abs() < 1e-9);
    assert_eq!(r.total_completion_tokens, 200);
    assert_eq!(r.total_prompt_tokens, 1000);
    assert_eq!(r.latency.p50, 500 * MS);
}

#[test]
fn an_all_failure_run_reports_zero_throughput_not_a_crash() {
    let samples: Vec<_> = (0..5).map(|_| RequestSample::failed(10)).collect();
    let r = aggregate(metadata("m", "f32"), "w", 1, &samples, 1000 * MS);
    assert_eq!(r.successful_requests, 0);
    assert_eq!(r.total_completion_tokens, 0);
    assert!(r.ttft.is_none());
    assert_eq!(r.latency.p99, 0);
}

#[test]
fn workload_shapes_are_distinct_and_named() {
    let shapes = WorkloadShape::all();
    let names: std::collections::HashSet<_> = shapes.iter().map(|s| s.as_str()).collect();
    assert_eq!(names.len(), 4, "shape names must be distinct");

    assert!(WorkloadShape::LongShort.prompt_tokens() > WorkloadShape::ShortShort.prompt_tokens());
    assert!(WorkloadShape::ShortLong.output_tokens() > WorkloadShape::ShortShort.output_tokens());
}

#[test]
fn shapes_are_selected_by_name() {
    assert_eq!(select_shapes(None).unwrap(), WorkloadShape::all().to_vec());
    let names = vec![
        "long_prompt_long_output".to_string(),
        "short_prompt_short_output".to_string(),
    ];
    assert_eq!(
        select_shapes(Some(&names)).unwrap(),
        vec![WorkloadShape::LongLong, WorkloadShape::ShortShort]
    );
    let bad = vec!["nope".to_string()];
    assert_eq!(
        select_shapes(Some(&bad)).unwrap_err(),
        "unknown workload `nope`"
    );
}

#[test]
fn a_cpu_only_run_says_so_loudly() {
    // A CPU number must never be quotable as a GPU number.
    let meta = metadata("m", "f32");
    let r = aggregate(meta, "w", 1, &[sample(10, 100, 5)], 1000 * MS);
    let text = r.metadata.hardware();
    assert!(
        text.contains("CPU-ONLY RESULT"),
        "a CPU run must be labelled: {text}"
    );
    assert!(!r.metadata.is_gpu_run());
    assert_eq!(r.metadata.device_label(), "cpu-only");
}

#[test]
fn a_gpu_run_records_the_device() {
    let mut meta = metadata("m", "f16");
    meta.gpu = Some("NVIDIA A100-SXM4-80GB".into());

    let r = aggregate(meta, "w", 1, &[sample(10, 100, 5)], 1000 * MS);
    assert!(r.metadata.hardware().contains("A100"));
    assert!(r.metadata.is_gpu_run());
    assert_eq!(
        r.metadata.hardware(),
        "hardware:        linux x86_64 (8 cores)\nGPU:             NVIDIA A100-SXM4-80GB\nmodel:           m\nprecision:       f16\n"
    );
}

#[test]
fn the_csv_header_names_thirteen_columns() {
    assert_eq!(BenchmarkResult::csv_header().split(',').count(), 13);
}

#[test]
fn measure_derives_timings_from_token_arrivals() {
    let start = 5 * MS;
    let times: Vec<u64> = (1..=3).map(|i| start + i * 10 * MS).collect();

    let s = measure(start, &times, 42);
    assert_eq!(s.completion_tokens, 3);
    assert_eq!(s.prompt_tokens, 42);
    assert_eq!(s.ttft, Some(10 * MS));
    assert_eq!(s.total, 30 * MS);
    assert!(s.success);
}

#[test]
fn a_request_that_produced_nothing_has_no_ttft() {
    let start = 0;
    let s = measure(start, &[], 10);
    assert!(s.ttft.is_none());
    assert_eq!(s.completion_tokens, 0);
}

#[test]
fn a_tally_becomes_a_sample() {
    let mut t = Tally::new();
    t.observe(false, None, 3);
    t.observe(true, None, 7);
    t.observe(true, Some(12), 9);
    let s = t.finish(2, 11);
    assert_eq!(s.ttft, Some(5));
    assert_eq!(s.total, 9);
    assert_eq!(s.completion_tokens, 2);
    assert_eq!(s.prompt_tokens, 12);
    assert!(s.success);
    assert!(!Tally::new().finish(0, 5).success);
}

#[test]
fn payloads_are_read_as_json() {
    let mut t = Tally::new();
    t.take_payload("{\"choices\":[{\"delta\":{\"role\":\"assistant\"}}]}", 3);
    assert_eq!(t, Tally::new());
    t.take_payload("{\"choices\":[{\"delta\":{\"content\":\"hi\"}}]}", 7);
    t.take_payload("not JSON", 8);
    t.take_payload("{\"choices\":[{\"delta\":{\"content\":\" there\"}}]}", 9);
    t.take_payload("{\"choices\":[{\"delta\":{\"content\":null}}]}", 10);
    t.take_payload("{\"choices\":{\"0\":{\"delta\":{\"content\":\"x\"}}}}", 10);
    t.take_payload(
        "{\"choices\":[{\"delta\":{},\"finish_reason\":\"stop\"}],\"usage\":{\"prompt_tokens\":12}}",
        11,
    );
    assert_eq!(t.first_token, Some(7));
    assert_eq!(t.tokens, 2);
    assert_eq!(t.prompt_tokens, 12);
}

#[test]
fn frames_are_read_however_the_stream_is_cut() {
    let stream = "data: {\"a\":1}\r\n\ndata: [DONE]\n: comment\n";
    for cut in 0..=stream.len() {
        let mut reader = FrameReader::new();
        let mut seen = Vec::new();
        for piece in [&stream[..cut], &stream[cut..]] {
            reader.push(piece);
            while let Some(f) = reader.next_frame() {
                seen.push(match f {
                    Frame::Other => "other".to_string(),
                    Frame::Done => "done".to_string(),
                    Frame::Data(p) => p,
                });
            }
        }
        assert_eq!(seen, vec!["{\"a\":1}", "other", "done", "other"], "{cut}");
    }
}

#[test]
fn tool_answers_are_read() {
    assert_eq!(
        device_name("\n  NVIDIA A100 \nNVIDIA T4\n"),
        Some("NVIDIA A100".to_string())
    );
    assert_eq!(device_name("  \n"), None);
    assert_eq!(
        toolkit_release(
            "nvcc: NVIDIA (R) Cuda compiler\nCuda compilation tools, release 12.4, V12.4.131\n"
        ),
        Some("12.4, V12.4.131".to_string())
    );
    assert_eq!(
        toolkit_release("release 12.4,\r\nx"),
        Some("12.4".to_string())
    );
    assert_eq!(toolkit_release("nothing"), None);
}
