//! Results and the facts that every result carries.

use crate::bench::sample::{Percentiles, RequestSample};
use crate::text::{decimal, owned, push_count};
use vstd::prelude::*;
use vstd::string::*;

verus! {

/// Hardware and configuration a result was produced on.
#[derive(Debug, Clone)]
pub struct RunMetadata {
    pub timestamp_utc: String,
    pub os: String,
    pub arch: String,
    pub cpu_cores: usize,
    /// GPU name, if one was detected. `None` means the run was CPU-only, and
    /// results must not be presented as GPU numbers.
    pub gpu: Option<String>,
    pub cuda_version: Option<String>,
    pub driver_version: Option<String>,
    pub orion_version: String,
    pub model: String,
    pub precision: String,
    pub notes: Option<String>,
}

impl RunMetadata {
    /// Whether this run had GPU acceleration available.
    ///
    /// Results from a run where this is false must never be described as GPU
    /// performance.
    pub fn is_gpu_run(&self) -> (r: bool)
        ensures
            r == (self.gpu is Some),
    {
        self.gpu.is_some()
    }

    /// The line on the device.
    pub open spec fn device_text(&self) -> Seq<char> {
        match self.gpu {
            Some(gpu) => "GPU:             "@ + gpu@ + "\n"@,
            None => "GPU:             none detected - THIS IS A CPU-ONLY RESULT\n"@,
        }
    }

    /// The lines on the hardware and the model.
    pub open spec fn hardware_text(&self) -> Seq<char> {
        "hardware:        "@ + self.os@ + " "@ + self.arch@ + " ("@ + decimal(self.cpu_cores as nat)
            + " cores)\n"@ + self.device_text() + "model:           "@ + self.model@ + "\n"@
            + "precision:       "@ + self.precision@ + "\n"@
    }

    /// The lines on the hardware and the model, as they end every summary.
    ///
    /// They say plainly when a run was CPU-only, so that a figure cannot be
    /// quoted as a GPU result by accident.
    pub fn hardware(&self) -> (r: String)
        ensures
            r@ == self.hardware_text(),
    {
        let mut out = owned("hardware:        ");
        out.append(self.os.as_str());
        out.append(" ");
        out.append(self.arch.as_str());
        out.append(" (");
        push_count(&mut out, self.cpu_cores);
        out.append(" cores)\n");
        let ghost so_far = out@;
        match &self.gpu {
            Some(gpu) => {
                out.append("GPU:             ");
                out.append(gpu.as_str());
                out.append("\n");
            },
            None => {
                out.append("GPU:             none detected - THIS IS A CPU-ONLY RESULT\n");
            },
        }
        proof {
            assert(out@ =~= so_far + self.device_text());
        }
        out.append("model:           ");
        out.append(self.model.as_str());
        out.append("\n");
        out.append("precision:       ");
        out.append(self.precision.as_str());
        out.append("\n");
        out
    }

    /// How the device is named in a row of figures.
    pub fn device_label(&self) -> (r: String)
        ensures
            r@ == match self.gpu {
                Some(gpu) => gpu@,
                None => "cpu-only"@,
            },
    {
        match &self.gpu {
            Some(gpu) => owned(gpu.as_str()),
            None => owned("cpu-only"),
        }
    }
}

/// Aggregated results for one configuration. Times are nanoseconds.
#[derive(Debug)]
pub struct BenchmarkResult {
    pub metadata: RunMetadata,
    pub workload: String,
    pub concurrency: usize,
    pub total_requests: usize,
    pub successful_requests: usize,
    pub failed_requests: usize,
    pub duration: u64,
    pub ttft: Option<Percentiles>,
    pub tpot: Option<Percentiles>,
    /// All zero where no request succeeded.
    pub latency: Percentiles,
    pub total_prompt_tokens: usize,
    pub total_completion_tokens: usize,
}

/// The samples of requests that succeeded.
pub open spec fn successes(samples: Seq<RequestSample>) -> Seq<RequestSample> {
    samples.filter(|s: RequestSample| s.success)
}

pub open spec fn prompt_total(samples: Seq<RequestSample>) -> int
    decreases samples.len(),
{
    if samples.len() == 0 {
        0
    } else {
        prompt_total(samples.drop_last()) + samples.last().prompt_tokens
    }
}

pub open spec fn completion_total(samples: Seq<RequestSample>) -> int
    decreases samples.len(),
{
    if samples.len() == 0 {
        0
    } else {
        completion_total(samples.drop_last()) + samples.last().completion_tokens
    }
}

/// The times to the first token, where there was one.
pub open spec fn first_times(samples: Seq<RequestSample>) -> Seq<u64>
    decreases samples.len(),
{
    if samples.len() == 0 {
        Seq::empty()
    } else {
        match samples.last().ttft {
            Some(t) => first_times(samples.drop_last()).push(t),
            None => first_times(samples.drop_last()),
        }
    }
}

/// The times per output token, where they are defined.
pub open spec fn token_times(samples: Seq<RequestSample>) -> Seq<u64>
    decreases samples.len(),
{
    if samples.len() == 0 {
        Seq::empty()
    } else {
        match samples.last().per_token() {
            Some(t) => token_times(samples.drop_last()).push(t),
            None => token_times(samples.drop_last()),
        }
    }
}

/// The times that the requests took.
pub open spec fn total_times(samples: Seq<RequestSample>) -> Seq<u64> {
    samples.map_values(|s: RequestSample| s.total)
}

/// Whether a summary is that of a sample, none standing for an empty one.
pub open spec fn summary(p: Option<Percentiles>, values: Seq<u64>) -> bool {
    match p {
        None => values.len() == 0,
        Some(p) => p.is_summary_of(values),
    }
}

pub open spec fn no_latency() -> Percentiles {
    Percentiles { sum: 0, count: 0, p50: 0, p90: 0, p95: 0, p99: 0, min: 0, max: 0 }
}

/// The totals of a prefix are not above those of the whole.
proof fn lemma_totals(samples: Seq<RequestSample>, i: int)
    requires
        0 <= i <= samples.len(),
    ensures
        0 <= prompt_total(successes(samples.take(i))) <= prompt_total(successes(samples)),
        0 <= completion_total(successes(samples.take(i))) <= completion_total(successes(samples)),
    decreases samples.len(),
{
    if i < samples.len() {
        lemma_totals(samples.drop_last(), i);
        assert(samples.drop_last().take(i) =~= samples.take(i));
        lemma_success_step(samples);
    } else {
        assert(samples.take(i) =~= samples);
        lemma_not_negative(successes(samples));
    }
}

proof fn lemma_not_negative(samples: Seq<RequestSample>)
    ensures
        prompt_total(samples) >= 0,
        completion_total(samples) >= 0,
    decreases samples.len(),
{
    if samples.len() > 0 {
        lemma_not_negative(samples.drop_last());
    }
}

/// One more sample adds itself to the successes, or nothing.
proof fn lemma_success_step(samples: Seq<RequestSample>)
    requires
        samples.len() > 0,
    ensures
        successes(samples) == if samples.last().success {
            successes(samples.drop_last()).push(samples.last())
        } else {
            successes(samples.drop_last())
        },
        prompt_total(successes(samples)) >= prompt_total(successes(samples.drop_last())),
        completion_total(successes(samples)) >= completion_total(successes(samples.drop_last())),
{
    reveal(Seq::filter);
    let before = successes(samples.drop_last());
    if samples.last().success {
        assert(successes(samples) =~= before.push(samples.last()));
        assert(before.push(samples.last()).drop_last() =~= before);
    }
}

/// Aggregates samples into a result. Only successes enter the figures: a
/// fast-failing server is not fast.
pub fn aggregate(
    metadata: RunMetadata,
    workload: &str,
    concurrency: usize,
    samples: &[RequestSample],
    wall_clock: u64,
) -> (r: BenchmarkResult)
    requires
        prompt_total(successes(samples@)) <= usize::MAX,
        completion_total(successes(samples@)) <= usize::MAX,
    ensures
        r.metadata == metadata,
        r.workload@ == workload@,
        r.concurrency == concurrency,
        r.total_requests == samples@.len(),
        r.successful_requests == successes(samples@).len(),
        r.failed_requests == samples@.len() - successes(samples@).len(),
        r.duration == wall_clock,
        r.total_prompt_tokens == prompt_total(successes(samples@)),
        r.total_completion_tokens == completion_total(successes(samples@)),
        summary(r.ttft, first_times(successes(samples@))),
        summary(r.tpot, token_times(successes(samples@))),
        if successes(samples@).len() == 0 {
            r.latency == no_latency()
        } else {
            r.latency.is_summary_of(total_times(successes(samples@)))
        },
{
    let mut firsts: Vec<u64> = Vec::new();
    let mut tokens: Vec<u64> = Vec::new();
    let mut totals: Vec<u64> = Vec::new();
    let mut prompt: usize = 0;
    let mut completion: usize = 0;
    let mut ok: usize = 0;
    let mut i: usize = 0;
    proof {
        assert(samples@.take(0) =~= Seq::<RequestSample>::empty());
        reveal(Seq::filter);
        assert(successes(samples@.take(0)) =~= Seq::<RequestSample>::empty());
    }
    while i < samples.len()
        invariant
            i <= samples@.len(),
            prompt_total(successes(samples@)) <= usize::MAX,
            completion_total(successes(samples@)) <= usize::MAX,
            ({
                let done = successes(samples@.take(i as int));
                &&& ok == done.len()
                &&& ok <= i
                &&& prompt == prompt_total(done)
                &&& completion == completion_total(done)
                &&& firsts@ == first_times(done)
                &&& tokens@ == token_times(done)
                &&& totals@ == total_times(done)
            }),
        decreases samples@.len() - i,
    {
        let s: RequestSample = samples[i];
        proof {
            assert(samples@.take(i + 1).drop_last() =~= samples@.take(i as int));
            assert(samples@.take(i + 1).last() == s);
            lemma_success_step(samples@.take(i + 1));
            lemma_totals(samples@, i + 1);
            let before = successes(samples@.take(i as int));
            assert(before.push(s).drop_last() =~= before);
        }
        if s.success {
            ok += 1;
            prompt = prompt + s.prompt_tokens;
            completion = completion + s.completion_tokens;
            match s.ttft {
                Some(t) => {
                    firsts.push(t);
                },
                None => {},
            }
            match s.tpot() {
                Some(t) => {
                    tokens.push(t);
                },
                None => {},
            }
            totals.push(s.total);
            proof {
                let done = successes(samples@.take(i + 1));
                assert(totals@ =~= total_times(done));
            }
        }
        i += 1;
    }
    proof {
        assert(samples@.take(samples@.len() as int) =~= samples@);
    }
    let latency = match Percentiles::from_nanos(&totals) {
        Some(p) => p,
        None => Percentiles { sum: 0, count: 0, p50: 0, p90: 0, p95: 0, p99: 0, min: 0, max: 0 },
    };
    BenchmarkResult {
        metadata,
        workload: owned(workload),
        concurrency,
        total_requests: samples.len(),
        successful_requests: ok,
        failed_requests: samples.len() - ok,
        duration: wall_clock,
        ttft: Percentiles::from_nanos(&firsts),
        tpot: Percentiles::from_nanos(&tokens),
        latency,
        total_prompt_tokens: prompt,
        total_completion_tokens: completion,
    }
}

impl BenchmarkResult {
    pub fn csv_header() -> (r: &'static str)
        ensures
            r@
                == "workload,concurrency,ok,failed,output_tokens,req_per_s,out_tok_per_s,ttft_p50_ms,ttft_p99_ms,tpot_p50_ms,latency_p50_ms,latency_p99_ms,gpu"@,
    {
        "workload,concurrency,ok,failed,output_tokens,req_per_s,out_tok_per_s,ttft_p50_ms,ttft_p99_ms,tpot_p50_ms,latency_p50_ms,latency_p99_ms,gpu"
    }
}

/// Every request is counted exactly once, as a success or as a failure, and a
/// failure changes none of the figures.
pub proof fn law_failures_are_counted_not_dropped(samples: Seq<RequestSample>, failure: RequestSample)
    requires
        !failure.success,
    ensures
        successes(samples).len() <= samples.len(),
        successes(samples.push(failure)) == successes(samples),
        samples.push(failure).len() - successes(samples.push(failure)).len() == samples.len()
            - successes(samples).len() + 1,
{
    assert(samples.push(failure).drop_last() =~= samples);
    lemma_success_step(samples.push(failure));
    lemma_fewer(samples);
}

proof fn lemma_fewer(samples: Seq<RequestSample>)
    ensures
        successes(samples).len() <= samples.len(),
    decreases samples.len(),
{
    if samples.len() > 0 {
        lemma_fewer(samples.drop_last());
        lemma_success_step(samples);
    } else {
        reveal(Seq::filter);
    }
}

} // verus!
