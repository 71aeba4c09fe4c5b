//! What is measured and how it is shown: metric names, bucket boundaries, the
//! log format.

pub mod names;

use crate::ratio::Ratio;
use crate::text::join3;
use crate::tokenizer::chars::char_vec;
use crate::tokenizer::template::same_text;
use vstd::prelude::*;
use vstd::string::*;

verus! {

/// Whether bucket boundaries ascend strictly.
pub open spec fn ascending(bounds: Seq<u64>) -> bool {
    forall|i: int, j: int|
        #![trigger bounds[i], bounds[j]]
        0 <= i < j < bounds.len() ==> bounds[i] < bounds[j]
}

/// The boundaries for latencies, in microseconds: 1 ms to 60 s. The dense
/// region between 10 ms and 1 s is where inference latencies sit.
pub open spec fn spec_latency_buckets() -> Seq<u64> {
    seq![
        1_000u64,
        5_000,
        10_000,
        25_000,
        50_000,
        100_000,
        250_000,
        500_000,
        1_000_000,
        2_500_000,
        5_000_000,
        10_000_000,
        30_000_000,
        60_000_000,
    ]
}

/// The boundaries for per-token latencies, in microseconds. Much tighter: the
/// difference between 5 ms and 50 ms is that between a good and an unusable
/// experience.
pub open spec fn spec_token_latency_buckets() -> Seq<u64> {
    seq![500u64, 1_000, 2_000, 5_000, 10_000, 20_000, 50_000, 100_000, 250_000, 500_000, 1_000_000]
}

/// The boundaries for batch sizes: powers of two.
pub open spec fn spec_batch_buckets() -> Seq<u64> {
    seq![1u64, 2, 4, 8, 16, 32, 64, 128, 256, 512]
}

/// The boundaries for the token count of a batch.
pub open spec fn spec_token_count_buckets() -> Seq<u64> {
    seq![1u64, 8, 32, 128, 512, 1024, 2048, 4096, 8192, 16384, 32768]
}

/// Latency boundaries, in microseconds.
pub fn latency_buckets() -> (r: Vec<u64>)
    ensures
        r@ == spec_latency_buckets(),
        ascending(r@),
{
    vec![
        1_000u64,
        5_000,
        10_000,
        25_000,
        50_000,
        100_000,
        250_000,
        500_000,
        1_000_000,
        2_500_000,
        5_000_000,
        10_000_000,
        30_000_000,
        60_000_000,
    ]
}

/// Per-token latency boundaries, in microseconds.
pub fn token_latency_buckets() -> (r: Vec<u64>)
    ensures
        r@ == spec_token_latency_buckets(),
        ascending(r@),
{
    vec![500u64, 1_000, 2_000, 5_000, 10_000, 20_000, 50_000, 100_000, 250_000, 500_000, 1_000_000]
}

/// Batch size boundaries.
pub fn batch_buckets() -> (r: Vec<u64>)
    ensures
        r@ == spec_batch_buckets(),
        ascending(r@),
{
    vec![1u64, 2, 4, 8, 16, 32, 64, 128, 256, 512]
}

/// Token-count boundaries.
pub fn token_count_buckets() -> (r: Vec<u64>)
    ensures
        r@ == spec_token_count_buckets(),
        ascending(r@),
{
    vec![1u64, 8, 32, 128, 512, 1024, 2048, 4096, 8192, 16384, 32768]
}

/// What the boundaries of a histogram count.
#[derive(Debug, Clone, Copy, PartialEq, Eq, Structural)]
pub enum Unit {
    Micros,
    Count,
}

/// A histogram with its boundaries.
#[derive(Debug)]
pub struct Histogram {
    pub name: &'static str,
    pub unit: Unit,
    pub bounds: Vec<u64>,
}

impl Histogram {
    pub open spec fn shows(self, name: Seq<char>, unit: Unit, bounds: Seq<u64>) -> bool {
        &&& self.name@ == name
        &&& self.unit == unit
        &&& self.bounds@ == bounds
    }
}

/// Every histogram that is recorded, with its boundaries: they belong to the
/// metric, not to whichever place happened to record it first.
pub fn histograms() -> (r: Vec<Histogram>)
    ensures
        r@.len() == 7,
        r@[0].shows(names::TIME_TO_FIRST_TOKEN@, Unit::Micros, spec_latency_buckets()),
        r@[1].shows(names::REQUEST_LATENCY@, Unit::Micros, spec_latency_buckets()),
        r@[2].shows(names::QUEUE_TIME@, Unit::Micros, spec_latency_buckets()),
        r@[3].shows(names::TIME_PER_OUTPUT_TOKEN@, Unit::Micros, spec_token_latency_buckets()),
        r@[4].shows(names::STEP_DURATION@, Unit::Micros, spec_token_latency_buckets()),
        r@[5].shows(names::BATCH_SIZE@, Unit::Count, spec_batch_buckets()),
        r@[6].shows(names::BATCH_TOKENS@, Unit::Count, spec_token_count_buckets()),
{
    vec![
        Histogram {
            name: names::TIME_TO_FIRST_TOKEN,
            unit: Unit::Micros,
            bounds: latency_buckets(),
        },
        Histogram {
            name: names::REQUEST_LATENCY,
            unit: Unit::Micros,
            bounds: latency_buckets(),
        },
        Histogram { name: names::QUEUE_TIME, unit: Unit::Micros, bounds: latency_buckets() },
        Histogram {
            name: names::TIME_PER_OUTPUT_TOKEN,
            unit: Unit::Micros,
            bounds: token_latency_buckets(),
        },
        Histogram {
            name: names::STEP_DURATION,
            unit: Unit::Micros,
            bounds: token_latency_buckets(),
        },
        Histogram { name: names::BATCH_SIZE, unit: Unit::Count, bounds: batch_buckets() },
        Histogram { name: names::BATCH_TOKENS, unit: Unit::Count, bounds: token_count_buckets() },
    ]
}

/// The share of the cache in use; zero before the cache is sized.
pub fn cache_usage(blocks_used: usize, blocks_free: usize) -> (r: Ratio)
    requires
        blocks_used + blocks_free <= usize::MAX,
    ensures
        r == Ratio::spec_of(blocks_used as u64, (blocks_used + blocks_free) as u64),
{
    let total: usize = blocks_used + blocks_free;
    Ratio::of(blocks_used as u64, total as u64)
}

/// How logs are formatted.
#[derive(Debug, Clone, Copy, PartialEq, Eq, Structural)]
pub enum LogFormat {
    /// Human-readable, for a terminal.
    Pretty,
    /// One JSON object per line, for log aggregation.
    Json,
}

/// A letter of the ASCII alphabet in lower case; every other character as it
/// is.
pub open spec fn lowered_char(c: char) -> char {
    if 'A' <= c <= 'Z' {
        (c as u8 + 32) as u8 as char
    } else {
        c
    }
}

/// A text with its ASCII letters in lower case.
pub open spec fn lowered(s: Seq<char>) -> Seq<char> {
    s.map_values(|c: char| lowered_char(c))
}

/// A text with its ASCII letters in lower case.
pub fn to_lower(s: &str) -> (r: String)
    ensures
        r@ == lowered(s@),
{
    let chars = char_vec(s);
    let mut out = String::new();
    let mut i: usize = 0;
    while i < chars.len()
        invariant
            i <= chars@.len(),
            chars@ == s@,
            out@ == lowered(s@.take(i as int)),
        decreases chars@.len() - i,
    {
        let c: char = chars[i];
        if 'A' <= c && c <= 'Z' {
            out.push((c as u8 + 32) as char);
        } else {
            out.push(c);
        }
        proof {
            assert(out@ =~= lowered(s@.take(i + 1)));
        }
        i += 1;
    }
    proof {
        assert(s@.take(s@.len() as int) =~= s@);
    }
    out
}

impl LogFormat {
    /// The format that a name stands for, in any case.
    pub open spec fn named(name: Seq<char>) -> Option<LogFormat> {
        if lowered(name) == "pretty"@ || lowered(name) == "text"@ {
            Some(LogFormat::Pretty)
        } else if lowered(name) == "json"@ {
            Some(LogFormat::Json)
        } else {
            None
        }
    }

    /// The format that a name stands for.
    pub fn parse(name: &str) -> (r: Result<LogFormat, String>)
        ensures
            match r {
                Ok(f) => Self::named(name@) == Some(f),
                Err(e) => Self::named(name@) is None && e@ == "unknown log format `"@ + lowered(
                    name@,
                ) + "`, expected `pretty` or `json`"@,
            },
    {
        let lower = to_lower(name);
        proof {
            reveal_strlit("pretty");
            reveal_strlit("text");
            reveal_strlit("json");
            assert("pretty"@.len() == 6);
            assert("json"@[0] != "text"@[0]);
        }
        if same_text(lower.as_str(), "pretty") || same_text(lower.as_str(), "text") {
            Ok(LogFormat::Pretty)
        } else if same_text(lower.as_str(), "json") {
            Ok(LogFormat::Json)
        } else {
            Err(join3("unknown log format `", lower.as_str(), "`, expected `pretty` or `json`"))
        }
    }
}

impl std::str::FromStr for LogFormat {
    type Err = String;

    fn from_str(s: &str) -> Result<Self, String> {
        LogFormat::parse(s)
    }
}

/// The boundaries of the histograms: latencies from a millisecond to a minute, times
/// per token from half a millisecond to a second, batch sizes in powers of two, and
/// batch tokens to 32768.
pub proof fn law_boundaries_of_histograms()
    ensures
        spec_latency_buckets() == seq![
            1_000u64,
            5_000,
            10_000,
            25_000,
            50_000,
            100_000,
            250_000,
            500_000,
            1_000_000,
            2_500_000,
            5_000_000,
            10_000_000,
            30_000_000,
            60_000_000,
        ],
        spec_token_latency_buckets() == seq![
            500u64,
            1_000,
            2_000,
            5_000,
            10_000,
            20_000,
            50_000,
            100_000,
            250_000,
            500_000,
            1_000_000,
        ],
        spec_batch_buckets().len() == 10,
        spec_batch_buckets()[0] == 1,
        forall|i: int|
            0 <= i < 9 ==> #[trigger] spec_batch_buckets()[i] * 2 == spec_batch_buckets()[i + 1],
        spec_token_count_buckets() == seq![
            1u64,
            8,
            32,
            128,
            512,
            1024,
            2048,
            4096,
            8192,
            16384,
            32768,
        ],
        ascending(spec_latency_buckets()),
        ascending(spec_token_latency_buckets()),
        ascending(spec_token_count_buckets()),
{
}

/// Lowering changes the letters from A to Z to those from a to z, and nothing else.
pub proof fn law_only_capital_letters_are_lowered(s: Seq<char>, i: int)
    requires
        0 <= i < s.len(),
    ensures
        lowered(s).len() == s.len(),
        'A' as int <= s[i] as int <= 'Z' as int ==> lowered(s)[i] as int == s[i] as int + 32,
        !('A' as int <= s[i] as int <= 'Z' as int) ==> lowered(s)[i] == s[i],
{
}

/// The names of the log formats.
pub proof fn law_log_formats_by_name(name: Seq<char>)
    ensures
        LogFormat::named(name) == Some(LogFormat::Pretty) <==> lowered(name) == "pretty"@ || lowered(
            name,
        ) == "text"@,
        LogFormat::named(name) == Some(LogFormat::Json) <==> lowered(name) == "json"@,
{
    reveal_strlit("pretty");
    reveal_strlit("text");
    reveal_strlit("json");
    assert("pretty"@.len() != "json"@.len());
    assert("text"@[0] != "json"@[0]);
}

/// The names under which the metrics are exported.
pub proof fn law_metric_names()
    ensures
        names::REQUESTS_TOTAL@ == "orion_requests_total"@,
        names::REQUEST_ERRORS_TOTAL@ == "orion_request_errors_total"@,
        names::TOKENS_GENERATED_TOTAL@ == "orion_tokens_generated_total"@,
        names::PROMPT_TOKENS_TOTAL@ == "orion_prompt_tokens_total"@,
        names::COMPLETION_TOKENS_TOTAL@ == "orion_completion_tokens_total"@,
        names::PREEMPTIONS_TOTAL@ == "orion_preemptions_total"@,
        names::PREFIX_CACHE_HITS_TOTAL@ == "orion_prefix_cache_hits_total"@,
        names::PREFIX_CACHE_MISSES_TOTAL@ == "orion_prefix_cache_misses_total"@,
        names::REQUESTS_RUNNING@ == "orion_requests_running"@,
        names::REQUESTS_WAITING@ == "orion_requests_waiting"@,
        names::KV_CACHE_USAGE_RATIO@ == "orion_kv_cache_usage_ratio"@,
        names::KV_CACHE_BLOCKS_USED@ == "orion_kv_cache_blocks_used"@,
        names::KV_CACHE_BLOCKS_FREE@ == "orion_kv_cache_blocks_free"@,
        names::TIME_TO_FIRST_TOKEN@ == "orion_time_to_first_token_seconds"@,
        names::TIME_PER_OUTPUT_TOKEN@ == "orion_time_per_output_token_seconds"@,
        names::REQUEST_LATENCY@ == "orion_request_latency_seconds"@,
        names::QUEUE_TIME@ == "orion_queue_time_seconds"@,
        names::BATCH_SIZE@ == "orion_batch_size"@,
        names::BATCH_TOKENS@ == "orion_batch_tokens"@,
        names::STEP_DURATION@ == "orion_step_duration_seconds"@,
{
}

/// A histogram has its own name, unit and boundaries.
pub proof fn law_histograms_have_their_boundaries(
    h: Histogram,
    name: Seq<char>,
    unit: Unit,
    bounds: Seq<u64>,
)
    ensures
        h.shows(name, unit, bounds) <==> h.name@ == name && h.unit == unit && h.bounds@ == bounds,
{
}

} // verus!
