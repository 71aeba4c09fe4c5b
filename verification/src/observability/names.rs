//! Metric names, defined once so that the exporter and the recording sites
//! cannot drift apart.

use vstd::prelude::*;

verus! {

// Counters
pub const REQUESTS_TOTAL: &'static str = "orion_requests_total";
pub const REQUEST_ERRORS_TOTAL: &'static str = "orion_request_errors_total";
pub const TOKENS_GENERATED_TOTAL: &'static str = "orion_tokens_generated_total";
pub const PROMPT_TOKENS_TOTAL: &'static str = "orion_prompt_tokens_total";
pub const COMPLETION_TOKENS_TOTAL: &'static str = "orion_completion_tokens_total";
pub const PREEMPTIONS_TOTAL: &'static str = "orion_preemptions_total";
pub const PREFIX_CACHE_HITS_TOTAL: &'static str = "orion_prefix_cache_hits_total";
pub const PREFIX_CACHE_MISSES_TOTAL: &'static str = "orion_prefix_cache_misses_total";

// Gauges
pub const REQUESTS_RUNNING: &'static str = "orion_requests_running";
pub const REQUESTS_WAITING: &'static str = "orion_requests_waiting";
pub const KV_CACHE_USAGE_RATIO: &'static str = "orion_kv_cache_usage_ratio";
pub const KV_CACHE_BLOCKS_USED: &'static str = "orion_kv_cache_blocks_used";
pub const KV_CACHE_BLOCKS_FREE: &'static str = "orion_kv_cache_blocks_free";

// Histograms
pub const TIME_TO_FIRST_TOKEN: &'static str = "orion_time_to_first_token_seconds";
pub const TIME_PER_OUTPUT_TOKEN: &'static str = "orion_time_per_output_token_seconds";
pub const REQUEST_LATENCY: &'static str = "orion_request_latency_seconds";
pub const QUEUE_TIME: &'static str = "orion_queue_time_seconds";
pub const BATCH_SIZE: &'static str = "orion_batch_size";
pub const BATCH_TOKENS: &'static str = "orion_batch_tokens";
pub const STEP_DURATION: &'static str = "orion_step_duration_seconds";

} // verus!
