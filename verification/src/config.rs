//! Engine configuration and its validation.
//!
//! Every knob an operator can turn lives here, with a default that is safe on
//! a small machine. [`EngineConfig::validate`] is the one place that decides
//! whether a configuration is legal, and it runs before any memory is
//! reserved.

use crate::error::ConfigError;
use crate::float::{Float32, WrittenFloat};
use crate::text::{decimal, join2, owned, push_count};
use vstd::arithmetic::power2::{lemma_pow2_pos, lemma_pow2_strictly_increases, lemma_pow2_unfold, pow2};
use vstd::prelude::*;
use vstd::string::*;

verus! {

/// KV cache sizing and layout.
#[derive(Debug, Clone, PartialEq, Eq)]
pub struct CacheConfig {
    /// Tokens per KV block. Smaller blocks waste less on the partially-filled
    /// last block of each sequence, but multiply block-table metadata.
    pub block_size: usize,
    /// Fraction of device memory the cache pool may claim, after weights.
    /// Only consulted when `num_blocks` is `None`.
    pub gpu_memory_utilization: WrittenFloat,
    /// Explicit block count, overriding the memory-fraction heuristic.
    pub num_blocks: Option<usize>,
    /// Reuse blocks whose token contents match a previously computed prefix.
    pub enable_prefix_caching: bool,
    /// Blocks to keep in the CPU swap pool for preempted sequences.
    /// `0` disables swapping.
    pub num_cpu_swap_blocks: usize,
}

/// The encoding of `0.9`.
pub const NINE_TENTHS: u32 = 0x3f66_6666;

impl Default for CacheConfig {
    fn default() -> (r: Self)
        ensures
            r.block_size == 16,
            r.gpu_memory_utilization.value.bits == NINE_TENTHS,
            r.gpu_memory_utilization.text@ == "0.9"@,
            r.num_blocks is None,
            r.enable_prefix_caching,
            r.num_cpu_swap_blocks == 0,
            r.complaint() is None,
    {
        proof {
            vstd::arithmetic::power2::lemma2_to64();
            assert(pow2(4) == 16);
        }
        CacheConfig {
            block_size: 16,
            gpu_memory_utilization: WrittenFloat {
                value: Float32 { bits: NINE_TENTHS },
                text: owned("0.9"),
            },
            num_blocks: None,
            enable_prefix_caching: true,
            num_cpu_swap_blocks: 0,
        }
    }
}

/// Whether `n` is a power of two.
pub open spec fn power_of_two(n: int) -> bool {
    exists|k: nat| #[trigger] pow2(k) == n
}

/// Whether `n` is a power of two.
fn is_power_of_two(n: usize) -> (r: bool)
    ensures
        r == power_of_two(n as int),
{
    let mut p: usize = 1;
    let ghost mut k: nat = 0;
    proof {
        vstd::arithmetic::power2::lemma2_to64();
        assert forall|j: nat| #[trigger] pow2(j) >= 1 by {
            lemma_pow2_pos(j);
        }
    }
    if n == 0 {
        return false;
    }
    while p < n
        invariant
            1 <= p,
            p == pow2(k),
            n >= 1,
            forall|j: nat| j < k ==> #[trigger] pow2(j) < n,
        ensures
            p == pow2(k),
            forall|j: nat| j < k ==> #[trigger] pow2(j) < n,
            p >= n || 2 * p > usize::MAX,
            p < n ==> forall|j: nat| j <= k ==> #[trigger] pow2(j) < n,
        decreases usize::MAX - p,
    {
        if p > usize::MAX / 2 {
            break;
        }
        proof {
            lemma_pow2_unfold(k + 1);
            k = k + 1;
        }
        p = p * 2;
    }
    proof {
        assert forall|j: nat| j > k implies #[trigger] pow2(j) >= 2 * p by {
            lemma_pow2_unfold(k + 1);
            if j > k + 1 {
                lemma_pow2_strictly_increases(k + 1, j);
            }
        }
        if p != n {
            assert forall|j: nat| #[trigger] pow2(j) != n by {
                if j == k {
                } else if j < k {
                } else {
                    assert(pow2(j) >= 2 * p);
                }
            }
        }
    }
    p == n
}

impl CacheConfig {
    /// Whether `e` reports the first rule this section breaks.
    pub open spec fn reports(&self, e: ConfigError) -> bool {
        match self.complaint() {
            Some(rule) => match rule {
                CacheRule::PowerOfTwo => e matches ConfigError::NotPowerOfTwo { field, value }
                    && field@ == "cache.block_size"@ && value == self.block_size,
                CacheRule::BlockRange => e matches ConfigError::OutOfRange { field, min, max, value }
                    && field@ == "cache.block_size"@ && min == 4 && max == 256 && value
                    == self.block_size,
                CacheRule::Utilization => e matches ConfigError::InvalidValue { field, reason }
                    && field@ == "cache.gpu_memory_utilization"@ && reason@
                    == "must be in (0.0, 1.0], got "@ + self.gpu_memory_utilization.text@,
                CacheRule::BlockCount => e matches ConfigError::InvalidValue { field, reason }
                    && field@ == "cache.num_blocks"@ && reason@
                    == "must be at least 1 when set explicitly"@,
            },
            None => false,
        }
    }

    /// The first rule this section breaks.
    pub open spec fn complaint(&self) -> Option<CacheRule> {
        let u = self.gpu_memory_utilization.value;
        if !power_of_two(self.block_size as int) {
            Some(CacheRule::PowerOfTwo)
        } else if !(4 <= self.block_size <= 256) {
            Some(CacheRule::BlockRange)
        } else if !u.finite() || !Float32::spec_zero().below(u) || Float32::spec_one().below(u) {
            Some(CacheRule::Utilization)
        } else if self.num_blocks == Some(0usize) {
            Some(CacheRule::BlockCount)
        } else {
            None
        }
    }

    pub fn validate(&self) -> (r: Result<(), ConfigError>)
        ensures
            match r {
                Ok(()) => self.complaint() is None,
                Err(e) => self.reports(e),
            },
            r is Ok <==> {
                &&& self.block_size == 4 || self.block_size == 8 || self.block_size == 16
                    || self.block_size == 32 || self.block_size == 64 || self.block_size == 128
                    || self.block_size == 256
                &&& 0 < self.gpu_memory_utilization.value.bits <= 0x3f80_0000
                &&& self.num_blocks matches Some(n) ==> n > 0
            },
    {
        proof {
            lemma_block_sizes(self.block_size as int);
        }
        if !is_power_of_two(self.block_size) {
            return Err(
                ConfigError::NotPowerOfTwo { field: "cache.block_size", value: self.block_size },
            );
        }
        // Above 256 the waste of the tail block dominates for short sequences;
        // below 4 the block table becomes larger than the data it indexes.
        if self.block_size < 4 || self.block_size > 256 {
            return Err(
                ConfigError::OutOfRange {
                    field: "cache.block_size",
                    min: 4,
                    max: 256,
                    value: self.block_size as u64,
                },
            );
        }
        let u = self.gpu_memory_utilization.value;
        if !u.is_finite() || !Float32::zero().lt(u) || Float32::one().lt(u) {
            return Err(
                ConfigError::InvalidValue {
                    field: "cache.gpu_memory_utilization",
                    reason: join2(
                        "must be in (0.0, 1.0], got ",
                        self.gpu_memory_utilization.text.as_str(),
                    ),
                },
            );
        }
        match self.num_blocks {
            Some(n) => {
                if n == 0 {
                    return Err(
                        ConfigError::InvalidValue {
                            field: "cache.num_blocks",
                            reason: owned("must be at least 1 when set explicitly"),
                        },
                    );
                }
            },
            None => {},
        }
        Ok(())
    }
}

/// What can be wrong with a cache section.
pub ghost enum CacheRule {
    PowerOfTwo,
    BlockRange,
    Utilization,
    BlockCount,
}

/// How preempted sequences give up their cache blocks.
#[derive(Debug, Clone, Copy, PartialEq, Eq, Structural)]
pub enum PreemptionMode {
    /// Drop the blocks and recompute the prefill on resumption.
    Recompute,
    /// Copy blocks to host memory and back.
    Swap,
}

/// Scheduler policy and batch budgets.
#[derive(Debug, Clone, Copy, PartialEq, Eq, Structural)]
pub struct SchedulerConfig {
    /// Maximum sequences resident in the running set.
    pub max_num_seqs: usize,
    /// Token budget for one engine step, across prefill and decode.
    pub max_num_batched_tokens: usize,
    /// Longest prompt+output the engine will accept.
    pub max_model_len: Option<usize>,
    /// Split long prefills into chunks that fit the token budget.
    pub enable_chunked_prefill: bool,
    /// Requests allowed to wait for admission before the engine sheds load.
    pub max_waiting_requests: usize,
    /// How preemption reclaims blocks.
    pub preemption_mode: PreemptionMode,
    /// Wall-clock budget for a request, queueing included.
    pub request_timeout_secs: Option<u64>,
    /// Bias toward decode over prefill when both are eligible.
    pub prioritize_decode: bool,
}

impl Default for SchedulerConfig {
    fn default() -> (r: Self)
        ensures
            r == (SchedulerConfig {
                max_num_seqs: 256,
                max_num_batched_tokens: 8192,
                max_model_len: None,
                enable_chunked_prefill: true,
                max_waiting_requests: 1024,
                preemption_mode: PreemptionMode::Recompute,
                request_timeout_secs: Some(300),
                prioritize_decode: true,
            }),
            r.complaint() is None,
    {
        SchedulerConfig {
            max_num_seqs: 256,
            max_num_batched_tokens: 8192,
            max_model_len: None,
            enable_chunked_prefill: true,
            max_waiting_requests: 1024,
            preemption_mode: PreemptionMode::Recompute,
            request_timeout_secs: Some(300),
            prioritize_decode: true,
        }
    }
}

/// What can be wrong with a scheduler or server section: a value that breaks a
/// rule of its field, a number outside its range, or two values that do not go
/// together.
pub ghost enum SectionRule {
    Invalid { field: Seq<char>, reason: Seq<char> },
    Range { field: Seq<char>, min: u64, max: u64, value: u64 },
    Together(Seq<char>),
}

/// Whether `e` reports that rule.
pub open spec fn reports_rule(e: ConfigError, rule: SectionRule) -> bool {
    match rule {
        SectionRule::Invalid { field, reason } => e matches ConfigError::InvalidValue {
            field: f,
            reason: r,
        } && f@ == field && r@ == reason,
        SectionRule::Range { field, min, max, value } => e matches ConfigError::OutOfRange {
            field: f,
            min: lo,
            max: hi,
            value: v,
        } && f@ == field && lo == min && hi == max && v == value,
        SectionRule::Together(detail) => e matches ConfigError::Inconsistent(d) && d@ == detail,
    }
}

fn invalid(field: &'static str, reason: &str) -> (e: ConfigError)
    ensures
        reports_rule(e, SectionRule::Invalid { field: field@, reason: reason@ }),
{
    ConfigError::InvalidValue { field, reason: owned(reason) }
}

impl SchedulerConfig {
    /// The first rule this section breaks.
    pub open spec fn complaint(&self) -> Option<SectionRule> {
        if self.max_num_seqs == 0 {
            Some(
                SectionRule::Invalid {
                    field: "scheduler.max_num_seqs"@,
                    reason: "must be at least 1"@,
                },
            )
        } else if self.max_num_batched_tokens == 0 {
            Some(
                SectionRule::Invalid {
                    field: "scheduler.max_num_batched_tokens"@,
                    reason: "must be at least 1"@,
                },
            )
        } else if self.max_num_batched_tokens < self.max_num_seqs {
            Some(
                SectionRule::Together(
                    "scheduler.max_num_batched_tokens ("@ + decimal(
                        self.max_num_batched_tokens as nat,
                    ) + ") is below scheduler.max_num_seqs ("@ + decimal(self.max_num_seqs as nat)
                        + "): a decode-only step could not give every running sequence one token"@,
                ),
            )
        } else if self.max_model_len == Some(0usize) {
            Some(
                SectionRule::Invalid {
                    field: "scheduler.max_model_len"@,
                    reason: "must be at least 1 when set"@,
                },
            )
        } else if self.max_model_len is Some && !self.enable_chunked_prefill
            && self.max_model_len->0 > self.max_num_batched_tokens {
            Some(
                SectionRule::Together(
                    "scheduler.max_model_len ("@ + decimal(self.max_model_len->0 as nat)
                        + ") exceeds scheduler.max_num_batched_tokens ("@ + decimal(
                        self.max_num_batched_tokens as nat,
                    )
                        + ") with chunked prefill disabled: a full-length prompt could never be scheduled"@,
                ),
            )
        } else if self.max_waiting_requests == 0 {
            Some(
                SectionRule::Invalid {
                    field: "scheduler.max_waiting_requests"@,
                    reason: "must be at least 1"@,
                },
            )
        } else if self.request_timeout_secs == Some(0u64) {
            Some(
                SectionRule::Invalid {
                    field: "scheduler.request_timeout_secs"@,
                    reason: "must be at least 1 second when set"@,
                },
            )
        } else {
            None
        }
    }

    pub fn validate(&self) -> (r: Result<(), ConfigError>)
        ensures
            match r {
                Ok(()) => self.complaint() is None,
                Err(e) => self.complaint() is Some && reports_rule(e, self.complaint()->0),
            },
            r is Ok <==> {
                &&& self.max_num_seqs > 0
                &&& self.max_num_batched_tokens >= self.max_num_seqs
                &&& self.max_model_len matches Some(n) ==> n > 0
                &&& !self.enable_chunked_prefill ==> (self.max_model_len matches Some(n) ==> n
                    <= self.max_num_batched_tokens)
                &&& self.max_waiting_requests > 0
                &&& self.request_timeout_secs matches Some(n) ==> n > 0
            },
    {
        if self.max_num_seqs == 0 {
            return Err(invalid("scheduler.max_num_seqs", "must be at least 1"));
        }
        if self.max_num_batched_tokens == 0 {
            return Err(invalid("scheduler.max_num_batched_tokens", "must be at least 1"));
        }
        if self.max_num_batched_tokens < self.max_num_seqs {
            let mut m = owned("scheduler.max_num_batched_tokens (");
            push_count(&mut m, self.max_num_batched_tokens);
            m.append(") is below scheduler.max_num_seqs (");
            push_count(&mut m, self.max_num_seqs);
            m.append("): a decode-only step could not give every running sequence one token");
            return Err(ConfigError::Inconsistent(m));
        }
        if let Some(len) = self.max_model_len {
            if len == 0 {
                return Err(invalid("scheduler.max_model_len", "must be at least 1 when set"));
            }
            if !self.enable_chunked_prefill && len > self.max_num_batched_tokens {
                let mut m = owned("scheduler.max_model_len (");
                push_count(&mut m, len);
                m.append(") exceeds scheduler.max_num_batched_tokens (");
                push_count(&mut m, self.max_num_batched_tokens);
                m.append(
                    ") with chunked prefill disabled: a full-length prompt could never be scheduled",
                );
                return Err(ConfigError::Inconsistent(m));
            }
        }
        if self.max_waiting_requests == 0 {
            return Err(invalid("scheduler.max_waiting_requests", "must be at least 1"));
        }
        if let Some(secs) = self.request_timeout_secs {
            if secs == 0 {
                return Err(
                    invalid("scheduler.request_timeout_secs", "must be at least 1 second when set"),
                );
            }
        }
        Ok(())
    }
}

/// HTTP server limits.
#[derive(Debug, Clone, PartialEq, Eq)]
pub struct ServerConfig {
    pub host: String,
    pub port: u16,
    /// Largest request body accepted, in bytes.
    pub max_request_bytes: usize,
    /// Concurrent in-flight HTTP requests, independent of the engine's own
    /// queue limit.
    pub max_concurrent_requests: usize,
    /// Grace period for in-flight requests during shutdown.
    pub shutdown_grace_secs: u64,
    /// Serve `/metrics` in Prometheus text format.
    pub enable_metrics: bool,
}

impl Default for ServerConfig {
    fn default() -> (r: Self)
        ensures
            r.host@ == "127.0.0.1"@,
            r.port == 8000,
            r.max_request_bytes == 4 * 1024 * 1024,
            r.max_concurrent_requests == 1024,
            r.shutdown_grace_secs == 30,
            r.enable_metrics,
            r.complaint() is None,
    {
        proof {
            reveal_strlit("127.0.0.1");
            assert("127.0.0.1"@[0] == '1');
            assert(!white_space("127.0.0.1"@[0]));
        }
        ServerConfig {
            host: owned("127.0.0.1"),
            port: 8000,
            max_request_bytes: 4 * 1024 * 1024,
            max_concurrent_requests: 1024,
            shutdown_grace_secs: 30,
            enable_metrics: true,
        }
    }
}

/// The characters that Unicode counts as white space.
pub open spec fn white_space(c: char) -> bool {
    ||| 0x9 <= c as u32 <= 0xd
    ||| c as u32 == 0x20
    ||| c as u32 == 0x85
    ||| c as u32 == 0xa0
    ||| c as u32 == 0x1680
    ||| 0x2000 <= c as u32 <= 0x200a
    ||| c as u32 == 0x2028
    ||| c as u32 == 0x2029
    ||| c as u32 == 0x202f
    ||| c as u32 == 0x205f
    ||| c as u32 == 0x3000
}

/// Whether Unicode counts the character as white space.
pub fn is_white_space(c: char) -> (r: bool)
    ensures
        r == white_space(c),
{
    let n: u32 = c as u32;
    (0x9 <= n && n <= 0xd) || n == 0x20 || n == 0x85 || n == 0xa0 || n == 0x1680 || (0x2000 <= n
        && n <= 0x200a) || n == 0x2028 || n == 0x2029 || n == 0x202f || n == 0x205f || n == 0x3000
}

/// Whether a text is nothing but white space.
pub open spec fn blank(s: Seq<char>) -> bool {
    forall|i: int| 0 <= i < s.len() ==> white_space(#[trigger] s[i])
}

/// Whether a text is nothing but white space.
pub fn is_blank(s: &str) -> (r: bool)
    ensures
        r == blank(s@),
{
    let n: usize = s.unicode_len();
    let mut i: usize = 0;
    while i < n
        invariant
            n == s@.len(),
            i <= n,
            forall|k: int| 0 <= k < i ==> white_space(#[trigger] s@[k]),
        decreases n - i,
    {
        if !is_white_space(s.get_char(i)) {
            assert(!white_space(s@[i as int]));
            return false;
        }
        i += 1;
    }
    true
}

impl ServerConfig {
    /// The first rule this section breaks.
    pub open spec fn complaint(&self) -> Option<SectionRule> {
        if blank(self.host@) {
            Some(SectionRule::Invalid { field: "server.host"@, reason: "must not be empty"@ })
        } else if self.port == 0 {
            Some(SectionRule::Invalid { field: "server.port"@, reason: "must not be 0"@ })
        } else if self.max_request_bytes < 1024 {
            Some(
                SectionRule::Range {
                    field: "server.max_request_bytes"@,
                    min: 1024,
                    max: u64::MAX,
                    value: self.max_request_bytes as u64,
                },
            )
        } else if self.max_concurrent_requests == 0 {
            Some(
                SectionRule::Invalid {
                    field: "server.max_concurrent_requests"@,
                    reason: "must be at least 1"@,
                },
            )
        } else {
            None
        }
    }

    pub fn validate(&self) -> (r: Result<(), ConfigError>)
        ensures
            match r {
                Ok(()) => self.complaint() is None,
                Err(e) => self.complaint() is Some && reports_rule(e, self.complaint()->0),
            },
            r is Ok <==> {
                &&& exists|i: int|
                    0 <= i < self.host@.len() && !white_space(#[trigger] self.host@[i])
                &&& self.port > 0
                &&& self.max_request_bytes >= 1024
                &&& self.max_concurrent_requests > 0
            },
    {
        if is_blank(self.host.as_str()) {
            return Err(invalid("server.host", "must not be empty"));
        }
        if self.port == 0 {
            return Err(invalid("server.port", "must not be 0"));
        }
        if self.max_request_bytes < 1024 {
            return Err(
                ConfigError::OutOfRange {
                    field: "server.max_request_bytes",
                    min: 1024,
                    max: u64::MAX,
                    value: self.max_request_bytes as u64,
                },
            );
        }
        if self.max_concurrent_requests == 0 {
            return Err(invalid("server.max_concurrent_requests", "must be at least 1"));
        }
        Ok(())
    }
}

/// Top-level engine configuration.
#[derive(Debug, Clone, PartialEq, Eq)]
pub struct EngineConfig {
    pub cache: CacheConfig,
    pub scheduler: SchedulerConfig,
    pub server: ServerConfig,
}

impl Default for EngineConfig {
    fn default() -> (r: Self)
        ensures
            r.cache.block_size == 16,
            r.cache.num_blocks is None,
            r.cache.enable_prefix_caching,
            r.cache.num_cpu_swap_blocks == 0,
            r.scheduler.max_num_seqs == 256,
            r.scheduler.max_num_batched_tokens == 8192,
            r.scheduler.preemption_mode == PreemptionMode::Recompute,
            r.server.port == 8000,
            r.valid(),
    {
        EngineConfig {
            cache: CacheConfig::default(),
            scheduler: SchedulerConfig::default(),
            server: ServerConfig::default(),
        }
    }
}

impl EngineConfig {
    /// Whether swap preemption is asked for with nowhere to swap to.
    pub open spec fn swaps_nowhere(&self) -> bool {
        self.scheduler.preemption_mode == PreemptionMode::Swap && self.cache.num_cpu_swap_blocks
            == 0
    }

    /// Whether every section is legal and they go together.
    pub open spec fn valid(&self) -> bool {
        &&& self.cache.complaint() is None
        &&& self.scheduler.complaint() is None
        &&& self.server.complaint() is None
        &&& !self.swaps_nowhere()
    }

    /// Validates every section, plus the cross-section invariants that no
    /// single section can check on its own.
    pub fn validate(&self) -> (r: Result<(), ConfigError>)
        ensures
            match r {
                Ok(()) => self.valid(),
                Err(e) => if self.cache.complaint() is Some {
                    self.cache.reports(e)
                } else if self.scheduler.complaint() is Some {
                    reports_rule(e, self.scheduler.complaint()->0)
                } else if self.server.complaint() is Some {
                    reports_rule(e, self.server.complaint()->0)
                } else {
                    &&& self.swaps_nowhere()
                    &&& reports_rule(
                        e,
                        SectionRule::Together(
                            "scheduler.preemption_mode is `swap` but cache.num_cpu_swap_blocks is 0: there is nowhere to swap blocks to"@,
                        ),
                    )
                },
            },
    {
        self.cache.validate()?;
        self.scheduler.validate()?;
        self.server.validate()?;
        if self.scheduler.preemption_mode == PreemptionMode::Swap
            && self.cache.num_cpu_swap_blocks == 0 {
            return Err(
                ConfigError::Inconsistent(
                    owned(
                        "scheduler.preemption_mode is `swap` but cache.num_cpu_swap_blocks is 0: there is nowhere to swap blocks to",
                    ),
                ),
            );
        }
        Ok(())
    }
}

/// A scheduler section that passes leaves room for every running sequence in
/// one step, and, without chunked prefill, for a full-length prompt.
pub proof fn law_valid_budgets_are_sufficient(c: SchedulerConfig)
    requires
        c.complaint() is None,
    ensures
        1 <= c.max_num_seqs <= c.max_num_batched_tokens,
        c.max_model_len is Some && !c.enable_chunked_prefill ==> c.max_model_len->0
            <= c.max_num_batched_tokens,
{
}

/// A cache section that passes has a block size from 4 to 256 that is a power
/// of two.
pub proof fn law_valid_block_size(c: CacheConfig)
    requires
        c.complaint() is None,
    ensures
        4 <= c.block_size <= 256,
        power_of_two(c.block_size as int),
{
}

/// The powers of two from 4 to 256.
proof fn lemma_block_sizes(n: int)
    ensures
        power_of_two(n) && 4 <= n <= 256 <==> n == 4 || n == 8 || n == 16 || n == 32 || n == 64 || n
            == 128 || n == 256,
{
    vstd::arithmetic::power2::lemma2_to64();
    assert(pow2(2) == 4 && pow2(3) == 8 && pow2(4) == 16 && pow2(5) == 32 && pow2(6) == 64 && pow2(
        7,
    ) == 128 && pow2(8) == 256);
    if power_of_two(n) && 4 <= n <= 256 {
        let k = choose|k: nat| #[trigger] pow2(k) == n;
        if k > 8 {
            vstd::arithmetic::power2::lemma_pow2_strictly_increases(8, k);
        }
        assert(k <= 8);
        assert(pow2(0) == 1 && pow2(1) == 2);
    }
}

/// What is refused names its field: of the cache, the block size, the share of
/// memory and the number of blocks.
pub proof fn law_cache_refusals_name_their_field(c: CacheConfig, e: ConfigError)
    requires
        c.reports(e),
    ensures
        !(e is Inconsistent),
        e matches ConfigError::NotPowerOfTwo { field, value } ==> field@ == "cache.block_size"@
            && value == c.block_size,
        e matches ConfigError::OutOfRange { field, min, max, value } ==> field@
            == "cache.block_size"@ && min == 4 && max == 256 && value == c.block_size && !(4
            <= c.block_size <= 256),
        c.block_size == 16 && !(0 < c.gpu_memory_utilization.value.bits <= 0x3f80_0000) ==> (
        e matches ConfigError::InvalidValue { field, reason } && field@
            == "cache.gpu_memory_utilization"@ && reason@ == "must be in (0.0, 1.0], got "@
            + c.gpu_memory_utilization.text@),
        c.block_size == 16 && 0 < c.gpu_memory_utilization.value.bits <= 0x3f80_0000 ==> (
        e matches ConfigError::InvalidValue { field, reason } && field@ == "cache.num_blocks"@
            && reason@ == "must be at least 1 when set explicitly"@),
{
    lemma_block_sizes(c.block_size as int);
}

/// What is refused of a scheduler section, and how.
pub proof fn law_scheduler_refusals_name_their_field(c: SchedulerConfig)
    ensures
        c.max_num_seqs == 0 ==> c.complaint() == Some(
            SectionRule::Invalid {
                field: "scheduler.max_num_seqs"@,
                reason: "must be at least 1"@,
            },
        ),
        c.max_num_seqs > 0 && c.max_num_batched_tokens == 0 ==> c.complaint() == Some(
            SectionRule::Invalid {
                field: "scheduler.max_num_batched_tokens"@,
                reason: "must be at least 1"@,
            },
        ),
        0 < c.max_num_batched_tokens < c.max_num_seqs ==> (c.complaint() matches Some(rule)
            && rule is Together),
        0 < c.max_num_seqs <= c.max_num_batched_tokens ==> {
            &&& c.max_model_len == Some(0usize) ==> c.complaint() == Some(
                SectionRule::Invalid {
                    field: "scheduler.max_model_len"@,
                    reason: "must be at least 1 when set"@,
                },
            )
            &&& c.max_model_len is None && c.max_waiting_requests == 0 ==> c.complaint() == Some(
                SectionRule::Invalid {
                    field: "scheduler.max_waiting_requests"@,
                    reason: "must be at least 1"@,
                },
            )
            &&& c.max_model_len is None && c.max_waiting_requests > 0 && c.request_timeout_secs
                == Some(0u64) ==> c.complaint() == Some(
                SectionRule::Invalid {
                    field: "scheduler.request_timeout_secs"@,
                    reason: "must be at least 1 second when set"@,
                },
            )
        },
{
}

/// A whole configuration is valid exactly where its sections are and swapping has
/// somewhere to go.
pub proof fn law_valid_configurations(c: EngineConfig)
    ensures
        c.valid() <==> {
            &&& c.cache.complaint() is None
            &&& c.scheduler.complaint() is None
            &&& c.server.complaint() is None
            &&& c.scheduler.preemption_mode is Recompute || c.cache.num_cpu_swap_blocks > 0
        },
{
}

/// White space is the tab, the line breaks, the spaces of every width, and nothing
/// else.
pub proof fn law_white_space_characters(c: char)
    ensures
        white_space(c) <==> {
            let n = c as u32;
            n == 9 || n == 10 || n == 11 || n == 12 || n == 13 || n == 32 || n == 133 || n == 160
                || n == 5760 || (8192 <= n && n <= 8202) || n == 8232 || n == 8233 || n == 8239 || n
                == 8287 || n == 12288
        },
{
}

/// A text is blank exactly where it has no character but white space.
pub proof fn law_blank_texts(s: Seq<char>, i: int)
    ensures
        s.len() == 0 ==> blank(s),
        0 <= i < s.len() && !white_space(s[i]) ==> !blank(s),
        0 <= i < s.len() && blank(s) ==> white_space(s[i]),
{
}

/// The share of memory that is claimed where none is set: nine tenths.
pub proof fn law_the_default_share_is_nine_tenths()
    ensures
        NINE_TENTHS == 0x3f66_6666,
{
}

} // verus!
