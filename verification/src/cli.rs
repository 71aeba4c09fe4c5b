//! What the command line decides: the configuration that its options stand
//! for, and how a model is described.

use crate::config::{CacheConfig, EngineConfig, PreemptionMode, SchedulerConfig, ServerConfig};
use crate::models::config::Architecture;
use crate::text::{bracketed, decimal, owned, push_count, push_list};
use crate::traits::ModelMetadata;
use vstd::prelude::*;
use vstd::string::*;

verus! {

/// The options of the `serve` command that configure the engine.
#[derive(Debug)]
pub struct ServeOptions {
    pub host: String,
    pub port: u16,
    pub num_blocks: usize,
    pub block_size: usize,
    pub max_num_seqs: usize,
    pub max_num_batched_tokens: usize,
    pub max_model_len: Option<usize>,
    pub no_prefix_caching: bool,
    pub no_chunked_prefill: bool,
}

impl ServeOptions {
    /// The configuration that the options stand for. What no option states
    /// keeps its default.
    pub fn engine_config(&self) -> (r: EngineConfig)
        ensures
            r.cache.block_size == self.block_size,
            r.cache.num_blocks == Some(self.num_blocks),
            r.cache.enable_prefix_caching == !self.no_prefix_caching,
            r.cache.gpu_memory_utilization.text@ == "0.9"@,
            r.cache.num_cpu_swap_blocks == 0,
            r.scheduler == (SchedulerConfig {
                max_num_seqs: self.max_num_seqs,
                max_num_batched_tokens: self.max_num_batched_tokens,
                max_model_len: self.max_model_len,
                enable_chunked_prefill: !self.no_chunked_prefill,
                max_waiting_requests: 1024,
                preemption_mode: PreemptionMode::Recompute,
                request_timeout_secs: Some(300),
                prioritize_decode: true,
            }),
            r.server.host@ == self.host@,
            r.server.port == self.port,
            r.server.max_request_bytes == 4 * 1024 * 1024,
            r.server.max_concurrent_requests == 1024,
            r.server.shutdown_grace_secs == 30,
            r.server.enable_metrics,
    {
        let mut cache = CacheConfig::default();
        cache.block_size = self.block_size;
        cache.num_blocks = Some(self.num_blocks);
        cache.enable_prefix_caching = !self.no_prefix_caching;
        let mut scheduler = SchedulerConfig::default();
        scheduler.max_num_seqs = self.max_num_seqs;
        scheduler.max_num_batched_tokens = self.max_num_batched_tokens;
        scheduler.max_model_len = self.max_model_len;
        scheduler.enable_chunked_prefill = !self.no_chunked_prefill;
        let mut server = ServerConfig::default();
        server.host = owned(self.host.as_str());
        server.port = self.port;
        EngineConfig { cache, scheduler, server }
    }

    /// The scheduler's configuration once the model is known: the model's own
    /// context length bounds requests unless the operator set one.
    pub fn scheduler_config(&self, config: &EngineConfig, model_len: usize) -> (r: SchedulerConfig)
        ensures
            r == (SchedulerConfig {
                max_model_len: Some(
                    match self.max_model_len {
                        Some(n) => n,
                        None => model_len,
                    },
                ),
                ..config.scheduler
            }),
    {
        let mut scheduler = config.scheduler;
        scheduler.max_model_len = Some(
            match self.max_model_len {
                Some(n) => n,
                None => model_len,
            },
        );
        scheduler
    }
}

/// Ids as counts, for showing them.
pub open spec fn widened(ids: Seq<u32>) -> Seq<usize> {
    ids.map_values(|t: u32| t as usize)
}

/// How the KV heads are shared.
pub open spec fn grouping(m: ModelMetadata) -> Seq<char> {
    if m.num_kv_heads < m.num_attention_heads {
        "GQA, "@ + decimal(
            if m.num_kv_heads == 0 {
                0
            } else {
                (m.num_attention_heads as int / m.num_kv_heads as int) as nat
            },
        ) + "x grouping"@
    } else {
        "MHA"@
    }
}

/// The description of a model.
pub open spec fn description(m: ModelMetadata, arch: Architecture) -> Seq<char> {
    "architecture:      "@ + m.architecture@ + " ("@ + arch.label() + ")\n"@
        + "hidden size:       "@ + decimal(m.hidden_size as nat) + "\n"@ + "layers:            "@
        + decimal(m.num_layers as nat) + "\n"@ + "attention heads:   "@ + decimal(
        m.num_attention_heads as nat,
    ) + "\n"@ + "kv heads:          "@ + decimal(m.num_kv_heads as nat) + " ("@ + grouping(m)
        + ")\n"@ + "head dim:          "@ + decimal(m.head_dim as nat) + "\n"@
        + "vocab size:        "@ + decimal(m.vocab_size as nat) + "\n"@ + "max positions:     "@
        + decimal(m.max_position_embeddings as nat) + "\n"@ + "dtype:             "@
        + m.dtype.label() + "\n"@ + "eos token ids:     "@ + bracketed(
        widened(m.eos_token_ids@),
    ) + "\n"@
}

/// Describes a model, one line for each fact.
pub fn describe(m: &ModelMetadata, arch: Architecture) -> (r: String)
    ensures
        r@ == description(*m, arch),
{
    let mut ids: Vec<usize> = Vec::new();
    let mut i: usize = 0;
    while i < m.eos_token_ids.len()
        invariant
            i <= m.eos_token_ids@.len(),
            ids@ == widened(m.eos_token_ids@.take(i as int)),
        decreases m.eos_token_ids@.len() - i,
    {
        ids.push(m.eos_token_ids[i] as usize);
        proof {
            assert(ids@ =~= widened(m.eos_token_ids@.take(i + 1)));
        }
        i += 1;
    }
    proof {
        assert(m.eos_token_ids@.take(m.eos_token_ids@.len() as int) =~= m.eos_token_ids@);
    }
    let mut shared = owned("MHA");
    if m.uses_gqa() {
        shared = owned("GQA, ");
        push_count(&mut shared, m.gqa_group_size());
        shared.append("x grouping");
    }
    let mut out = owned("architecture:      ");
    out.append(m.architecture.as_str());
    out.append(" (");
    out.append(arch.as_str());
    out.append(")\n");
    out.append("hidden size:       ");
    push_count(&mut out, m.hidden_size);
    out.append("\n");
    out.append("layers:            ");
    push_count(&mut out, m.num_layers);
    out.append("\n");
    out.append("attention heads:   ");
    push_count(&mut out, m.num_attention_heads);
    out.append("\n");
    out.append("kv heads:          ");
    push_count(&mut out, m.num_kv_heads);
    out.append(" (");
    out.append(shared.as_str());
    out.append(")\n");
    out.append("head dim:          ");
    push_count(&mut out, m.head_dim);
    out.append("\n");
    out.append("vocab size:        ");
    push_count(&mut out, m.vocab_size);
    out.append("\n");
    out.append("max positions:     ");
    push_count(&mut out, m.max_position_embeddings);
    out.append("\n");
    out.append("dtype:             ");
    out.append(m.dtype.as_str());
    out.append("\n");
    out.append("eos token ids:     ");
    push_list(&mut out, &ids);
    out.append("\n");
    out
}

/// A description has a line for each fact of the model, with that fact on it, in
/// this order.
pub proof fn law_descriptions_state_each_fact(m: ModelMetadata, arch: Architecture)
    ensures
        description(m, arch) == "architecture:      "@ + m.architecture@ + " ("@ + arch.label()
            + ")\n"@ + "hidden size:       "@ + decimal(m.hidden_size as nat) + "\n"@
            + "layers:            "@ + decimal(m.num_layers as nat) + "\n"@ + "attention heads:   "@
            + decimal(m.num_attention_heads as nat) + "\n"@ + "kv heads:          "@ + decimal(
            m.num_kv_heads as nat,
        ) + " ("@ + grouping(m) + ")\n"@ + "head dim:          "@ + decimal(m.head_dim as nat)
            + "\n"@ + "vocab size:        "@ + decimal(m.vocab_size as nat) + "\n"@
            + "max positions:     "@ + decimal(m.max_position_embeddings as nat) + "\n"@
            + "dtype:             "@ + m.dtype.label() + "\n"@ + "eos token ids:     "@ + bracketed(
            widened(m.eos_token_ids@),
        ) + "\n"@,
        m.num_kv_heads < m.num_attention_heads && m.num_kv_heads > 0 ==> grouping(m) == "GQA, "@
            + decimal((m.num_attention_heads as int / m.num_kv_heads as int) as nat)
            + "x grouping"@,
        m.num_kv_heads >= m.num_attention_heads ==> grouping(m) == "MHA"@,
{
}

} // verus!
