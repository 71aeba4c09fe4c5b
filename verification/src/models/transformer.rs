//! The decoder-only transformer: which weights a model needs, and where each
//! row of a batch reads and writes.
//!
//! Tensor names follow the Hugging Face Llama convention, which Qwen2 also
//! uses:
//!
//! ```text
//! model.embed_tokens.weight
//! model.layers.{i}.input_layernorm.weight
//! model.layers.{i}.self_attn.{q,k,v,o}_proj.weight
//! model.layers.{i}.post_attention_layernorm.weight
//! model.layers.{i}.mlp.{gate,up,down}_proj.weight
//! model.norm.weight
//! lm_head.weight
//! ```

use crate::error::{EngineError, ModelError};
use crate::float::Float32;
use crate::id::{SequenceId, TokenId};
use crate::models::attention::{locate, located};
use crate::models::config::{Architecture, HfConfig};
use crate::models::loader::{loaded, met, need_failure, shard_of, CheckpointLoader, Need, Shard};
use crate::models::tensor::{Matrix, MatrixModel};
use crate::text::{decimal, owned, push_count};
use crate::traits::{lemma_total, total, ForwardBatch, ModelMetadata};
use vstd::prelude::*;
use vstd::string::*;

verus! {

/// The sizes that a model's weights have.
#[derive(Debug, Clone, Copy)]
pub struct Dimensions {
    pub vocab: usize,
    pub hidden: usize,
    pub ffn: usize,
    pub query: usize,
    pub key_value: usize,
    pub layers: usize,
}

impl Dimensions {
    /// The matrices of these sizes can be held.
    pub open spec fn fit(self) -> bool {
        &&& self.vocab * self.hidden <= usize::MAX
        &&& self.ffn * self.hidden <= usize::MAX
        &&& self.query * self.hidden <= usize::MAX
        &&& self.key_value * self.hidden <= usize::MAX
    }

    /// These are the sizes of the described model.
    pub open spec fn of(self, config: HfConfig, meta: ModelMetadata) -> bool {
        &&& self.vocab == meta.vocab_size
        &&& self.hidden == meta.hidden_size
        &&& self.ffn == match config.intermediate_size {
            Some(n) => n as int,
            None => 4 * config.hidden_size,
        }
        &&& self.query == meta.num_attention_heads * meta.head_dim
        &&& self.key_value == meta.num_kv_heads * meta.head_dim
        &&& self.layers == meta.num_layers
    }

    /// The sizes of the described model.
    pub fn from_config(config: &HfConfig, meta: &ModelMetadata) -> (r: Self)
        requires
            config.intermediate_size is None ==> 4 * config.hidden_size <= usize::MAX,
            meta.num_attention_heads * meta.head_dim <= usize::MAX,
            meta.num_kv_heads * meta.head_dim <= usize::MAX,
        ensures
            r.of(*config, *meta),
    {
        Dimensions {
            vocab: meta.vocab_size,
            hidden: meta.hidden_size,
            ffn: config.ffn_dim(),
            query: meta.num_attention_heads * meta.head_dim,
            key_value: meta.num_kv_heads * meta.head_dim,
            layers: meta.num_layers,
        }
    }
}

/// Weights for one transformer block.
#[derive(Debug)]
pub struct LayerWeights {
    pub input_norm: Vec<Float32>,
    pub q_proj: Matrix<Float32>,
    pub k_proj: Matrix<Float32>,
    pub v_proj: Matrix<Float32>,
    pub o_proj: Matrix<Float32>,
    pub q_bias: Option<Vec<Float32>>,
    pub k_bias: Option<Vec<Float32>>,
    pub v_bias: Option<Vec<Float32>>,
    pub post_attn_norm: Vec<Float32>,
    pub gate_proj: Matrix<Float32>,
    pub up_proj: Matrix<Float32>,
    pub down_proj: Matrix<Float32>,
}

/// All weights of a loaded model.
#[derive(Debug)]
pub struct ModelWeights {
    pub embed_tokens: Matrix<Float32>,
    pub layers: Vec<LayerWeights>,
    pub final_norm: Vec<Float32>,
    /// `None` when the LM head is tied to the embedding matrix.
    pub lm_head: Option<Matrix<Float32>>,
}

/// The name of a weight of a layer.
pub open spec fn layer_name(layer: int, suffix: Seq<char>) -> Seq<char> {
    "model.layers."@ + decimal(layer as nat) + suffix
}

fn name_in_layer(layer: usize, suffix: &str) -> (r: String)
    ensures
        r@ == layer_name(layer as int, suffix@),
{
    let mut r = owned("model.layers.");
    push_count(&mut r, layer);
    r.append(suffix);
    r
}

pub open spec fn matrix_need(name: Seq<char>, rows: usize, cols: usize) -> Need {
    Need { name, shape: seq![rows, cols], optional: false }
}

pub open spec fn vector_need(name: Seq<char>, len: usize) -> Need {
    Need { name, shape: seq![len], optional: false }
}

pub open spec fn bias_need(name: Seq<char>, len: usize) -> Need {
    Need { name, shape: seq![len], optional: true }
}

/// The biases that a layer may have.
pub open spec fn bias_needs(layer: int, d: Dimensions, arch: Architecture) -> Seq<Need> {
    if arch is Qwen2 {
        seq![
            bias_need(layer_name(layer, ".self_attn.q_proj.bias"@), d.query),
            bias_need(layer_name(layer, ".self_attn.k_proj.bias"@), d.key_value),
            bias_need(layer_name(layer, ".self_attn.v_proj.bias"@), d.key_value),
        ]
    } else {
        Seq::empty()
    }
}

/// The weights that a layer must have.
pub open spec fn block_needs(layer: int, d: Dimensions) -> Seq<Need> {
    seq![
        vector_need(layer_name(layer, ".input_layernorm.weight"@), d.hidden),
        matrix_need(layer_name(layer, ".self_attn.q_proj.weight"@), d.query, d.hidden),
        matrix_need(layer_name(layer, ".self_attn.k_proj.weight"@), d.key_value, d.hidden),
        matrix_need(layer_name(layer, ".self_attn.v_proj.weight"@), d.key_value, d.hidden),
        matrix_need(layer_name(layer, ".self_attn.o_proj.weight"@), d.hidden, d.query),
        vector_need(layer_name(layer, ".post_attention_layernorm.weight"@), d.hidden),
        matrix_need(layer_name(layer, ".mlp.gate_proj.weight"@), d.ffn, d.hidden),
        matrix_need(layer_name(layer, ".mlp.up_proj.weight"@), d.ffn, d.hidden),
        matrix_need(layer_name(layer, ".mlp.down_proj.weight"@), d.hidden, d.ffn),
    ]
}

/// What one layer needs, in the order in which it is looked for.
pub open spec fn layer_needs(layer: int, d: Dimensions, arch: Architecture) -> Seq<Need> {
    bias_needs(layer, d, arch) + block_needs(layer, d)
}

/// What the first `n` layers need.
pub open spec fn layers_need(n: int, d: Dimensions, arch: Architecture) -> Seq<Need>
    decreases n,
{
    if n <= 0 {
        Seq::empty()
    } else {
        layers_need(n - 1, d, arch) + layer_needs(n - 1, d, arch)
    }
}

/// Whether the model has a head matrix of its own: unless it is tied to the
/// embedding, or the checkpoint holds none.
pub open spec fn has_head(shards: Seq<Shard<'_>>, config: HfConfig) -> bool {
    config.tie_word_embeddings != Some(true) && shard_of(shards, "lm_head.weight"@) is Some
}

/// What stands behind the layers.
pub open spec fn tail_needs(d: Dimensions, head: bool) -> Seq<Need> {
    let norm = vector_need("model.norm.weight"@, d.hidden);
    if head {
        seq![matrix_need("lm_head.weight"@, d.vocab, d.hidden), norm]
    } else {
        seq![norm]
    }
}

/// Everything that a model needs, in the order in which it is looked for.
pub open spec fn model_needs(d: Dimensions, arch: Architecture, head: bool) -> Seq<Need> {
    seq![matrix_need("model.embed_tokens.weight"@, d.vocab, d.hidden)] + layers_need(
        d.layers as int,
        d,
        arch,
    ) + tail_needs(d, head)
}

/// Whether a checkpoint meets all of some needs.
pub open spec fn all_met(shards: Seq<Shard<'_>>, needs: Seq<Need>) -> bool {
    forall|i: int| 0 <= i < needs.len() ==> met(shards, #[trigger] needs[i])
}

/// Whether the need with that number is the first that is not met, and the
/// error is its failure.
pub open spec fn fails_at(
    shards: Seq<Shard<'_>>,
    needs: Seq<Need>,
    at: int,
    e: ModelError,
) -> bool {
    &&& 0 <= at < needs.len()
    &&& forall|i: int| 0 <= i < at ==> met(shards, #[trigger] needs[i])
    &&& !met(shards, needs[at])
    &&& need_failure(shards, needs[at], e)
}

/// Whether the error is the failure of the first need that is not met.
pub open spec fn fails_first(shards: Seq<Shard<'_>>, needs: Seq<Need>, e: ModelError) -> bool {
    exists|at: int| fails_at(shards, needs, at, e)
}

proof fn lemma_fails_in_first(shards: Seq<Shard<'_>>, a: Seq<Need>, b: Seq<Need>, e: ModelError)
    requires
        fails_first(shards, a, e),
    ensures
        fails_first(shards, a + b, e),
{
    let at = choose|at: int| fails_at(shards, a, at, e);
    assert((a + b)[at] == a[at]);
    assert forall|i: int| 0 <= i < at implies met(shards, #[trigger] (a + b)[i]) by {
        assert((a + b)[i] == a[i]);
    }
    assert(fails_at(shards, a + b, at, e));
}

proof fn lemma_fails_in_second(shards: Seq<Shard<'_>>, a: Seq<Need>, b: Seq<Need>, e: ModelError)
    requires
        all_met(shards, a),
        fails_first(shards, b, e),
    ensures
        fails_first(shards, a + b, e),
{
    let at = choose|at: int| fails_at(shards, b, at, e);
    assert((a + b)[a.len() + at] == b[at]);
    assert forall|i: int| 0 <= i < a.len() + at implies met(shards, #[trigger] (a + b)[i]) by {
        if i < a.len() {
            assert((a + b)[i] == a[i]);
        } else {
            assert((a + b)[i] == b[i - a.len()]);
        }
    }
    assert(fails_at(shards, a + b, a.len() + at, e));
}

proof fn lemma_all_met(shards: Seq<Shard<'_>>, a: Seq<Need>, b: Seq<Need>)
    requires
        all_met(shards, a),
        all_met(shards, b),
    ensures
        all_met(shards, a + b),
{
    assert forall|i: int| 0 <= i < (a + b).len() implies met(shards, #[trigger] (a + b)[i]) by {
        if i < a.len() {
            assert((a + b)[i] == a[i]);
        } else {
            assert((a + b)[i] == b[i - a.len()]);
        }
    }
}

/// A failure among the first layers is a failure among them all.
proof fn lemma_layers_prefix(
    shards: Seq<Shard<'_>>,
    i: int,
    n: int,
    d: Dimensions,
    arch: Architecture,
    e: ModelError,
)
    requires
        0 <= i <= n,
        fails_first(shards, layers_need(i, d, arch), e),
    ensures
        fails_first(shards, layers_need(n, d, arch), e),
    decreases n - i,
{
    if i < n {
        lemma_fails_in_first(shards, layers_need(i, d, arch), layer_needs(i, d, arch), e);
        lemma_layers_prefix(shards, i + 1, n, d, arch, e);
    }
}

/// A weight matrix that was read from the checkpoint.
pub open spec fn is_matrix(
    shards: Seq<Shard<'_>>,
    name: Seq<char>,
    rows: usize,
    cols: usize,
    m: Matrix<Float32>,
) -> bool {
    &&& m.wf()
    &&& m@ == (MatrixModel {
        data: (loaded(shards, name)->0).values,
        rows: rows as int,
        cols: cols as int,
    })
}

/// A weight vector that was read from the checkpoint.
pub open spec fn is_vector(shards: Seq<Shard<'_>>, name: Seq<char>, v: Vec<Float32>) -> bool {
    v@ == (loaded(shards, name)->0).values
}

/// A bias that was read from the checkpoint, if it holds one.
pub open spec fn is_bias(shards: Seq<Shard<'_>>, name: Seq<char>, v: Option<Vec<Float32>>) -> bool {
    match v {
        None => shard_of(shards, name) is None,
        Some(v) => shard_of(shards, name) is Some && is_vector(shards, name, v),
    }
}

impl LayerWeights {
    /// These are the weights of that layer of the checkpoint.
    pub open spec fn read_from(
        self,
        shards: Seq<Shard<'_>>,
        i: int,
        d: Dimensions,
        arch: Architecture,
    ) -> bool {
        &&& is_vector(shards, layer_name(i, ".input_layernorm.weight"@), self.input_norm)
        &&& is_matrix(
            shards,
            layer_name(i, ".self_attn.q_proj.weight"@),
            d.query,
            d.hidden,
            self.q_proj,
        )
        &&& is_matrix(
            shards,
            layer_name(i, ".self_attn.k_proj.weight"@),
            d.key_value,
            d.hidden,
            self.k_proj,
        )
        &&& is_matrix(
            shards,
            layer_name(i, ".self_attn.v_proj.weight"@),
            d.key_value,
            d.hidden,
            self.v_proj,
        )
        &&& is_matrix(
            shards,
            layer_name(i, ".self_attn.o_proj.weight"@),
            d.hidden,
            d.query,
            self.o_proj,
        )
        &&& is_vector(
            shards,
            layer_name(i, ".post_attention_layernorm.weight"@),
            self.post_attn_norm,
        )
        &&& is_matrix(
            shards,
            layer_name(i, ".mlp.gate_proj.weight"@),
            d.ffn,
            d.hidden,
            self.gate_proj,
        )
        &&& is_matrix(
            shards,
            layer_name(i, ".mlp.up_proj.weight"@),
            d.ffn,
            d.hidden,
            self.up_proj,
        )
        &&& is_matrix(
            shards,
            layer_name(i, ".mlp.down_proj.weight"@),
            d.hidden,
            d.ffn,
            self.down_proj,
        )
        &&& if arch is Qwen2 {
            &&& is_bias(shards, layer_name(i, ".self_attn.q_proj.bias"@), self.q_bias)
            &&& is_bias(shards, layer_name(i, ".self_attn.k_proj.bias"@), self.k_bias)
            &&& is_bias(shards, layer_name(i, ".self_attn.v_proj.bias"@), self.v_bias)
        } else {
            self.q_bias is None && self.k_bias is None && self.v_bias is None
        }
    }
}

/// The biases of a layer.
struct Biases {
    q: Option<Vec<Float32>>,
    k: Option<Vec<Float32>>,
    v: Option<Vec<Float32>>,
}

fn load_biases(
    loader: &CheckpointLoader<'_>,
    layer: usize,
    d: Dimensions,
    arch: Architecture,
) -> (r: Result<Biases, ModelError>)
    requires
        loader.wf(),
    ensures
        ({
            let files = loader.files();
            let needs = bias_needs(layer as int, d, arch);
            match r {
                Ok(b) => {
                    &&& all_met(files, needs)
                    &&& if arch is Qwen2 {
                        &&& is_bias(files, layer_name(layer as int, ".self_attn.q_proj.bias"@), b.q)
                        &&& is_bias(files, layer_name(layer as int, ".self_attn.k_proj.bias"@), b.k)
                        &&& is_bias(files, layer_name(layer as int, ".self_attn.v_proj.bias"@), b.v)
                    } else {
                        b.q is None && b.k is None && b.v is None
                    }
                },
                Err(e) => fails_first(files, needs, e),
            }
        }),
{
    if !arch.has_qkv_bias() {
        return Ok(Biases { q: None, k: None, v: None });
    }
    let ghost files = loader.files();
    let ghost needs = bias_needs(layer as int, d, arch);
    let q = match loader.optional_vector(
        name_in_layer(layer, ".self_attn.q_proj.bias").as_str(),
        d.query,
    ) {
        Ok(q) => q,
        Err(e) => {
            proof {
                assert(fails_at(files, needs, 0, e));
            }
            return Err(e);
        },
    };
    assert(met(files, needs[0]));
    let k = match loader.optional_vector(
        name_in_layer(layer, ".self_attn.k_proj.bias").as_str(),
        d.key_value,
    ) {
        Ok(k) => k,
        Err(e) => {
            proof {
                assert(fails_at(files, needs, 1, e));
            }
            return Err(e);
        },
    };
    assert(met(files, needs[1]));
    let v = match loader.optional_vector(
        name_in_layer(layer, ".self_attn.v_proj.bias").as_str(),
        d.key_value,
    ) {
        Ok(v) => v,
        Err(e) => {
            proof {
                assert(fails_at(files, needs, 2, e));
            }
            return Err(e);
        },
    };
    assert(met(files, needs[2]));
    Ok(Biases { q, k, v })
}

impl LayerWeights {
    /// Loads the weights of one layer.
    #[verifier::rlimit(40)]
    pub fn load(
        loader: &CheckpointLoader<'_>,
        layer: usize,
        d: Dimensions,
        arch: Architecture,
    ) -> (r: Result<Self, ModelError>)
        requires
            loader.wf(),
            d.fit(),
        ensures
            match r {
                Ok(w) => all_met(loader.files(), layer_needs(layer as int, d, arch)) && w.read_from(
                    loader.files(),
                    layer as int,
                    d,
                    arch,
                ),
                Err(e) => fails_first(loader.files(), layer_needs(layer as int, d, arch), e),
            },
    {
        let ghost files = loader.files();
        let ghost biases = bias_needs(layer as int, d, arch);
        let ghost needs = block_needs(layer as int, d);
        let b = match load_biases(loader, layer, d, arch) {
            Ok(b) => b,
            Err(e) => {
                proof {
                    lemma_fails_in_first(files, biases, needs, e);
                }
                return Err(e);
            },
        };
        proof {
            assert(d.hidden * d.query == d.query * d.hidden) by (nonlinear_arith);
            assert(d.hidden * d.ffn == d.ffn * d.hidden) by (nonlinear_arith);
        }
        let input_norm = match loader.vector(
            name_in_layer(layer, ".input_layernorm.weight").as_str(),
            d.hidden,
        ) {
            Ok(v) => v,
            Err(e) => {
                proof {
                    assert(fails_at(files, needs, 0, e));
                    lemma_fails_in_second(files, biases, needs, e);
                }
                return Err(e);
            },
        };
        assert(met(files, needs[0]));
        let q_proj = match loader.matrix(
            name_in_layer(layer, ".self_attn.q_proj.weight").as_str(),
            d.query,
            d.hidden,
        ) {
            Ok(m) => m,
            Err(e) => {
                proof {
                    assert(fails_at(files, needs, 1, e));
                    lemma_fails_in_second(files, biases, needs, e);
                }
                return Err(e);
            },
        };
        assert(met(files, needs[1]));
        let k_proj = match loader.matrix(
            name_in_layer(layer, ".self_attn.k_proj.weight").as_str(),
            d.key_value,
            d.hidden,
        ) {
            Ok(m) => m,
            Err(e) => {
                proof {
                    assert(fails_at(files, needs, 2, e));
                    lemma_fails_in_second(files, biases, needs, e);
                }
                return Err(e);
            },
        };
        assert(met(files, needs[2]));
        let v_proj = match loader.matrix(
            name_in_layer(layer, ".self_attn.v_proj.weight").as_str(),
            d.key_value,
            d.hidden,
        ) {
            Ok(m) => m,
            Err(e) => {
                proof {
                    assert(fails_at(files, needs, 3, e));
                    lemma_fails_in_second(files, biases, needs, e);
                }
                return Err(e);
            },
        };
        assert(met(files, needs[3]));
        let o_proj = match loader.matrix(
            name_in_layer(layer, ".self_attn.o_proj.weight").as_str(),
            d.hidden,
            d.query,
        ) {
            Ok(m) => m,
            Err(e) => {
                proof {
                    assert(fails_at(files, needs, 4, e));
                    lemma_fails_in_second(files, biases, needs, e);
                }
                return Err(e);
            },
        };
        assert(met(files, needs[4]));
        let post_attn_norm = match loader.vector(
            name_in_layer(layer, ".post_attention_layernorm.weight").as_str(),
            d.hidden,
        ) {
            Ok(v) => v,
            Err(e) => {
                proof {
                    assert(fails_at(files, needs, 5, e));
                    lemma_fails_in_second(files, biases, needs, e);
                }
                return Err(e);
            },
        };
        assert(met(files, needs[5]));
        let gate_proj = match loader.matrix(
            name_in_layer(layer, ".mlp.gate_proj.weight").as_str(),
            d.ffn,
            d.hidden,
        ) {
            Ok(m) => m,
            Err(e) => {
                proof {
                    assert(fails_at(files, needs, 6, e));
                    lemma_fails_in_second(files, biases, needs, e);
                }
                return Err(e);
            },
        };
        assert(met(files, needs[6]));
        let up_proj = match loader.matrix(
            name_in_layer(layer, ".mlp.up_proj.weight").as_str(),
            d.ffn,
            d.hidden,
        ) {
            Ok(m) => m,
            Err(e) => {
                proof {
                    assert(fails_at(files, needs, 7, e));
                    lemma_fails_in_second(files, biases, needs, e);
                }
                return Err(e);
            },
        };
        assert(met(files, needs[7]));
        let down_proj = match loader.matrix(
            name_in_layer(layer, ".mlp.down_proj.weight").as_str(),
            d.hidden,
            d.ffn,
        ) {
            Ok(m) => m,
            Err(e) => {
                proof {
                    assert(fails_at(files, needs, 8, e));
                    lemma_fails_in_second(files, biases, needs, e);
                }
                return Err(e);
            },
        };
        assert(met(files, needs[8]));
        proof {
            assert(all_met(files, needs));
            lemma_all_met(files, biases, needs);
        }
        Ok(
            LayerWeights {
                input_norm,
                q_proj,
                k_proj,
                v_proj,
                o_proj,
                q_bias: b.q,
                k_bias: b.k,
                v_bias: b.v,
                post_attn_norm,
                gate_proj,
                up_proj,
                down_proj,
            },
        )
    }
}

impl ModelWeights {
    /// These are the weights of the model in the checkpoint.
    pub open spec fn read_from(
        self,
        shards: Seq<Shard<'_>>,
        d: Dimensions,
        arch: Architecture,
        head: bool,
    ) -> bool {
        &&& is_matrix(shards, "model.embed_tokens.weight"@, d.vocab, d.hidden, self.embed_tokens)
        &&& self.layers@.len() == d.layers
        &&& forall|i: int|
            0 <= i < d.layers ==> (#[trigger] self.layers@[i]).read_from(shards, i, d, arch)
        &&& is_vector(shards, "model.norm.weight"@, self.final_norm)
        &&& match self.lm_head {
            None => !head,
            Some(m) => head && is_matrix(shards, "lm_head.weight"@, d.vocab, d.hidden, m),
        }
    }

    /// Loads every weight named by the Llama/Qwen2 convention.
    ///
    /// A tied head reuses the embedding matrix; so does one that the checkpoint
    /// does not hold.
    pub fn load(
        loader: &CheckpointLoader<'_>,
        config: &HfConfig,
        d: Dimensions,
        arch: Architecture,
    ) -> (r: Result<Self, ModelError>)
        requires
            loader.wf(),
            d.fit(),
        ensures
            ({
                let files = loader.files();
                let head = has_head(files, *config);
                match r {
                    Ok(w) => all_met(files, model_needs(d, arch, head)) && w.read_from(
                        files,
                        d,
                        arch,
                        head,
                    ),
                    Err(e) => fails_first(files, model_needs(d, arch, head), e),
                }
            }),
    {
        let ghost files = loader.files();
        let ghost head = has_head(files, *config);
        let ghost first = seq![matrix_need("model.embed_tokens.weight"@, d.vocab, d.hidden)];
        let ghost middle = layers_need(d.layers as int, d, arch);
        let ghost tail = tail_needs(d, head);
        let embed_tokens = match loader.matrix("model.embed_tokens.weight", d.vocab, d.hidden) {
            Ok(m) => m,
            Err(e) => {
                proof {
                    assert(fails_at(files, first, 0, e));
                    lemma_fails_in_first(files, first, middle, e);
                    lemma_fails_in_first(files, first + middle, tail, e);
                }
                return Err(e);
            },
        };
        assert(met(files, first[0]));
        let mut layers: Vec<LayerWeights> = Vec::new();
        let mut i: usize = 0;
        while i < d.layers
            invariant
                i <= d.layers,
                loader.wf(),
                d.fit(),
                files == loader.files(),
                head == has_head(files, *config),
                first == seq![matrix_need("model.embed_tokens.weight"@, d.vocab, d.hidden)],
                middle == layers_need(d.layers as int, d, arch),
                tail == tail_needs(d, head),
                all_met(files, first),
                all_met(files, layers_need(i as int, d, arch)),
                layers@.len() == i,
                forall|k: int| 0 <= k < i ==> (#[trigger] layers@[k]).read_from(files, k, d, arch),
            decreases d.layers - i,
        {
            let ghost done = layers_need(i as int, d, arch);
            match LayerWeights::load(loader, i, d, arch) {
                Ok(w) => {
                    proof {
                        lemma_all_met(files, done, layer_needs(i as int, d, arch));
                    }
                    layers.push(w);
                },
                Err(e) => {
                    proof {
                        lemma_fails_in_second(files, done, layer_needs(i as int, d, arch), e);
                        assert(layers_need(i + 1, d, arch) == done + layer_needs(
                            i as int,
                            d,
                            arch,
                        ));
                        lemma_layers_prefix(files, i + 1, d.layers as int, d, arch, e);
                        lemma_fails_in_second(files, first, middle, e);
                        lemma_fails_in_first(files, first + middle, tail, e);
                    }
                    return Err(e);
                },
            }
            i += 1;
        }
        proof {
            lemma_all_met(files, first, middle);
        }
        let lm_head: Option<Matrix<Float32>> = if config.ties_embeddings() || !loader.contains(
            "lm_head.weight",
        ) {
            None
        } else {
            match loader.matrix("lm_head.weight", d.vocab, d.hidden) {
                Ok(m) => Some(m),
                Err(e) => {
                    proof {
                        assert(fails_at(files, tail, 0, e));
                        lemma_fails_in_second(files, first + middle, tail, e);
                    }
                    return Err(e);
                },
            }
        };
        proof {
            if head {
                assert(met(files, tail[0]));
            }
        }
        let final_norm = match loader.vector("model.norm.weight", d.hidden) {
            Ok(v) => v,
            Err(e) => {
                proof {
                    let last = if head {
                        1int
                    } else {
                        0
                    };
                    assert(fails_at(files, tail, last, e));
                    lemma_fails_in_second(files, first + middle, tail, e);
                }
                return Err(e);
            },
        };
        proof {
            assert(all_met(files, tail)) by {
                assert(met(files, tail[tail.len() - 1]));
            }
            lemma_all_met(files, first + middle, tail);
        }
        Ok(ModelWeights { embed_tokens, layers, final_norm, lm_head })
    }
}

/// The sequence that a row of a batch belongs to: the rows of the first
/// sequence come first, then those of the second.
pub open spec fn owner(counts: Seq<usize>, row: int) -> int
    decreases counts.len(),
{
    if counts.len() == 0 {
        -1
    } else if row >= total(counts.drop_last()) {
        counts.len() - 1
    } else {
        owner(counts.drop_last(), row)
    }
}

/// Every row below the total belongs to a sequence.
pub proof fn lemma_owner(counts: Seq<usize>, row: int)
    requires
        0 <= row < total(counts),
    ensures
        0 <= owner(counts, row) < counts.len(),
    decreases counts.len(),
{
    if counts.len() > 0 && row < total(counts.drop_last()) {
        lemma_owner(counts.drop_last(), row);
    }
}

/// A row belongs to the sequence whose rows it stands among: those from the
/// total of the counts before the sequence to the total with its own.
pub proof fn law_rows_belong_to_their_sequence(counts: Seq<usize>, row: int)
    requires
        0 <= row < total(counts),
    ensures
        ({
            let seq = owner(counts, row);
            &&& 0 <= seq < counts.len()
            &&& total(counts.take(seq)) <= row < total(counts.take(seq + 1))
        }),
    decreases counts.len(),
{
    lemma_owner(counts, row);
    let n = counts.len() as int;
    if row >= total(counts.drop_last()) {
        assert(counts.take(n - 1) =~= counts.drop_last());
        assert(counts.take(n) =~= counts);
    } else {
        law_rows_belong_to_their_sequence(counts.drop_last(), row);
        let seq = owner(counts.drop_last(), row);
        assert(counts.drop_last().take(seq) =~= counts.take(seq));
        assert(counts.drop_last().take(seq + 1) =~= counts.take(seq + 1));
    }
}

/// Where each row of a batch belongs and where its KV entry goes.
#[derive(Debug)]
pub struct RowPlan {
    pub seq_of_row: Vec<usize>,
    pub slots: Vec<(u32, usize)>,
}

/// The slot of a row, if its sequence's block table covers its position.
pub open spec fn row_slot(batch: ForwardBatch, row: int, block_size: int) -> Option<(u32, int)> {
    located(
        batch.block_tables@[owner(batch.slot_token_counts@, row)]@,
        batch.positions@[row] as int,
        block_size,
    )
}

/// Maps each flat row of a batch back to the sequence that contributed it.
fn owners(counts: &Vec<usize>) -> (r: Vec<usize>)
    requires
        total(counts@) <= usize::MAX,
    ensures
        r@.len() == total(counts@),
        forall|k: int| 0 <= k < r@.len() ==> #[trigger] r@[k] == owner(counts@, k),
{
    let mut out: Vec<usize> = Vec::new();
    let mut i: usize = 0;
    while i < counts.len()
        invariant
            i <= counts@.len(),
            total(counts@) <= usize::MAX,
            out@.len() == total(counts@.take(i as int)),
            forall|k: int|
                0 <= k < out@.len() ==> #[trigger] out@[k] == owner(counts@.take(i as int), k),
        decreases counts@.len() - i,
    {
        let count: usize = counts[i];
        let ghost next = counts@.take(i + 1);
        let ghost base = out@.len();
        proof {
            assert(next.drop_last() =~= counts@.take(i as int));
        }
        let mut j: usize = 0;
        while j < count
            invariant
                i < counts@.len(),
                j <= count,
                next == counts@.take(i + 1),
                next.drop_last() == counts@.take(i as int),
                base == total(counts@.take(i as int)),
                out@.len() == base + j,
                forall|k: int| 0 <= k < out@.len() ==> #[trigger] out@[k] == owner(next, k),
            decreases count - j,
        {
            out.push(i);
            j += 1;
        }
        i += 1;
    }
    proof {
        assert(counts@.take(counts@.len() as int) =~= counts@);
    }
    out
}

/// Resolves, for each row of a batch, the sequence it belongs to and the slot
/// its KV entry is written to.
pub fn plan_rows(batch: &ForwardBatch, block_size: usize) -> (r: Result<RowPlan, EngineError>)
    requires
        batch.arrays_agree() && batch.positions@.len() == batch.tokens@.len() ==> total(
            batch.slot_token_counts@,
        ) <= usize::MAX,
        block_size > 0,
    ensures
        match r {
            Ok(plan) => {
                &&& batch.consistent()
                &&& plan.seq_of_row@.len() == batch.tokens@.len()
                &&& plan.slots@.len() == batch.tokens@.len()
                &&& forall|row: int|
                    0 <= row < batch.tokens@.len() ==> #[trigger] plan.seq_of_row@[row] == owner(
                        batch.slot_token_counts@,
                        row,
                    )
                &&& forall|row: int|
                    0 <= row < batch.tokens@.len() ==> row_slot(*batch, row, block_size as int)
                        == Some(((#[trigger] plan.slots@[row]).0, plan.slots@[row].1 as int))
            },
            Err(e) => if !batch.consistent() {
                e.is_internal(batch.complaint())
            } else {
                exists|row: int|
                    {
                        &&& 0 <= row < batch.tokens@.len()
                        &&& (#[trigger] row_slot(*batch, row, block_size as int)) is None
                        &&& forall|k: int|
                            0 <= k < row ==> (#[trigger] row_slot(
                                *batch,
                                k,
                                block_size as int,
                            )) is Some
                        &&& e.is_internal(
                            "position "@ + decimal(batch.positions@[row] as nat)
                                + " has no block in the table for sequence "@ + decimal(
                                owner(batch.slot_token_counts@, row) as nat,
                            ),
                        )
                    }
            },
        },
{
    match batch.validate() {
        Ok(()) => {},
        Err(e) => {
            return Err(e);
        },
    }
    let seq_of_row = owners(&batch.slot_token_counts);
    let mut slots: Vec<(u32, usize)> = Vec::new();
    let mut row: usize = 0;
    while row < batch.positions.len()
        invariant
            batch.consistent(),
            block_size > 0,
            row <= batch.positions@.len(),
            seq_of_row@.len() == batch.tokens@.len(),
            forall|k: int|
                0 <= k < seq_of_row@.len() ==> #[trigger] seq_of_row@[k] == owner(
                    batch.slot_token_counts@,
                    k,
                ),
            slots@.len() == row,
            forall|k: int|
                0 <= k < row ==> (#[trigger] row_slot(*batch, k, block_size as int)) is Some,
            forall|k: int|
                0 <= k < row ==> row_slot(*batch, k, block_size as int) == Some(
                    ((#[trigger] slots@[k]).0, slots@[k].1 as int),
                ),
        decreases batch.positions@.len() - row,
    {
        let seq: usize = seq_of_row[row];
        proof {
            lemma_owner(batch.slot_token_counts@, row as int);
        }
        match locate(batch.block_tables[seq].as_slice(), batch.positions[row] as usize, block_size) {
            Some((block, slot)) => {
                proof {
                    assert(row_slot(*batch, row as int, block_size as int) is Some);
                }
                slots.push((block, slot));
            },
            None => {
                let mut m = owned("position ");
                push_count(&mut m, batch.positions[row] as usize);
                m.append(" has no block in the table for sequence ");
                push_count(&mut m, seq);
                proof {
                    assert(row_slot(*batch, row as int, block_size as int) is None);
                }
                return Err(EngineError::Internal(m));
            },
        }
        row += 1;
    }
    Ok(RowPlan { seq_of_row, slots })
}

/// The last row of each sequence, whose logits are wanted. Computing them for
/// every position of a long prefill would multiply the cost of the head by the
/// prompt length for output nobody reads.
pub fn last_rows(counts: &Vec<usize>) -> (r: Result<Vec<usize>, EngineError>)
    requires
        total(counts@) <= usize::MAX,
    ensures
        match r {
            Ok(rows) => {
                &&& rows@.len() == counts@.len()
                &&& forall|i: int| 0 <= i < counts@.len() ==> (#[trigger] counts@[i]) > 0
                &&& forall|i: int|
                    0 <= i < counts@.len() ==> #[trigger] rows@[i] == total(counts@.take(i + 1)) - 1
            },
            Err(e) => {
                &&& exists|i: int| 0 <= i < counts@.len() && #[trigger] counts@[i] == 0
                &&& e.is_internal("a scheduled sequence contributed zero tokens"@)
            },
        },
{
    let mut rows: Vec<usize> = Vec::new();
    let mut cursor: usize = 0;
    let mut i: usize = 0;
    while i < counts.len()
        invariant
            i <= counts@.len(),
            total(counts@) <= usize::MAX,
            cursor == total(counts@.take(i as int)),
            rows@.len() == i,
            forall|k: int| 0 <= k < i ==> (#[trigger] counts@[k]) > 0,
            forall|k: int|
                0 <= k < i ==> #[trigger] rows@[k] == total(counts@.take(k + 1)) - 1,
        decreases counts@.len() - i,
    {
        let count: usize = counts[i];
        if count == 0 {
            return Err(
                EngineError::Internal(owned("a scheduled sequence contributed zero tokens")),
            );
        }
        proof {
            assert(counts@.take(i + 1).drop_last() =~= counts@.take(i as int));
            lemma_total(counts@, i + 1);
        }
        cursor = cursor + count;
        rows.push(cursor - 1);
        i += 1;
    }
    Ok(rows)
}

/// The last row of a sequence is a row of that sequence, and the one after it
/// is not.
pub proof fn law_last_rows_are_last(counts: Seq<usize>, i: int)
    requires
        0 <= i < counts.len(),
        counts[i] > 0,
    ensures
        owner(counts, total(counts.take(i + 1)) - 1) == i,
        total(counts.take(i + 1)) < total(counts) ==> owner(counts, total(counts.take(i + 1))) != i,
    decreases counts.len(),
{
    let n = counts.len() as int;
    assert(counts.take(n) =~= counts);
    if i == n - 1 {
    } else {
        assert(counts.drop_last().take(i + 1) =~= counts.take(i + 1));
        lemma_total(counts.drop_last(), i + 1);
        law_last_rows_are_last(counts.drop_last(), i);
    }
}

/// Looks up the embedding rows for a batch of token ids.
pub fn embed<T: Copy>(table: &Matrix<T>, tokens: &[TokenId], vocab_size: usize) -> (r: Result<
    Matrix<T>,
    EngineError,
>)
    requires
        table.wf(),
        tokens@.len() * table@.cols <= usize::MAX,
    ensures
        match r {
            Ok(m) => {
                &&& m.wf()
                &&& m@.rows == tokens@.len()
                &&& m@.cols == table@.cols
                &&& forall|i: int|
                    0 <= i < tokens@.len() ==> (#[trigger] tokens@[i]) < table@.rows && m@.row(i)
                        == table@.row(tokens@[i] as int)
            },
            Err(e) => exists|i: int|
                {
                    &&& 0 <= i < tokens@.len()
                    &&& (#[trigger] tokens@[i]) >= table@.rows
                    &&& forall|k: int| 0 <= k < i ==> (#[trigger] tokens@[k]) < table@.rows
                    &&& e.is_internal(
                        "token id "@ + decimal(tokens@[i] as nat)
                            + " is outside the vocabulary of "@ + decimal(vocab_size as nat),
                    )
                },
        },
{
    let mut numbers: Vec<usize> = Vec::new();
    let mut i: usize = 0;
    while i < tokens.len()
        invariant
            i <= tokens@.len(),
            numbers@.len() == i,
            forall|k: int| 0 <= k < i ==> #[trigger] numbers@[k] == tokens@[k],
        decreases tokens@.len() - i,
    {
        numbers.push(tokens[i] as usize);
        i += 1;
    }
    match table.gather(numbers.as_slice()) {
        Ok(m) => {
            proof {
                assert forall|k: int| 0 <= k < tokens@.len() implies (#[trigger] tokens@[k])
                    < table@.rows && m@.row(k) == table@.row(tokens@[k] as int) by {
                    assert(numbers@[k] == tokens@[k]);
                }
            }
            Ok(m)
        },
        Err(at) => {
            proof {
                assert(numbers@[at as int] == tokens@[at as int]);
                assert forall|k: int| 0 <= k < at implies (#[trigger] tokens@[k]) < table@.rows by {
                    assert(numbers@[k] == tokens@[k]);
                }
            }
            let mut m = owned("token id ");
            push_count(&mut m, tokens[at] as usize);
            m.append(" is outside the vocabulary of ");
            push_count(&mut m, vocab_size);
            Err(EngineError::Internal(m))
        },
    }
}

/// Checks that a position has a row in the rotary tables.
pub fn check_position(position: usize, max_positions: usize) -> (r: Result<(), EngineError>)
    ensures
        match r {
            Ok(()) => position < max_positions,
            Err(e) => position >= max_positions && e.is_internal(
                "position "@ + decimal(position as nat) + " exceeds the RoPE table ("@ + decimal(
                    max_positions as nat,
                ) + " entries)"@,
            ),
        },
{
    if position >= max_positions {
        let mut m = owned("position ");
        push_count(&mut m, position);
        m.append(" exceeds the RoPE table (");
        push_count(&mut m, max_positions);
        m.append(" entries)");
        return Err(EngineError::Internal(m));
    }
    Ok(())
}

/// The ids `1` to `n`, for batches built by hand.
pub fn sequence_ids(n: usize) -> (r: Vec<SequenceId>)
    ensures
        r@.len() == n,
        forall|i: int| 0 <= i < n ==> (#[trigger] r@[i])@ == i + 1,
{
    let mut out: Vec<SequenceId> = Vec::new();
    let mut i: usize = 0;
    while i < n
        invariant
            i <= n,
            out@.len() == i,
            forall|k: int| 0 <= k < i ==> (#[trigger] out@[k])@ == k + 1,
        decreases n - i,
    {
        out.push(SequenceId::from_raw(i as u64 + 1));
        i += 1;
    }
    out
}

/// Each weight of a layer holds what the checkpoint has under that weight's own
/// name, in the shape of that weight.
pub proof fn law_each_layer_weight_has_its_tensor(
    w: LayerWeights,
    shards: Seq<Shard<'_>>,
    layer: int,
    d: Dimensions,
    arch: Architecture,
)
    requires
        w.read_from(shards, layer, d, arch),
    ensures
        w.input_norm@ == (loaded(
            shards,
            "model.layers."@ + decimal(layer as nat) + ".input_layernorm.weight"@,
        )->0).values,
        w.q_proj@.data == (loaded(
            shards,
            "model.layers."@ + decimal(layer as nat) + ".self_attn.q_proj.weight"@,
        )->0).values,
        w.q_proj@.rows == d.query && w.q_proj@.cols == d.hidden,
        w.k_proj@.data == (loaded(
            shards,
            "model.layers."@ + decimal(layer as nat) + ".self_attn.k_proj.weight"@,
        )->0).values,
        w.k_proj@.rows == d.key_value && w.k_proj@.cols == d.hidden,
        w.v_proj@.data == (loaded(
            shards,
            "model.layers."@ + decimal(layer as nat) + ".self_attn.v_proj.weight"@,
        )->0).values,
        w.v_proj@.rows == d.key_value && w.v_proj@.cols == d.hidden,
        w.o_proj@.data == (loaded(
            shards,
            "model.layers."@ + decimal(layer as nat) + ".self_attn.o_proj.weight"@,
        )->0).values,
        w.o_proj@.rows == d.hidden && w.o_proj@.cols == d.query,
        w.post_attn_norm@ == (loaded(
            shards,
            "model.layers."@ + decimal(layer as nat) + ".post_attention_layernorm.weight"@,
        )->0).values,
        w.gate_proj@.data == (loaded(
            shards,
            "model.layers."@ + decimal(layer as nat) + ".mlp.gate_proj.weight"@,
        )->0).values,
        w.gate_proj@.rows == d.ffn && w.gate_proj@.cols == d.hidden,
        w.up_proj@.data == (loaded(
            shards,
            "model.layers."@ + decimal(layer as nat) + ".mlp.up_proj.weight"@,
        )->0).values,
        w.up_proj@.rows == d.ffn && w.up_proj@.cols == d.hidden,
        w.down_proj@.data == (loaded(
            shards,
            "model.layers."@ + decimal(layer as nat) + ".mlp.down_proj.weight"@,
        )->0).values,
        w.down_proj@.rows == d.hidden && w.down_proj@.cols == d.ffn,
        w.q_bias is Some <==> arch is Qwen2 && shard_of(
            shards,
            "model.layers."@ + decimal(layer as nat) + ".self_attn.q_proj.bias"@,
        ) is Some,
        w.q_bias matches Some(v) ==> v@ == (loaded(
            shards,
            "model.layers."@ + decimal(layer as nat) + ".self_attn.q_proj.bias"@,
        )->0).values,
        w.k_bias is Some <==> arch is Qwen2 && shard_of(
            shards,
            "model.layers."@ + decimal(layer as nat) + ".self_attn.k_proj.bias"@,
        ) is Some,
        w.k_bias matches Some(v) ==> v@ == (loaded(
            shards,
            "model.layers."@ + decimal(layer as nat) + ".self_attn.k_proj.bias"@,
        )->0).values,
        w.v_bias is Some <==> arch is Qwen2 && shard_of(
            shards,
            "model.layers."@ + decimal(layer as nat) + ".self_attn.v_proj.bias"@,
        ) is Some,
        w.v_bias matches Some(v) ==> v@ == (loaded(
            shards,
            "model.layers."@ + decimal(layer as nat) + ".self_attn.v_proj.bias"@,
        )->0).values,
{
}

/// Two checkpoints that have the same tensor under the name of a weight give the
/// same weight, whatever else they hold.
pub proof fn law_a_layer_weight_depends_on_its_tensor_alone(
    v: LayerWeights,
    w: LayerWeights,
    a: Seq<Shard<'_>>,
    b: Seq<Shard<'_>>,
    layer: int,
    d: Dimensions,
    arch: Architecture,
)
    requires
        v.read_from(a, layer, d, arch),
        w.read_from(b, layer, d, arch),
    ensures
        loaded(a, "model.layers."@ + decimal(layer as nat) + ".input_layernorm.weight"@) == loaded(
            b,
            "model.layers."@ + decimal(layer as nat) + ".input_layernorm.weight"@,
        ) ==> v.input_norm@ == w.input_norm@,
        loaded(a, "model.layers."@ + decimal(layer as nat) + ".self_attn.q_proj.weight"@) == loaded(
            b,
            "model.layers."@ + decimal(layer as nat) + ".self_attn.q_proj.weight"@,
        ) ==> v.q_proj@ == w.q_proj@,
        loaded(a, "model.layers."@ + decimal(layer as nat) + ".self_attn.k_proj.weight"@) == loaded(
            b,
            "model.layers."@ + decimal(layer as nat) + ".self_attn.k_proj.weight"@,
        ) ==> v.k_proj@ == w.k_proj@,
        loaded(a, "model.layers."@ + decimal(layer as nat) + ".self_attn.v_proj.weight"@) == loaded(
            b,
            "model.layers."@ + decimal(layer as nat) + ".self_attn.v_proj.weight"@,
        ) ==> v.v_proj@ == w.v_proj@,
        loaded(a, "model.layers."@ + decimal(layer as nat) + ".self_attn.o_proj.weight"@) == loaded(
            b,
            "model.layers."@ + decimal(layer as nat) + ".self_attn.o_proj.weight"@,
        ) ==> v.o_proj@ == w.o_proj@,
        loaded(a, "model.layers."@ + decimal(layer as nat) + ".post_attention_layernorm.weight"@) == loaded(
            b,
            "model.layers."@ + decimal(layer as nat) + ".post_attention_layernorm.weight"@,
        ) ==> v.post_attn_norm@ == w.post_attn_norm@,
        loaded(a, "model.layers."@ + decimal(layer as nat) + ".mlp.gate_proj.weight"@) == loaded(
            b,
            "model.layers."@ + decimal(layer as nat) + ".mlp.gate_proj.weight"@,
        ) ==> v.gate_proj@ == w.gate_proj@,
        loaded(a, "model.layers."@ + decimal(layer as nat) + ".mlp.up_proj.weight"@) == loaded(
            b,
            "model.layers."@ + decimal(layer as nat) + ".mlp.up_proj.weight"@,
        ) ==> v.up_proj@ == w.up_proj@,
        loaded(a, "model.layers."@ + decimal(layer as nat) + ".mlp.down_proj.weight"@) == loaded(
            b,
            "model.layers."@ + decimal(layer as nat) + ".mlp.down_proj.weight"@,
        ) ==> v.down_proj@ == w.down_proj@,
{
}

/// The weights outside the layers hold what the checkpoint has under their
/// names; layer `i` holds that of layer `i`; the head is there where it is not
/// tied and the checkpoint has it.
pub proof fn law_each_model_weight_has_its_tensor(
    w: ModelWeights,
    shards: Seq<Shard<'_>>,
    d: Dimensions,
    arch: Architecture,
    config: HfConfig,
    i: int,
)
    requires
        w.read_from(shards, d, arch, has_head(shards, config)),
    ensures
        w.embed_tokens@.data == (loaded(shards, "model.embed_tokens.weight"@)->0).values,
        w.embed_tokens@.rows == d.vocab && w.embed_tokens@.cols == d.hidden,
        w.final_norm@ == (loaded(shards, "model.norm.weight"@)->0).values,
        w.layers@.len() == d.layers,
        0 <= i < d.layers ==> w.layers@[i].read_from(shards, i, d, arch),
        w.lm_head is Some <==> config.tie_word_embeddings != Some(true) && shard_of(
            shards,
            "lm_head.weight"@,
        ) is Some,
        w.lm_head matches Some(m) ==> {
            &&& m@.data == (loaded(shards, "lm_head.weight"@)->0).values
            &&& m@.rows == d.vocab
            &&& m@.cols == d.hidden
        },
{
}

/// Where a layer's needs are met, the checkpoint has each of its tensors in the
/// shape that the model's sizes give it.
pub proof fn law_a_layer_needs_each_of_its_tensors(
    shards: Seq<Shard<'_>>,
    layer: int,
    d: Dimensions,
    arch: Architecture,
)
    requires
        all_met(shards, layer_needs(layer, d, arch)),
    ensures
        met(
            shards,
            (Need {
                name: "model.layers."@ + decimal(layer as nat) + ".input_layernorm.weight"@,
                shape: seq![d.hidden],
                optional: false,
            }),
        ),
        met(
            shards,
            (Need {
                name: "model.layers."@ + decimal(layer as nat) + ".self_attn.q_proj.weight"@,
                shape: seq![d.query, d.hidden],
                optional: false,
            }),
        ),
        met(
            shards,
            (Need {
                name: "model.layers."@ + decimal(layer as nat) + ".self_attn.k_proj.weight"@,
                shape: seq![d.key_value, d.hidden],
                optional: false,
            }),
        ),
        met(
            shards,
            (Need {
                name: "model.layers."@ + decimal(layer as nat) + ".self_attn.v_proj.weight"@,
                shape: seq![d.key_value, d.hidden],
                optional: false,
            }),
        ),
        met(
            shards,
            (Need {
                name: "model.layers."@ + decimal(layer as nat) + ".self_attn.o_proj.weight"@,
                shape: seq![d.hidden, d.query],
                optional: false,
            }),
        ),
        met(
            shards,
            (Need {
                name: "model.layers."@ + decimal(layer as nat) + ".post_attention_layernorm.weight"@,
                shape: seq![d.hidden],
                optional: false,
            }),
        ),
        met(
            shards,
            (Need {
                name: "model.layers."@ + decimal(layer as nat) + ".mlp.gate_proj.weight"@,
                shape: seq![d.ffn, d.hidden],
                optional: false,
            }),
        ),
        met(
            shards,
            (Need {
                name: "model.layers."@ + decimal(layer as nat) + ".mlp.up_proj.weight"@,
                shape: seq![d.ffn, d.hidden],
                optional: false,
            }),
        ),
        met(
            shards,
            (Need {
                name: "model.layers."@ + decimal(layer as nat) + ".mlp.down_proj.weight"@,
                shape: seq![d.hidden, d.ffn],
                optional: false,
            }),
        ),
        arch is Qwen2 ==> met(
            shards,
            (Need {
                name: "model.layers."@ + decimal(layer as nat) + ".self_attn.q_proj.bias"@,
                shape: seq![d.query],
                optional: true,
            }),
        ),
        arch is Qwen2 ==> met(
            shards,
            (Need {
                name: "model.layers."@ + decimal(layer as nat) + ".self_attn.k_proj.bias"@,
                shape: seq![d.key_value],
                optional: true,
            }),
        ),
        arch is Qwen2 ==> met(
            shards,
            (Need {
                name: "model.layers."@ + decimal(layer as nat) + ".self_attn.v_proj.bias"@,
                shape: seq![d.key_value],
                optional: true,
            }),
        ),
{
    let biases = bias_needs(layer, d, arch);
    let block = block_needs(layer, d);
    let needs = layer_needs(layer, d, arch);
    assert forall|i: int| 0 <= i < block.len() implies met(shards, #[trigger] block[i]) by {
        assert(needs[biases.len() + i] == block[i]);
    }
    assert forall|i: int| 0 <= i < biases.len() implies met(shards, #[trigger] biases[i]) by {
        assert(needs[i] == biases[i]);
    }
    assert(met(shards, block[0]));
    assert(met(shards, block[1]));
    assert(met(shards, block[2]));
    assert(met(shards, block[3]));
    assert(met(shards, block[4]));
    assert(met(shards, block[5]));
    assert(met(shards, block[6]));
    assert(met(shards, block[7]));
    assert(met(shards, block[8]));
    if arch is Qwen2 {
        assert(met(shards, biases[0]));
        assert(met(shards, biases[1]));
        assert(met(shards, biases[2]));
    }
}

} // verus!
