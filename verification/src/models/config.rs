//! Model configuration as checkpoints state it.
//!
//! The same field is optional with architecture-specific defaults. This module
//! normalizes all of that into [`ModelMetadata`], which is the only shape the
//! rest of the engine ever sees.

use crate::error::ModelError;
use crate::float::Float32;
use crate::id::TokenId;
use crate::text::{decimal, owned, push_count};
use crate::tokenizer::template::same_text;
use crate::traits::{DType, ModelMetadata};
use vstd::prelude::*;
use vstd::string::*;

verus! {

/// The encoding of `10000.0`, the rotary base where none is stated.
pub const DEFAULT_ROPE_THETA: u32 = 0x461c_4000;

/// The encoding of `0.00001`, the normalization epsilon where none is stated.
pub const DEFAULT_RMS_NORM_EPS: u32 = 0x3727_c5ac;

/// Positions where no limit is stated.
pub const DEFAULT_MAX_POSITIONS: usize = 2048;

/// The subset of `config.json` that is understood.
#[derive(Debug, Clone)]
pub struct HfConfig {
    pub architectures: Vec<String>,
    pub model_type: Option<String>,
    pub hidden_size: usize,
    pub num_hidden_layers: usize,
    pub num_attention_heads: usize,
    /// Absent on multi-head models, where it equals `num_attention_heads`.
    pub num_key_value_heads: Option<usize>,
    /// Usually `hidden_size / num_attention_heads`, but some architectures
    /// decouple them, so it is read when present.
    pub head_dim: Option<usize>,
    pub vocab_size: usize,
    pub intermediate_size: Option<usize>,
    pub max_position_embeddings: Option<usize>,
    pub rope_theta: Option<Float32>,
    pub rms_norm_eps: Option<Float32>,
    pub torch_dtype: Option<String>,
    /// Either a single id or a list; chat models often define several.
    pub eos_token_id: Option<EosField>,
    pub bos_token_id: Option<TokenId>,
    /// Whether the LM head shares weights with the token embedding.
    pub tie_word_embeddings: Option<bool>,
}

/// The end-of-sequence ids: one id or a list.
#[derive(Debug, Clone)]
pub enum EosField {
    Single(TokenId),
    Multiple(Vec<TokenId>),
}

impl EosField {
    /// The ids.
    pub open spec fn ids(&self) -> Seq<TokenId> {
        match self {
            EosField::Single(t) => seq![*t],
            EosField::Multiple(v) => v@,
        }
    }

    fn to_vec(&self) -> (r: Vec<TokenId>)
        ensures
            r@ == self.ids(),
    {
        match self {
            EosField::Single(t) => {
                let mut v: Vec<TokenId> = Vec::new();
                v.push(*t);
                proof {
                    assert(v@ =~= seq![*t]);
                }
                v
            },
            EosField::Multiple(v) => {
                let c = v.clone();
                proof {
                    assert(c@ =~= v@);
                }
                c
            },
        }
    }
}

/// Architectures this engine can execute.
///
/// A closed set on purpose: running the wrong layers over a model's weights
/// would produce fluent nonsense rather than an error.
#[derive(Debug, Clone, Copy, PartialEq, Eq, Structural)]
pub enum Architecture {
    /// Llama and its close relatives.
    Llama,
    /// Qwen2: the same layers, but with biases on Q, K and V.
    Qwen2,
}

/// The architecture that a class name of a checkpoint stands for.
pub open spec fn by_class(name: Seq<char>) -> Option<Architecture> {
    if name == "LlamaForCausalLM"@ || name == "MistralForCausalLM"@ {
        Some(Architecture::Llama)
    } else if name == "Qwen2ForCausalLM"@ {
        Some(Architecture::Qwen2)
    } else {
        None
    }
}

/// The architecture that a model type stands for.
pub open spec fn by_type(name: Seq<char>) -> Option<Architecture> {
    if name == "llama"@ || name == "mistral"@ {
        Some(Architecture::Llama)
    } else if name == "qwen2"@ {
        Some(Architecture::Qwen2)
    } else {
        None
    }
}

/// The architecture of the first class name that is known.
pub open spec fn first_known(names: Seq<String>) -> Option<Architecture>
    decreases names.len(),
{
    if names.len() == 0 {
        None
    } else {
        match by_class(names[0]@) {
            Some(a) => Some(a),
            None => first_known(names.drop_first()),
        }
    }
}

fn class_of(name: &str) -> (r: Option<Architecture>)
    ensures
        r == by_class(name@),
{
    if same_text(name, "LlamaForCausalLM") || same_text(name, "MistralForCausalLM") {
        Some(Architecture::Llama)
    } else if same_text(name, "Qwen2ForCausalLM") {
        Some(Architecture::Qwen2)
    } else {
        None
    }
}

fn type_of(name: &str) -> (r: Option<Architecture>)
    ensures
        r == by_type(name@),
{
    if same_text(name, "llama") || same_text(name, "mistral") {
        Some(Architecture::Llama)
    } else if same_text(name, "qwen2") {
        Some(Architecture::Qwen2)
    } else {
        None
    }
}

impl Architecture {
    /// The architecture of a configuration: that of the first known class
    /// name, else that of the model type.
    pub open spec fn of(config: HfConfig) -> Option<Architecture> {
        match first_known(config.architectures@) {
            Some(a) => Some(a),
            None => match config.model_type {
                Some(t) => by_type(t@),
                None => None,
            },
        }
    }

    /// How an unknown architecture is named: by its first class name, else by
    /// its model type.
    pub open spec fn unknown_name(config: HfConfig) -> Seq<char> {
        if config.architectures@.len() > 0 {
            config.architectures@[0]@
        } else {
            match config.model_type {
                Some(t) => t@,
                None => "<unspecified>"@,
            }
        }
    }

    /// Identifies the architecture from the config's `architectures` list or
    /// its `model_type`.
    pub fn detect(config: &HfConfig) -> (r: Result<Self, ModelError>)
        ensures
            match r {
                Ok(a) => Self::of(*config) == Some(a),
                Err(e) => {
                    &&& Self::of(*config) is None
                    &&& e matches ModelError::UnsupportedArchitecture(name) && name@
                        == Self::unknown_name(*config)
                },
            },
    {
        let names = &config.architectures;
        let mut i: usize = 0;
        proof {
            assert(names@.skip(0) =~= names@);
        }
        while i < names.len()
            invariant
                names@ == config.architectures@,
                i <= names@.len(),
                first_known(names@) == first_known(names@.skip(i as int)),
            decreases names@.len() - i,
        {
            proof {
                assert(names@.skip(i as int)[0] == names@[i as int]);
                assert(names@.skip(i as int).drop_first() =~= names@.skip(i + 1));
            }
            match class_of(names[i].as_str()) {
                Some(a) => {
                    return Ok(a);
                },
                None => {},
            }
            i += 1;
        }
        match &config.model_type {
            Some(t) => {
                match type_of(t.as_str()) {
                    Some(a) => {
                        return Ok(a);
                    },
                    None => {},
                }
            },
            None => {},
        }
        let name: String = if names.len() > 0 {
            names[0].clone()
        } else {
            match &config.model_type {
                Some(t) => t.clone(),
                None => owned("<unspecified>"),
            }
        };
        Err(ModelError::UnsupportedArchitecture(name))
    }

    /// Whether attention projections carry bias terms.
    ///
    /// Derived from the architecture rather than guessed from which tensors
    /// happen to be present.
    pub fn has_qkv_bias(self) -> (r: bool)
        ensures
            r == (self is Qwen2),
    {
        match self {
            Architecture::Llama => false,
            Architecture::Qwen2 => true,
        }
    }

    pub open spec fn label(self) -> Seq<char> {
        match self {
            Architecture::Llama => "llama"@,
            Architecture::Qwen2 => "qwen2"@,
        }
    }

    pub fn as_str(self) -> (r: &'static str)
        ensures
            r@ == self.label(),
    {
        match self {
            Architecture::Llama => "llama",
            Architecture::Qwen2 => "qwen2",
        }
    }
}

/// The dtype that a name stands for; full precision where none is given.
pub open spec fn dtype_of(name: Option<String>) -> Option<DType> {
    match name {
        None => Some(DType::F32),
        Some(s) => if s@ == "float32"@ || s@ == "float"@ {
            Some(DType::F32)
        } else if s@ == "float16"@ || s@ == "half"@ {
            Some(DType::F16)
        } else if s@ == "bfloat16"@ {
            Some(DType::BF16)
        } else {
            None
        },
    }
}

/// Parses a dtype name.
fn parse_dtype(name: &Option<String>) -> (r: Result<DType, ModelError>)
    ensures
        match r {
            Ok(d) => dtype_of(*name) == Some(d),
            Err(e) => {
                &&& dtype_of(*name) is None
                &&& e matches ModelError::UnsupportedDtype(n) && n@ == name->0@
            },
        },
{
    match name {
        None => Ok(DType::F32),
        Some(s) => {
            let t = s.as_str();
            if same_text(t, "float32") || same_text(t, "float") {
                Ok(DType::F32)
            } else if same_text(t, "float16") || same_text(t, "half") {
                Ok(DType::F16)
            } else if same_text(t, "bfloat16") {
                Ok(DType::BF16)
            } else {
                Err(ModelError::UnsupportedDtype(owned(t)))
            }
        },
    }
}

/// Whether `e` says that `config.json` is malformed for that reason.
pub open spec fn malformed_for(e: ModelError, reason: Seq<char>) -> bool {
    e matches ModelError::Malformed { file, reason: r } && file@ == "config.json"@ && r@ == reason
}

fn malformed(reason: String) -> (e: ModelError)
    ensures
        malformed_for(e, reason@),
{
    ModelError::Malformed { file: owned("config.json"), reason }
}

impl HfConfig {
    /// KV heads: those stated, or one per attention head.
    pub open spec fn kv_heads(&self) -> usize {
        match self.num_key_value_heads {
            Some(n) => n,
            None => self.num_attention_heads,
        }
    }

    /// The width of a head: that stated, or an equal share of the hidden size.
    pub open spec fn head_width(&self) -> int {
        match self.head_dim {
            Some(n) => n as int,
            None => self.hidden_size as int / (if self.num_attention_heads >= 1 {
                self.num_attention_heads as int
            } else {
                1
            }),
        }
    }

    /// The first inconsistency of the sizes, as the text that names it.
    pub open spec fn complaint(&self) -> Option<Seq<char>> {
        if self.num_attention_heads == 0 || self.num_hidden_layers == 0 {
            Some("num_attention_heads and num_hidden_layers must be non-zero"@)
        } else if self.kv_heads() == 0 {
            Some("num_key_value_heads must be non-zero"@)
        } else if self.num_attention_heads as int % self.kv_heads() as int != 0 {
            Some(
                "num_attention_heads ("@ + decimal(self.num_attention_heads as nat)
                    + ") must be a multiple of num_key_value_heads ("@ + decimal(
                    self.kv_heads() as nat,
                ) + ")"@,
            )
        } else if self.head_width() == 0 {
            Some("head_dim resolved to zero"@)
        } else if self.vocab_size == 0 {
            Some("vocab_size must be non-zero"@)
        } else {
            None
        }
    }

    /// Whether `m` is this configuration with its defaults filled in.
    pub open spec fn describes(&self, name: Seq<char>, m: ModelMetadata) -> bool {
        &&& Architecture::of(*self) matches Some(a) && m.architecture@ == a.label()
        &&& m.name@ == name
        &&& m.hidden_size == self.hidden_size
        &&& m.num_layers == self.num_hidden_layers
        &&& m.num_attention_heads == self.num_attention_heads
        &&& m.num_kv_heads == self.kv_heads()
        &&& m.head_dim == self.head_width()
        &&& m.vocab_size == self.vocab_size
        &&& m.max_position_embeddings == match self.max_position_embeddings {
            Some(n) => n,
            None => DEFAULT_MAX_POSITIONS,
        }
        &&& m.rope_theta == match self.rope_theta {
            Some(f) => f,
            None => Float32 { bits: DEFAULT_ROPE_THETA },
        }
        &&& m.rms_norm_eps == match self.rms_norm_eps {
            Some(f) => f,
            None => Float32 { bits: DEFAULT_RMS_NORM_EPS },
        }
        &&& dtype_of(self.torch_dtype) == Some(m.dtype)
        &&& m.eos_token_ids@ == match self.eos_token_id {
            Some(e) => e.ids(),
            None => Seq::empty(),
        }
        &&& m.bos_token_id == self.bos_token_id
    }

    /// Normalizes into the engine's [`ModelMetadata`], filling defaults and
    /// checking internal consistency.
    pub fn to_metadata(&self, name: String) -> (r: Result<ModelMetadata, ModelError>)
        ensures
            match r {
                Ok(m) => {
                    &&& self.complaint() is None
                    &&& self.describes(name@, m)
                },
                Err(e) => if Architecture::of(*self) is None {
                    e matches ModelError::UnsupportedArchitecture(n) && n@
                        == Architecture::unknown_name(*self)
                } else if self.complaint() is Some {
                    malformed_for(e, self.complaint()->0)
                } else {
                    &&& dtype_of(self.torch_dtype) is None
                    &&& e matches ModelError::UnsupportedDtype(n) && n@ == self.torch_dtype->0@
                },
            },
            r matches Ok(m) ==> {
                &&& m.name@ == name@
                &&& m.hidden_size == self.hidden_size
                &&& m.num_layers == self.num_hidden_layers
                &&& m.num_attention_heads == self.num_attention_heads
                &&& self.num_key_value_heads matches Some(n) ==> m.num_kv_heads == n
                &&& self.num_key_value_heads is None ==> m.num_kv_heads == self.num_attention_heads
                &&& self.head_dim matches Some(n) ==> m.head_dim == n
                &&& self.head_dim is None ==> m.head_dim == self.hidden_size as int
                    / self.num_attention_heads as int
                &&& m.vocab_size == self.vocab_size
                &&& self.max_position_embeddings matches Some(n) ==> m.max_position_embeddings == n
                &&& self.max_position_embeddings is None ==> m.max_position_embeddings == 2048
                &&& self.rope_theta matches Some(f) ==> m.rope_theta == f
                &&& self.rope_theta is None ==> m.rope_theta.bits == 0x461c_4000
                &&& self.rms_norm_eps matches Some(f) ==> m.rms_norm_eps == f
                &&& self.rms_norm_eps is None ==> m.rms_norm_eps.bits == 0x3727_c5ac
                &&& self.eos_token_id matches Some(EosField::Single(t)) ==> m.eos_token_ids@ == seq![
                    t,
                ]
                &&& self.eos_token_id matches Some(EosField::Multiple(v)) ==> m.eos_token_ids@ == v@
                &&& self.eos_token_id is None ==> m.eos_token_ids@.len() == 0
                &&& m.bos_token_id == self.bos_token_id
            },
    {
        let arch = match Architecture::detect(self) {
            Ok(a) => a,
            Err(e) => {
                return Err(e);
            },
        };
        let num_kv_heads: usize = match self.num_key_value_heads {
            Some(n) => n,
            None => self.num_attention_heads,
        };
        let head_dim: usize = match self.head_dim {
            Some(n) => n,
            None => {
                let heads: usize = if self.num_attention_heads >= 1 {
                    self.num_attention_heads
                } else {
                    1
                };
                self.hidden_size / heads
            },
        };
        if self.num_attention_heads == 0 || self.num_hidden_layers == 0 {
            return Err(
                malformed(owned("num_attention_heads and num_hidden_layers must be non-zero")),
            );
        }
        if num_kv_heads == 0 {
            return Err(malformed(owned("num_key_value_heads must be non-zero")));
        }
        if self.num_attention_heads % num_kv_heads != 0 {
            let mut m = owned("num_attention_heads (");
            push_count(&mut m, self.num_attention_heads);
            m.append(") must be a multiple of num_key_value_heads (");
            push_count(&mut m, num_kv_heads);
            m.append(")");
            return Err(malformed(m));
        }
        if head_dim == 0 {
            return Err(malformed(owned("head_dim resolved to zero")));
        }
        if self.vocab_size == 0 {
            return Err(malformed(owned("vocab_size must be non-zero")));
        }
        let dtype = match parse_dtype(&self.torch_dtype) {
            Ok(d) => d,
            Err(e) => {
                return Err(e);
            },
        };
        let eos_token_ids: Vec<TokenId> = match &self.eos_token_id {
            Some(e) => e.to_vec(),
            None => Vec::new(),
        };
        Ok(
            ModelMetadata {
                architecture: owned(arch.as_str()),
                name,
                hidden_size: self.hidden_size,
                num_layers: self.num_hidden_layers,
                num_attention_heads: self.num_attention_heads,
                num_kv_heads,
                head_dim,
                vocab_size: self.vocab_size,
                max_position_embeddings: match self.max_position_embeddings {
                    Some(n) => n,
                    None => DEFAULT_MAX_POSITIONS,
                },
                rope_theta: match self.rope_theta {
                    Some(f) => f,
                    None => Float32 { bits: DEFAULT_ROPE_THETA },
                },
                rms_norm_eps: match self.rms_norm_eps {
                    Some(f) => f,
                    None => Float32 { bits: DEFAULT_RMS_NORM_EPS },
                },
                dtype,
                eos_token_ids,
                bos_token_id: self.bos_token_id,
            },
        )
    }

    /// Feed-forward inner dimension, four times the hidden size where none is
    /// stated.
    pub fn ffn_dim(&self) -> (r: usize)
        requires
            self.intermediate_size is None ==> 4 * self.hidden_size <= usize::MAX,
        ensures
            r == match self.intermediate_size {
                Some(n) => n as int,
                None => 4 * self.hidden_size,
            },
    {
        match self.intermediate_size {
            Some(n) => n,
            None => 4 * self.hidden_size,
        }
    }

    /// Whether the LM head reuses the embedding matrix.
    pub fn ties_embeddings(&self) -> (r: bool)
        ensures
            r == (self.tie_word_embeddings == Some(true)),
    {
        match self.tie_word_embeddings {
            Some(b) => b,
            None => false,
        }
    }
}

/// An accepted configuration describes a model whose heads group evenly and
/// whose sizes are not zero.
pub proof fn law_accepted_models_are_consistent(c: HfConfig, name: Seq<char>, m: ModelMetadata)
    requires
        c.complaint() is None,
        c.describes(name, m),
    ensures
        m.num_layers > 0,
        m.num_kv_heads > 0,
        m.head_dim > 0,
        m.vocab_size > 0,
        m.num_attention_heads as int % m.num_kv_heads as int == 0,
{
}

} // verus!
