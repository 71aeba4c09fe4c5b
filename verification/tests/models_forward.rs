//! The library's plans, run with plain floating-point kernels.

use std::sync::Mutex;

use orion_serve::error::EngineError;
use orion_serve::models::attention::{attention_plan, locate, write_rows, AttentionArgs, KvStore};
use orion_serve::models::tensor::{
    check_gate, check_linear, check_norm, check_rope, rope_width, Matrix, RopeTable,
};
use orion_serve::models::transformer::{
    check_position, embed, last_rows, plan_rows, sequence_ids, RowPlan,
};
use orion_serve::traits::{ForwardBatch, ForwardOutput};

/// A matrix of zeros.
fn zeros(rows: usize, cols: usize) -> Result<Matrix<f32>, EngineError> {
    if rows.checked_mul(cols).is_none() {
        return Err(EngineError::Internal(format!(
            "a {rows}x{cols} matrix cannot be held"
        )));
    }
    Ok(Matrix::filled(rows, cols, 0.0))
}

/// A copy of a matrix.
fn copy(m: &Matrix<f32>) -> Result<Matrix<f32>, EngineError> {
    Matrix::new(m.data().to_vec(), m.rows(), m.cols())
}

/// Computes `x · Wᵀ`, the layout checkpoints store linear weights in (floating
/// point).
fn linear(
    x: &Matrix<f32>,
    weight: &Matrix<f32>,
    bias: Option<&[f32]>,
) -> Result<Matrix<f32>, EngineError> {
    check_linear(x, weight, bias.map(<[f32]>::len))?;
    let (k, width) = (x.cols(), weight.rows());
    let mut out = zeros(x.rows(), width)?;
    if width == 0 {
        return Ok(out);
    }
    for (i, row) in out.data_mut().chunks_mut(width).enumerate() {
        let xr = &x.data()[i * k..(i + 1) * k];
        for (j, o) in row.iter_mut().enumerate() {
            let wr = &weight.data()[j * k..(j + 1) * k];
            let mut acc = 0.0f32;
            for (a, b) in xr.iter().zip(wr.iter()) {
                acc += a * b;
            }
            *o = acc + bias.map_or(0.0, |b| b[j]);
        }
    }
    Ok(out)
}

/// Root-mean-square normalization of each row (floating point).
fn rms_norm(x: &mut Matrix<f32>, weight: &[f32], eps: f32) -> Result<(), EngineError> {
    let cols = x.cols();
    check_norm(weight.len(), cols)?;
    if cols == 0 {
        return Ok(());
    }
    for row in x.data_mut().chunks_mut(cols) {
        // Accumulated in f64: for a wide hidden state, f32 accumulation of
        // squares shifts the normalization visibly.
        let sum_sq: f64 = row.iter().map(|&v| (v as f64) * (v as f64)).sum();
        let rms = ((sum_sq / cols as f64) + eps as f64).sqrt();
        let scale = (1.0 / rms) as f32;
        for (v, &w) in row.iter_mut().zip(weight.iter()) {
            *v = *v * scale * w;
        }
    }
    Ok(())
}

/// SiLU activation: `x * sigmoid(x)` (floating point).
fn silu(x: f32) -> f32 {
    x / (1.0 + (-x).exp())
}

/// The SwiGLU activation: `SiLU(gate) * up`, elementwise (floating point).
fn swiglu(gate: &mut Matrix<f32>, up: &Matrix<f32>) -> Result<(), EngineError> {
    check_gate(gate, up)?;
    for (g, u) in gate.data_mut().iter_mut().zip(up.data().iter()) {
        *g = silu(*g) * u;
    }
    Ok(())
}

/// Numerically stable in-place softmax (floating point).
fn softmax_inplace(x: &mut [f32]) {
    let max = x.iter().copied().fold(f32::NEG_INFINITY, f32::max);
    if !max.is_finite() {
        let uniform = 1.0 / x.len() as f32;
        x.fill(uniform);
        return;
    }
    let mut sum = 0.0f32;
    for v in x.iter_mut() {
        *v = (*v - max).exp();
        sum += *v;
    }
    if sum > 0.0 {
        for v in x.iter_mut() {
            *v /= sum;
        }
    }
}

/// Builds the rotary tables for `max_positions` positions (floating point).
fn rope_table(
    head_dim: usize,
    max_positions: usize,
    theta: f32,
) -> Result<RopeTable<f32>, EngineError> {
    let half = rope_width(head_dim)?;
    let Some(len) = max_positions.checked_mul(half) else {
        return Err(EngineError::Internal(format!(
            "a RoPE table of {max_positions} positions cannot be held"
        )));
    };
    let mut cos = Vec::with_capacity(len);
    let mut sin = Vec::with_capacity(len);
    for pos in 0..max_positions {
        for i in 0..half {
            let inv_freq = 1.0 / theta.powf(2.0 * i as f32 / head_dim as f32);
            let angle = pos as f32 * inv_freq;
            cos.push(angle.cos());
            sin.push(angle.sin());
        }
    }
    RopeTable::new(head_dim, max_positions, cos, sin)
}

/// Applies rotary position embedding to one head vector (floating point).
///
/// Dimension `i` is paired with dimension `i + head_dim/2`, not with `i + 1`.
fn apply_rope(vec: &mut [f32], cos: &[f32], sin: &[f32]) -> Result<(), EngineError> {
    let half = check_rope(vec.len(), cos.len(), sin.len())?;
    for i in 0..half {
        let x0 = vec[i];
        let x1 = vec[i + half];
        vec[i] = x0 * cos[i] - x1 * sin[i];
        vec[i + half] = x0 * sin[i] + x1 * cos[i];
    }
    Ok(())
}

/// Computes attention for one query token against the cached keys and values
/// (floating point). Where they lie is the library's plan.
fn paged_attention(
    store: &KvStore<f32>,
    query: &[f32],
    args: AttentionArgs<'_>,
    out: &mut [f32],
) -> Result<(), EngineError> {
    if args.block_size == 0
        || args.query_position == usize::MAX
        || args.num_query_heads.checked_mul(args.head_dim).is_none()
    {
        return Err(EngineError::Internal(
            "attention arguments are out of range".into(),
        ));
    }
    let plan = attention_plan(store, query.len(), out.len(), args)?;
    let (layer, dim) = (args.layer, args.head_dim);
    let scale = 1.0 / (dim as f32).sqrt();
    let mut scores = vec![0.0f32; plan.slots.len()];
    for qh in 0..args.num_query_heads {
        let kv_head = plan.kv_head(qh);
        let q = &query[qh * dim..(qh + 1) * dim];
        for (score, &(block, slot)) in scores.iter_mut().zip(&plan.slots) {
            let k = store.read(layer, block, slot, kv_head, false)?;
            let mut dot = 0.0f32;
            for (a, b) in q.iter().zip(k.iter()) {
                dot += a * b;
            }
            *score = dot * scale;
        }
        softmax_inplace(&mut scores);
        let o = &mut out[qh * dim..(qh + 1) * dim];
        o.fill(0.0);
        for (&w, &(block, slot)) in scores.iter().zip(&plan.slots) {
            if w == 0.0 {
                continue;
            }
            let v = store.read(layer, block, slot, kv_head, true)?;
            for (acc, &val) in o.iter_mut().zip(v.iter()) {
                *acc += w * val;
            }
        }
    }
    Ok(())
}

fn approx(a: f32, b: f32, eps: f32) -> bool {
    (a - b).abs() < eps
}

/// The sizes of a model.
struct Meta {
    hidden_size: usize,
    num_layers: usize,
    num_attention_heads: usize,
    num_kv_heads: usize,
    head_dim: usize,
    vocab_size: usize,
}

struct LayerWeights {
    input_norm: Vec<f32>,
    q_proj: Matrix<f32>,
    k_proj: Matrix<f32>,
    v_proj: Matrix<f32>,
    o_proj: Matrix<f32>,
    q_bias: Option<Vec<f32>>,
    k_bias: Option<Vec<f32>>,
    v_bias: Option<Vec<f32>>,
    post_attn_norm: Vec<f32>,
    gate_proj: Matrix<f32>,
    up_proj: Matrix<f32>,
    down_proj: Matrix<f32>,
}

struct ModelWeights {
    embed_tokens: Matrix<f32>,
    layers: Vec<LayerWeights>,
    final_norm: Vec<f32>,
    lm_head: Option<Matrix<f32>>,
}

struct TransformerModel {
    meta: Meta,
    weights: ModelWeights,
    rope: RopeTable<f32>,
    kv: Mutex<KvStore<f32>>,
    block_size: usize,
}

const EPS: f32 = 1e-5;

impl TransformerModel {
    /// Runs one transformer block over the batch (floating point).
    fn layer_forward(
        &self,
        layer: usize,
        hidden: &mut Matrix<f32>,
        batch: &ForwardBatch,
        plan: &RowPlan,
    ) -> Result<(), EngineError> {
        let w = &self.weights.layers[layer];
        let meta = &self.meta;
        let dim = meta.head_dim;
        let eps = EPS;
        let poisoned = |_| EngineError::Internal("KV cache mutex poisoned".into());

        // Attention block, pre-norm.
        let mut normed = copy(hidden)?;
        rms_norm(&mut normed, &w.input_norm, eps)?;
        let mut q = linear(&normed, &w.q_proj, w.q_bias.as_deref())?;
        let mut k = linear(&normed, &w.k_proj, w.k_bias.as_deref())?;
        let v = linear(&normed, &w.v_proj, w.v_bias.as_deref())?;

        // Rotary embedding is applied to Q and K only: a cached V stays valid
        // regardless of where it is later attended from.
        let (q_cols, k_cols) = (q.cols(), k.cols());
        for (row, &position) in batch.positions.iter().enumerate() {
            let pos = position as usize;
            check_position(pos, self.rope.max_positions())?;
            let Some((cos, sin)) = self.rope.at(pos) else {
                continue;
            };
            for head in q.data_mut()[row * q_cols..(row + 1) * q_cols].chunks_mut(dim) {
                apply_rope(head, cos, sin)?;
            }
            for head in k.data_mut()[row * k_cols..(row + 1) * k_cols].chunks_mut(dim) {
                apply_rope(head, cos, sin)?;
            }
        }

        // This step's K and V are written before attending, so a token can
        // attend to itself.
        let mut kv = self.kv.lock().map_err(poisoned)?;
        write_rows(&mut kv, layer, &plan.slots, &k, &v)?;

        let mut attended = zeros(q.rows(), q_cols)?;
        for (row, out) in attended.data_mut().chunks_mut(q_cols.max(1)).enumerate() {
            let seq = plan.seq_of_row[row];
            let Some(query) = q.row(row) else {
                continue;
            };
            paged_attention(
                &kv,
                query,
                AttentionArgs {
                    block_table: &batch.block_tables[seq],
                    context_len: batch.context_lens[seq],
                    query_position: batch.positions[row] as usize,
                    layer,
                    num_query_heads: meta.num_attention_heads,
                    num_kv_heads: meta.num_kv_heads,
                    head_dim: dim,
                    block_size: self.block_size,
                },
                out,
            )?;
        }
        drop(kv);

        let projected = linear(&attended, &w.o_proj, None)?;
        for (h, p) in hidden.data_mut().iter_mut().zip(projected.data()) {
            *h += p;
        }

        // MLP block, pre-norm.
        let mut normed = copy(hidden)?;
        rms_norm(&mut normed, &w.post_attn_norm, eps)?;
        let mut gate = linear(&normed, &w.gate_proj, None)?;
        let up = linear(&normed, &w.up_proj, None)?;
        swiglu(&mut gate, &up)?;
        let mlp = linear(&gate, &w.down_proj, None)?;
        for (h, m) in hidden.data_mut().iter_mut().zip(mlp.data()) {
            *h += m;
        }
        Ok(())
    }

    fn forward(&self, batch: &ForwardBatch) -> Result<ForwardOutput<f32>, EngineError> {
        let counted = batch
            .slot_token_counts
            .iter()
            .try_fold(0usize, |n, c| n.checked_add(*c));
        let fits = batch.tokens.len().checked_mul(self.meta.hidden_size);
        if counted.is_none() || fits.is_none() {
            return Err(EngineError::Internal("the batch cannot be held".into()));
        }
        let plan = plan_rows(batch, self.block_size)?;
        if batch.is_empty() {
            return Ok(ForwardOutput {
                logits: Vec::new(),
                vocab_size: self.meta.vocab_size,
                sequence_ids: Vec::new(),
            });
        }

        let mut hidden = embed(
            &self.weights.embed_tokens,
            &batch.tokens,
            self.meta.vocab_size,
        )?;
        for layer in 0..self.meta.num_layers {
            self.layer_forward(layer, &mut hidden, batch, &plan)?;
        }
        rms_norm(
            &mut hidden,
            &self.weights.final_norm,
            EPS,
        )?;

        let wanted = last_rows(&batch.slot_token_counts)?;
        let tail = hidden.gather(&wanted).map_err(|at| {
            EngineError::Internal(format!("row {} missing from hidden states", wanted[at]))
        })?;
        let head = self
            .weights
            .lm_head
            .as_ref()
            .unwrap_or(&self.weights.embed_tokens);
        let logits = linear(&tail, head, None)?;

        Ok(ForwardOutput {
            logits: logits.into_data(),
            vocab_size: self.meta.vocab_size,
            sequence_ids: batch.sequence_ids.clone(),
        })
    }
}

/// Deterministic pseudo-random weights: small, varied, reproducible.
fn weight_matrix(rows: usize, cols: usize, seed: f32) -> Matrix<f32> {
    let data = (0..rows * cols)
        .map(|i| ((i as f32 * 0.37 + seed).sin()) * 0.5)
        .collect();
    Matrix::new(data, rows, cols).unwrap()
}

fn tiny_weights(meta: &Meta, ffn: usize) -> ModelWeights {
    let h = meta.hidden_size;
    let q_dim = meta.num_attention_heads * meta.head_dim;
    let kv_dim = meta.num_kv_heads * meta.head_dim;

    let layers = (0..meta.num_layers)
        .map(|i| {
            let s = i as f32;
            LayerWeights {
                input_norm: vec![1.0; h],
                q_proj: weight_matrix(q_dim, h, s + 1.0),
                k_proj: weight_matrix(kv_dim, h, s + 2.0),
                v_proj: weight_matrix(kv_dim, h, s + 3.0),
                o_proj: weight_matrix(h, q_dim, s + 4.0),
                q_bias: None,
                k_bias: None,
                v_bias: None,
                post_attn_norm: vec![1.0; h],
                gate_proj: weight_matrix(ffn, h, s + 5.0),
                up_proj: weight_matrix(ffn, h, s + 6.0),
                down_proj: weight_matrix(h, ffn, s + 7.0),
            }
        })
        .collect();

    ModelWeights {
        embed_tokens: weight_matrix(meta.vocab_size, h, 0.5),
        layers,
        final_norm: vec![1.0; h],
        lm_head: None,
    }
}

/// A tiny model with deterministic weights, so that the forward pass can be
/// run end to end without a real checkpoint.
fn tiny_model(num_layers: usize) -> TransformerModel {
    let meta = Meta {
        hidden_size: 4,
        num_layers,
        num_attention_heads: 2,
        num_kv_heads: 1,
        head_dim: 2,
        vocab_size: 8,
    };
    let weights = tiny_weights(&meta, 8);
    TransformerModel {
        rope: rope_table(meta.head_dim, 32, 10000.0).unwrap(),
        kv: Mutex::new(KvStore::new(
            num_layers,
            16,
            4,
            meta.num_kv_heads,
            meta.head_dim,
            0.0,
        )),
        meta,
        weights,
        block_size: 4,
    }
}

fn batch_for(tokens: Vec<u32>, positions: Vec<u32>, blocks: Vec<u32>) -> ForwardBatch {
    let n = tokens.len();
    ForwardBatch {
        tokens,
        positions,
        sequence_ids: sequence_ids(1),
        slot_token_counts: vec![n],
        context_lens: vec![n],
        block_tables: vec![blocks],
        has_prefill: true,
    }
}

/// Attention over a single position must return exactly that position's
/// value, since softmax over one score is 1.0.
#[test]
fn attention_over_one_position_returns_that_value() {
    let mut s = KvStore::new(1, 2, 4, 1, 4, 0.0);
    s.write(0, 0, 0, 0, false, &[1.0, 0.0, 0.0, 0.0]).unwrap();
    s.write(0, 0, 0, 0, true, &[9.0, 8.0, 7.0, 6.0]).unwrap();

    let query = vec![1.0, 0.0, 0.0, 0.0];
    let mut out = vec![0.0; 4];
    paged_attention(
        &s,
        &query,
        AttentionArgs {
            block_table: &[0],
            context_len: 1,
            query_position: 0,
            layer: 0,
            num_query_heads: 1,
            num_kv_heads: 1,
            head_dim: 4,
            block_size: 4,
        },
        &mut out,
    )
    .unwrap();

    assert_eq!(out, vec![9.0, 8.0, 7.0, 6.0]);
}

#[test]
fn attention_output_is_a_convex_combination_of_values() {
    // Softmax weights sum to 1, so the output must lie within the range of
    // the values attended to.
    let mut s = KvStore::new(1, 2, 4, 1, 2, 0.0);
    for pos in 0..4 {
        s.write(0, 0, pos, 0, false, &[pos as f32, 0.0]).unwrap();
        s.write(0, 0, pos, 0, true, &[(pos as f32) * 10.0, 1.0])
            .unwrap();
    }

    let mut out = vec![0.0; 2];
    paged_attention(
        &s,
        &[1.0, 0.0],
        AttentionArgs {
            block_table: &[0],
            context_len: 4,
            query_position: 3,
            layer: 0,
            num_query_heads: 1,
            num_kv_heads: 1,
            head_dim: 2,
            block_size: 4,
        },
        &mut out,
    )
    .unwrap();

    assert!(
        out[0] >= 0.0 && out[0] <= 30.0,
        "out of value range: {out:?}"
    );
    // Every value's second element is 1.0, so a convex combination is 1.0.
    assert!((out[1] - 1.0).abs() < 1e-5, "weights should sum to 1");
}

#[test]
fn causal_masking_ignores_future_positions() {
    let mut s = KvStore::new(1, 4, 4, 1, 2, 0.0);
    // Position 0 has a benign value; positions 1-3 have a huge one.
    s.write(0, 0, 0, 0, false, &[1.0, 0.0]).unwrap();
    s.write(0, 0, 0, 0, true, &[5.0, 5.0]).unwrap();
    for pos in 1..4 {
        s.write(0, 0, pos, 0, false, &[1.0, 0.0]).unwrap();
        s.write(0, 0, pos, 0, true, &[1000.0, 1000.0]).unwrap();
    }

    // Querying at position 0 must not see positions 1-3.
    let mut out = vec![0.0; 2];
    paged_attention(
        &s,
        &[1.0, 0.0],
        AttentionArgs {
            block_table: &[0],
            context_len: 4,
            query_position: 0,
            layer: 0,
            num_query_heads: 1,
            num_kv_heads: 1,
            head_dim: 2,
            block_size: 4,
        },
        &mut out,
    )
    .unwrap();

    assert_eq!(
        out,
        vec![5.0, 5.0],
        "future positions leaked into the output"
    );
}

#[test]
fn attention_spans_multiple_blocks() {
    // block_size 2, so positions 0-1 live in block 0 and 2-3 in block 1.
    let mut s = KvStore::new(1, 4, 2, 1, 2, 0.0);
    let blocks = [0u32, 1];
    for pos in 0..4 {
        let (b, slot) = locate(&blocks, pos, 2).unwrap();
        s.write(0, b, slot, 0, false, &[1.0, 0.0]).unwrap();
        s.write(0, b, slot, 0, true, &[pos as f32, 1.0]).unwrap();
    }

    let mut out = vec![0.0; 2];
    paged_attention(
        &s,
        &[1.0, 0.0],
        AttentionArgs {
            block_table: &blocks,
            context_len: 4,
            query_position: 3,
            layer: 0,
            num_query_heads: 1,
            num_kv_heads: 1,
            head_dim: 2,
            block_size: 2,
        },
        &mut out,
    )
    .unwrap();

    // All keys identical, so weights are uniform: mean of 0,1,2,3 = 1.5.
    assert!((out[0] - 1.5).abs() < 1e-5, "got {out:?}");
}

#[test]
fn a_scattered_block_table_gives_the_same_answer_as_a_contiguous_one() {
    // Paging must be transparent to the arithmetic.
    let run = |blocks: &[u32]| {
        let mut s = KvStore::new(1, 8, 2, 1, 2, 0.0);
        for pos in 0..4 {
            let (b, slot) = locate(blocks, pos, 2).unwrap();
            s.write(0, b, slot, 0, false, &[pos as f32 * 0.5, 1.0])
                .unwrap();
            s.write(0, b, slot, 0, true, &[pos as f32, 2.0]).unwrap();
        }
        let mut out = vec![0.0; 2];
        paged_attention(
            &s,
            &[0.7, 0.3],
            AttentionArgs {
                block_table: blocks,
                context_len: 4,
                query_position: 3,
                layer: 0,
                num_query_heads: 1,
                num_kv_heads: 1,
                head_dim: 2,
                block_size: 2,
            },
            &mut out,
        )
        .unwrap();
        out
    };

    let contiguous = run(&[0, 1]);
    let scattered = run(&[6, 2]);
    for (a, b) in contiguous.iter().zip(scattered.iter()) {
        assert!((a - b).abs() < 1e-6, "{contiguous:?} vs {scattered:?}");
    }
}

#[test]
fn grouped_query_heads_share_kv_heads() {
    // 4 query heads over 2 KV heads: q0,q1 -> kv0 and q2,q3 -> kv1.
    let mut s = KvStore::new(1, 1, 2, 2, 2, 0.0);
    s.write(0, 0, 0, 0, false, &[1.0, 0.0]).unwrap();
    s.write(0, 0, 0, 0, true, &[10.0, 10.0]).unwrap();
    s.write(0, 0, 0, 1, false, &[1.0, 0.0]).unwrap();
    s.write(0, 0, 0, 1, true, &[20.0, 20.0]).unwrap();

    let query = vec![1.0, 0.0, 1.0, 0.0, 1.0, 0.0, 1.0, 0.0];
    let mut out = vec![0.0; 8];
    paged_attention(
        &s,
        &query,
        AttentionArgs {
            block_table: &[0],
            context_len: 1,
            query_position: 0,
            layer: 0,
            num_query_heads: 4,
            num_kv_heads: 2,
            head_dim: 2,
            block_size: 2,
        },
        &mut out,
    )
    .unwrap();

    assert_eq!(&out[0..2], &[10.0, 10.0], "q0 reads kv0");
    assert_eq!(&out[2..4], &[10.0, 10.0], "q1 also reads kv0");
    assert_eq!(&out[4..6], &[20.0, 20.0], "q2 reads kv1");
    assert_eq!(&out[6..8], &[20.0, 20.0], "q3 also reads kv1");
}

#[test]
fn attention_favours_the_most_similar_key() {
    let mut s = KvStore::new(1, 1, 4, 1, 2, 0.0);
    // Position 1's key aligns with the query; the others do not.
    s.write(0, 0, 0, 0, false, &[0.0, 1.0]).unwrap();
    s.write(0, 0, 0, 0, true, &[1.0, 0.0]).unwrap();
    s.write(0, 0, 1, 0, false, &[10.0, 0.0]).unwrap();
    s.write(0, 0, 1, 0, true, &[0.0, 1.0]).unwrap();

    let mut out = vec![0.0; 2];
    paged_attention(
        &s,
        &[10.0, 0.0],
        AttentionArgs {
            block_table: &[0],
            context_len: 2,
            query_position: 1,
            layer: 0,
            num_query_heads: 1,
            num_kv_heads: 1,
            head_dim: 2,
            block_size: 4,
        },
        &mut out,
    )
    .unwrap();

    assert!(out[1] > 0.9, "should strongly prefer position 1: {out:?}");
    assert!(out[0] < 0.1);
}

#[test]
fn a_forward_pass_produces_finite_logits_of_the_right_shape() {
    let m = tiny_model(2);
    let batch = batch_for(vec![1, 2, 3], vec![0, 1, 2], vec![0]);
    let out = m.forward(&batch).unwrap();

    assert_eq!(out.vocab_size, 8);
    assert_eq!(out.num_sequences(), 1);
    assert_eq!(out.logits.len(), 8, "one row of logits per sequence");
    assert!(
        out.logits.iter().all(|l| l.is_finite()),
        "non-finite logits: {:?}",
        out.logits
    );
}

#[test]
fn only_the_last_position_yields_logits() {
    // A 5-token prefill must still produce exactly one logits row.
    let m = tiny_model(1);
    let batch = batch_for(vec![1, 2, 3, 4, 5], vec![0, 1, 2, 3, 4], vec![0, 1]);
    let out = m.forward(&batch).unwrap();
    assert_eq!(out.logits.len(), 8);
}

#[test]
fn an_empty_batch_returns_empty_output() {
    let m = tiny_model(1);
    let batch = ForwardBatch {
        tokens: vec![],
        positions: vec![],
        sequence_ids: vec![],
        slot_token_counts: vec![],
        context_lens: vec![],
        block_tables: vec![],
        has_prefill: false,
    };
    let out = m.forward(&batch).unwrap();
    assert!(out.logits.is_empty());
    assert_eq!(out.num_sequences(), 0);
}

#[test]
fn a_batch_of_several_sequences_yields_one_row_each() {
    let m = tiny_model(1);
    let batch = ForwardBatch {
        tokens: vec![1, 2, 3, 4],
        positions: vec![0, 1, 0, 1],
        sequence_ids: sequence_ids(2),
        slot_token_counts: vec![2, 2],
        context_lens: vec![2, 2],
        block_tables: vec![vec![0], vec![1]],
        has_prefill: true,
    };
    let out = m.forward(&batch).unwrap();

    assert_eq!(out.num_sequences(), 2);
    assert_eq!(out.logits.len(), 16, "2 sequences x 8 vocab");
    assert!(out.row(0).is_some() && out.row(1).is_some());
    assert!(out.row(2).is_none());
}

#[test]
fn batched_sequences_do_not_influence_each_other() {
    // The property that makes continuous batching sound: a sequence's
    // logits must not depend on what else was in the batch.
    let m = tiny_model(2);

    let alone = m
        .forward(&ForwardBatch {
            tokens: vec![1, 2],
            positions: vec![0, 1],
            sequence_ids: sequence_ids(1),
            slot_token_counts: vec![2],
            context_lens: vec![2],
            block_tables: vec![vec![0]],
            has_prefill: true,
        })
        .unwrap();

    let together = m
        .forward(&ForwardBatch {
            tokens: vec![1, 2, 5, 6, 7],
            positions: vec![0, 1, 0, 1, 2],
            sequence_ids: sequence_ids(2),
            slot_token_counts: vec![2, 3],
            context_lens: vec![2, 3],
            block_tables: vec![vec![0], vec![4]],
            has_prefill: true,
        })
        .unwrap();

    let a = alone.row(0).unwrap();
    let b = together.row(0).unwrap();
    for (x, y) in a.iter().zip(b.iter()) {
        assert!(
            (x - y).abs() < 1e-4,
            "batching changed the result: {a:?} vs {b:?}"
        );
    }
}

#[test]
fn incremental_decode_matches_a_full_prefill() {
    // The property that makes the KV cache sound: feeding tokens one at a
    // time must give the same answer as processing them all at once.
    let full = {
        let m = tiny_model(2);
        let out = m
            .forward(&batch_for(vec![1, 2, 3], vec![0, 1, 2], vec![0]))
            .unwrap();
        out.row(0).unwrap().to_vec()
    };

    let incremental = {
        let m = tiny_model(2);
        // Prefill the first two, then decode the third.
        m.forward(&batch_for(vec![1, 2], vec![0, 1], vec![0]))
            .unwrap();
        let out = m
            .forward(&ForwardBatch {
                tokens: vec![3],
                positions: vec![2],
                sequence_ids: sequence_ids(1),
                slot_token_counts: vec![1],
                context_lens: vec![3],
                block_tables: vec![vec![0]],
                has_prefill: false,
            })
            .unwrap();
        out.row(0).unwrap().to_vec()
    };

    for (a, b) in full.iter().zip(incremental.iter()) {
        assert!(
            (a - b).abs() < 1e-4,
            "cached decode diverged from full prefill:\n{full:?}\n{incremental:?}"
        );
    }
}

#[test]
fn chunked_prefill_matches_a_single_pass() {
    // Chunking a prompt across steps must not change the result.
    let whole = {
        let m = tiny_model(2);
        m.forward(&batch_for(vec![1, 2, 3, 4], vec![0, 1, 2, 3], vec![0]))
            .unwrap()
            .row(0)
            .unwrap()
            .to_vec()
    };

    let chunked = {
        let m = tiny_model(2);
        m.forward(&batch_for(vec![1, 2], vec![0, 1], vec![0]))
            .unwrap();
        m.forward(&ForwardBatch {
            tokens: vec![3, 4],
            positions: vec![2, 3],
            sequence_ids: sequence_ids(1),
            slot_token_counts: vec![2],
            context_lens: vec![4],
            block_tables: vec![vec![0]],
            has_prefill: true,
        })
        .unwrap()
        .row(0)
        .unwrap()
        .to_vec()
    };

    for (a, b) in whole.iter().zip(chunked.iter()) {
        assert!((a - b).abs() < 1e-4, "{whole:?} vs {chunked:?}");
    }
}

#[test]
fn a_scattered_block_table_gives_identical_logits() {
    // Paging must be invisible to the arithmetic.
    let contiguous = {
        let m = tiny_model(2);
        m.forward(&batch_for(
            vec![1, 2, 3, 4, 5],
            vec![0, 1, 2, 3, 4],
            vec![0, 1],
        ))
        .unwrap()
        .row(0)
        .unwrap()
        .to_vec()
    };
    let scattered = {
        let m = tiny_model(2);
        m.forward(&batch_for(
            vec![1, 2, 3, 4, 5],
            vec![0, 1, 2, 3, 4],
            vec![11, 3],
        ))
        .unwrap()
        .row(0)
        .unwrap()
        .to_vec()
    };

    for (a, b) in contiguous.iter().zip(scattered.iter()) {
        assert!((a - b).abs() < 1e-5, "{contiguous:?} vs {scattered:?}");
    }
}

#[test]
fn different_prompts_give_different_logits() {
    // A sanity check that the model is actually reading its input.
    let m = tiny_model(2);
    let a = m
        .forward(&batch_for(vec![1, 1, 1], vec![0, 1, 2], vec![0]))
        .unwrap()
        .row(0)
        .unwrap()
        .to_vec();
    let b = m
        .forward(&batch_for(vec![5, 6, 4], vec![0, 1, 2], vec![2]))
        .unwrap()
        .row(0)
        .unwrap()
        .to_vec();

    let differs = a.iter().zip(b.iter()).any(|(x, y)| (x - y).abs() > 1e-4);
    assert!(differs, "the model ignored its input");
}

#[test]
fn linear_rejects_mismatched_shapes() {
    let x = Matrix::new(vec![1.0; 3], 1, 3).unwrap();
    let w = Matrix::new(vec![1.0; 4], 2, 2).unwrap();
    assert!(linear(&x, &w, None).is_err());

    let w2 = Matrix::new(vec![1.0; 3], 1, 3).unwrap();
    assert!(
        linear(&x, &w2, Some(&[1.0, 2.0])).is_err(),
        "bad bias length"
    );
}

#[test]
fn rms_norm_rejects_a_mismatched_weight() {
    let mut x = Matrix::new(vec![1.0; 4], 1, 4).unwrap();
    assert!(rms_norm(&mut x, &[1.0, 1.0], 1e-5).is_err());
}

#[test]
fn swiglu_rejects_mismatched_shapes() {
    let mut gate = zeros(1, 2).unwrap();
    let up = zeros(1, 3).unwrap();
    assert!(swiglu(&mut gate, &up).is_err());
}

#[test]
fn rope_tables_have_the_expected_shape() {
    let t = rope_table(4, 8, 10000.0).unwrap();
    assert_eq!(t.head_dim(), 4);
    let (cos, sin) = t.at(0).unwrap();
    assert_eq!(cos.len(), 2);
    assert_eq!(sin.len(), 2);
    // Position zero has zero angle everywhere.
    assert!(cos.iter().all(|&c| approx(c, 1.0, 1e-6)));
    assert!(sin.iter().all(|&s| approx(s, 0.0, 1e-6)));
    assert!(t.at(8).is_none(), "out of range");
}

#[test]
fn rope_requires_an_even_head_dim() {
    assert!(rope_table(3, 8, 10000.0).is_err());
}

#[test]
fn rope_rejects_a_mismatched_table_width() {
    let mut v = vec![1.0; 4];
    assert!(apply_rope(&mut v, &[1.0], &[0.0]).is_err());
}

#[test]
fn mismatched_head_grouping_is_rejected() {
    let s = KvStore::new(1, 1, 2, 2, 2, 0.0);
    let mut out = vec![0.0; 6];
    let err = paged_attention(
        &s,
        &[0.0; 6],
        AttentionArgs {
            block_table: &[0],
            context_len: 1,
            query_position: 0,
            layer: 0,
            num_query_heads: 3,
            num_kv_heads: 2,
            head_dim: 2,
            block_size: 2,
        },
        &mut out,
    );
    assert!(err.is_err(), "3 query heads do not divide over 2 kv heads");
}

#[test]
fn a_position_outside_the_block_table_is_an_error() {
    let s = KvStore::new(1, 1, 2, 1, 2, 0.0);
    let mut out = vec![0.0; 2];
    // Position 5 needs a third block; the table has one.
    let err = paged_attention(
        &s,
        &[1.0, 0.0],
        AttentionArgs {
            block_table: &[0],
            context_len: 6,
            query_position: 5,
            layer: 0,
            num_query_heads: 1,
            num_kv_heads: 1,
            head_dim: 2,
            block_size: 2,
        },
        &mut out,
    );
    assert!(matches!(err, Err(EngineError::Internal(_))));
}

#[test]
fn an_out_of_vocabulary_token_is_an_error_not_a_panic() {
    let m = tiny_model(1);
    let err = m
        .forward(&batch_for(vec![999], vec![0], vec![0]))
        .unwrap_err();
    assert!(matches!(err, EngineError::Internal(_)));
}

#[test]
fn a_position_beyond_the_rope_table_is_an_error() {
    let m = tiny_model(1);
    // max_position_embeddings is 32.
    let err = m
        .forward(&batch_for(
            vec![1],
            vec![100],
            vec![
                0, 1, 2, 3, 4, 5, 6, 7, 8, 9, 10, 11, 12, 13, 14, 15, 16, 17, 18, 19, 20, 21,
                22, 23, 24, 25,
            ],
        ))
        .unwrap_err();
    assert!(matches!(err, EngineError::Internal(_)));
}

#[test]
fn an_inconsistent_batch_is_rejected_before_compute() {
    let m = tiny_model(1);
    let mut batch = batch_for(vec![1, 2], vec![0, 1], vec![0]);
    batch.slot_token_counts = vec![5]; // does not match token count
    assert!(m.forward(&batch).is_err());
}
