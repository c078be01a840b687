//! What the operations of a forward pass compute.

use vstd::prelude::*;

use crate::calc::{
    angle, decay, fold2, l2, number, products, rms, score, sigmoid, silu, softmax, turned, values,
    weighted, Calc, Math, LARGEST_QUANT,
};
use crate::error::GgufError;
use crate::model::kv_cache::{overwritten, slot, KvCache};
use crate::model::kv_dtype::{half_bytes, kv_block, scaled_bytes, KvDtype};
use crate::model::llama::conv::{advanced, taps, window};
use crate::model::llama::delta::{consistent, key, query, state_column, state_len, value};
use crate::model::llama::kernels::segment;
use crate::model::llama::load::LlamaModel;
use crate::model::llama::program::{Buffer, Matrix, Meaning, Memory, Op, Role};
use crate::model::llama::state::InferenceState;
use crate::model::llama::types::{Attention, GatedDeltaNet, GdnDims, Mixer, ShortConv};
use crate::model::matmul::{
    is_first_fault, is_first_pair_fault, multipliable, pair_multipliable, pair_ok, pair_rows,
    product,
};
use crate::model::weights::{is_row_fault, last_named, row_ok, tensor_name};
use crate::quant::block::{blocks_of, quantized_elements, Element};
use crate::quant::q8_k::peak;
use crate::quant::{elements_of, half_elements, half_values, q8_0};
use crate::single::{magnitude, ONE, ZERO};
use crate::types::TensorView;

verus! {

/// What a buffer holds: numbers, or the packed keys and values of a cache layer.
pub enum Contents {
    Numbers(Seq<u32>),
    Packed(Seq<u8>, Seq<u8>),
}

impl Contents {
    /// The numbers.
    pub open spec fn numbers(self) -> Seq<u32> {
        match self {
            Contents::Numbers(s) => s,
            Contents::Packed(_, _) => Seq::empty(),
        }
    }

    /// The packed keys.
    pub open spec fn keys(self) -> Seq<u8> {
        match self {
            Contents::Numbers(_) => Seq::empty(),
            Contents::Packed(k, _) => k,
        }
    }

    /// The packed values.
    pub open spec fn vals(self) -> Seq<u8> {
        match self {
            Contents::Numbers(_) => Seq::empty(),
            Contents::Packed(_, v) => v,
        }
    }

    /// How much a buffer holds.
    pub open spec fn size(self) -> nat {
        match self {
            Contents::Numbers(s) => s.len(),
            Contents::Packed(k, _) => k.len(),
        }
    }
}

/// What a buffer of one layer holds, or nothing where there is no such layer.
pub open spec fn of_layer(buffers: Seq<Vec<u32>>, i: usize) -> Contents {
    Contents::Numbers(
        if i < buffers.len() {
            buffers[i as int]@
        } else {
            Seq::empty()
        },
    )
}

/// What the buffers of a state and of a cache hold.
pub open spec fn memory(s: InferenceState<u32>, cache: KvCache) -> Memory<Contents> {
    |b: Buffer|
        match b {
            Buffer::X => Contents::Numbers(s.x@),
            Buffer::Xn => Contents::Numbers(s.xn@),
            Buffer::Q => Contents::Numbers(s.q@),
            Buffer::K => Contents::Numbers(s.k@),
            Buffer::V => Contents::Numbers(s.v@),
            Buffer::AttnOut => Contents::Numbers(s.attn_out@),
            Buffer::Proj => Contents::Numbers(s.proj@),
            Buffer::Gate => Contents::Numbers(s.gate@),
            Buffer::Up => Contents::Numbers(s.up@),
            Buffer::FfnAct => Contents::Numbers(s.ffn_act@),
            Buffer::Logits => Contents::Numbers(s.logits@),
            Buffer::Bcx => Contents::Numbers(s.bcx@),
            Buffer::Bx => Contents::Numbers(s.bx@),
            Buffer::ConvOut => Contents::Numbers(s.conv_out@),
            Buffer::QgRaw => Contents::Numbers(s.ga_qg_raw@),
            Buffer::QgGate => Contents::Numbers(s.ga_gate@),
            Buffer::GdnQkv => Contents::Numbers(s.gdn_qkv@),
            Buffer::GdnConv => Contents::Numbers(s.gdn_conv_out@),
            Buffer::GdnZ => Contents::Numbers(s.gdn_z@),
            Buffer::GdnBeta => Contents::Numbers(s.gdn_beta_raw@),
            Buffer::GdnAlpha => Contents::Numbers(s.gdn_alpha_raw@),
            Buffer::GdnOut => Contents::Numbers(s.gdn_out@),
            Buffer::Cache(i) => if i < cache@.k.len() {
                Contents::Packed(cache@.k[i as int], cache@.v[i as int])
            } else {
                Contents::Packed(Seq::empty(), Seq::empty())
            },
            Buffer::ConvHistory(i) => of_layer(s.conv_state@, i),
            Buffer::GdnHistory(i) => of_layer(s.gdn_conv_state@, i),
            Buffer::GdnState(i) => of_layer(s.gdn_recurrent_state@, i),
        }
}

/// How much the buffers hold.
pub type Sizes = spec_fn(Buffer) -> nat;

/// How much the buffers of a memory hold.
pub open spec fn sizes(m: Memory<Contents>) -> Sizes {
    |b: Buffer| m(b).size()
}

/// One pass: the calculator, the token and its position, and the shape of the
/// cache.
pub struct Pass {
    pub math: Math,
    pub token: u32,
    pub pos: usize,
    pub dtype: KvDtype,
    /// The layers of the cache.
    pub layers: nat,
    /// The positions of the cache.
    pub slots: nat,
    /// The elements of each key and value.
    pub width: nat,
}

/// The pass for a token at a position with a cache.
pub open spec fn pass_of(m: Math, token: u32, pos: usize, cache: KvCache) -> Pass {
    Pass {
        math: m,
        token,
        pos,
        dtype: cache@.dtype,
        layers: cache@.k.len(),
        slots: cache@.max_seq_len,
        width: cache@.head_dim_kv,
    }
}

// ── The numbers that operations compute ─────────────────────────────────────

/// The norm of a vector, over the elements of `before`.
pub open spec fn normed(
    m: Math,
    eps: u32,
    w: Seq<u32>,
    x: Seq<u32>,
    before: Seq<u32>,
) -> Seq<u32> {
    Seq::new(
        before.len(),
        |i: int|
            if i < x.len() && i < w.len() {
                weighted(m, w[i], x[i], rms(m, eps, x))
            } else {
                before[i]
            },
    )
}

/// The norm of each head of `len` elements.
pub open spec fn heads_normed(m: Math, eps: u32, w: Seq<u32>, x: Seq<u32>, len: int) -> Seq<u32> {
    Seq::new(
        x.len(),
        |i: int| weighted(m, w[i % len], x[i], rms(m, eps, segment(x, 0, len, i / len))),
    )
}

/// The rotation of each head of `len` elements: element `d` of the first half of
/// the rotated ones goes with element `d` of the second half.
pub open spec fn heads_rotated(
    m: Math,
    x: Seq<u32>,
    len: int,
    n_rot: usize,
    pos: usize,
    theta: u32,
) -> Seq<u32> {
    let half = n_rot as int / 2;
    Seq::new(
        x.len(),
        |i: int|
            {
                let d = i % len;
                if d < half {
                    turned(m, x[i], x[i + half], angle(m, pos, d as usize, n_rot, theta)).0
                } else if d < 2 * half {
                    turned(
                        m,
                        x[i - half],
                        x[i],
                        angle(m, pos, (d - half) as usize, n_rot, theta),
                    ).1
                } else {
                    x[i]
                }
            },
    )
}

/// The scale of a block of a vector for the cache: its largest magnitude over 127,
/// and one where it holds nothing but zeros.
pub open spec fn cache_scale(m: Math, block: Seq<u32>) -> u32 {
    match peak(block) {
        Some(p) => m(Calc::Div(magnitude(p) as u32, LARGEST_QUANT)),
        None => ONE,
    }
}

/// A rounded quotient as it is stored in the cache: between -127 and 127.
pub open spec fn clamped(v: i32) -> i8 {
    if v < -127 {
        -127i8
    } else if v > 127 {
        127i8
    } else {
        v as i8
    }
}

/// The bytes of a vector in the cache.
pub open spec fn packed(m: Math, dtype: KvDtype, x: Seq<u32>) -> Seq<u8> {
    match dtype {
        KvDtype::F16 => half_bytes(Seq::new(x.len(), |i: int| m(Calc::ToHalf(x[i])) as u16)),
        KvDtype::Q8_0 => scaled_bytes(
            Seq::new(
                blocks_of(x.len(), 32),
                |b: int| m(Calc::ToHalf(cache_scale(m, kv_block(x, b)))) as u16,
            ),
            Seq::new(
                x.len(),
                |i: int|
                    clamped(
                        m(
                            Calc::Round(
                                m(Calc::Div(x[i], cache_scale(m, kv_block(x, i / 32)))),
                            ),
                        ) as i32,
                    ),
            ),
        ),
    }
}

/// A cache layer with a vector at a position.
pub open spec fn cached(p: Pass, layer: Seq<u8>, x: Seq<u32>) -> Seq<u8> {
    overwritten(
        layer,
        p.pos * p.dtype.spec_bytes_per_token(p.width) as int,
        packed(p.math, p.dtype, x),
    )
}

/// The elements of a packed vector.
pub open spec fn unpacked(dtype: KvDtype, bytes: Seq<u8>, n: nat) -> Seq<Element> {
    match dtype {
        KvDtype::F16 => half_elements(half_values(bytes, n)),
        KvDtype::Q8_0 => quantized_elements(q8_0::weights_of(bytes, n)),
    }
}

/// The vectors of a cache layer up to the position of the pass.
pub open spec fn recalled(p: Pass, layer: Seq<u8>) -> Seq<Seq<u32>> {
    Seq::new(
        (p.pos + 1) as nat,
        |t: int|
            values(
                p.math,
                unpacked(
                    p.dtype,
                    slot(layer, t, p.dtype.spec_bytes_per_token(p.width) as int),
                    p.width,
                ),
            ),
    )
}

/// The scores of the keys for query head `h`.
pub open spec fn head_scores(
    m: Math,
    q: Seq<u32>,
    keys: Seq<Seq<u32>>,
    len: int,
    group: int,
    h: int,
) -> Seq<u32> {
    Seq::new(
        keys.len(),
        |t: int|
            score(
                m,
                q.subrange(h * len, h * len + len),
                keys[t].subrange(h / group * len, h / group * len + len),
            ),
    )
}

/// What attention gives: each head is the sum of the values of its K/V head, with
/// the weights that the scores give.
pub open spec fn attended(
    m: Math,
    q: Seq<u32>,
    keys: Seq<Seq<u32>>,
    vals: Seq<Seq<u32>>,
    n_heads: int,
    len: int,
    group: int,
) -> Seq<u32> {
    Seq::new(
        (n_heads * len) as nat,
        |i: int|
            fold2(
                products(m),
                ZERO,
                softmax(m, head_scores(m, q, keys, len, group, i / len)),
                Seq::new(vals.len(), |t: int| vals[t][i / len / group * len + i % len]),
            ),
    )
}

/// The half of every head of a fused projection.
pub open spec fn split_off(raw: Seq<u32>, n_heads: int, len: int, second: bool) -> Seq<u32> {
    Seq::new(
        (n_heads * len) as nat,
        |i: int|
            raw[2 * (i / len * len) + (if second {
                len
            } else {
                0
            }) + i % len],
    )
}

/// Numbers with a gate each.
pub open spec fn gated(m: Math, x: Seq<u32>, gate: Seq<u32>) -> Seq<u32> {
    Seq::new(x.len(), |i: int| m(Calc::Mul(x[i], sigmoid(m, gate[i]))))
}

/// The input of a short convolution: the first third of the projection times the
/// last.
pub open spec fn gate_input(m: Math, bcx: Seq<u32>, d: int) -> Seq<u32> {
    Seq::new(d as nat, |j: int| m(Calc::Mul(bcx[j], bcx[2 * d + j])))
}

/// What a depthwise causal convolution gives for channel `ch`.
pub open spec fn convolved(
    m: Math,
    history: Seq<u32>,
    weight: Seq<u32>,
    input: Seq<u32>,
    channels: int,
    kernel: int,
    ch: int,
) -> u32 {
    fold2(
        products(m),
        ZERO,
        taps(weight, kernel, ch),
        window(history, input, channels, kernel, ch),
    )
}

/// What a short convolution gives.
pub open spec fn short_convolved(
    m: Math,
    history: Seq<u32>,
    weight: Seq<u32>,
    bcx: Seq<u32>,
    d: int,
    kernel: int,
) -> Seq<u32> {
    Seq::new(
        d as nat,
        |ch: int|
            m(
                Calc::Mul(
                    bcx[d + ch],
                    convolved(m, history, weight, gate_input(m, bcx, d), d, kernel, ch),
                ),
            ),
    )
}

/// What the convolution of a Gated DeltaNet layer gives.
pub open spec fn silu_convolved(
    m: Math,
    history: Seq<u32>,
    weight: Seq<u32>,
    input: Seq<u32>,
    dims: GdnDims,
) -> Seq<u32> {
    Seq::new(
        dims.conv_dim as nat,
        |ch: int|
            silu(
                m,
                convolved(
                    m,
                    history,
                    weight,
                    input,
                    dims.conv_dim as int,
                    dims.d_conv as int,
                    ch,
                ),
            ),
    )
}

/// The write gates of a Gated DeltaNet layer.
pub open spec fn write_gates(m: Math, raw: Seq<u32>) -> Seq<u32> {
    Seq::new(raw.len(), |h: int| sigmoid(m, raw[h]))
}

/// The decays of a Gated DeltaNet layer.
pub open spec fn decays(m: Math, raw: Seq<u32>, bias: Seq<u32>, a: Seq<u32>) -> Seq<u32> {
    Seq::new(raw.len(), |h: int| decay(m, raw[h], bias[h], a[h]))
}

/// Queries and keys of a Gated DeltaNet layer, each head over its norm; the values
/// as they are.
pub open spec fn keys_normed(m: Math, eps: u32, x: Seq<u32>, dims: GdnDims) -> Seq<u32> {
    let len = dims.head_k_dim as int;
    Seq::new(
        x.len(),
        |i: int|
            if i < 2 * dims.key_dim {
                m(Calc::Div(x[i], l2(m, eps, segment(x, 0, len, i / len))))
            } else {
                x[i]
            },
    )
}

/// What the state of head `h` predicts for element `b` of the value.
pub open spec fn predicted(
    m: Math,
    state: Seq<u32>,
    qkv: Seq<u32>,
    dims: GdnDims,
    h: int,
    b: int,
) -> u32 {
    fold2(products(m), ZERO, state_column(state, dims, h, b), key(qkv, dims, h))
}

/// By how much element `b` of the value of head `h` is corrected.
pub open spec fn correction(
    m: Math,
    state: Seq<u32>,
    qkv: Seq<u32>,
    beta: Seq<u32>,
    dims: GdnDims,
    h: int,
    b: int,
) -> u32 {
    m(
        Calc::Mul(
            beta[h],
            m(Calc::Sub(value(qkv, dims, h, b), predicted(m, state, qkv, dims, h, b))),
        ),
    )
}

/// The head that a cell of the state belongs to.
pub open spec fn cell_head(dims: GdnDims, i: int) -> int {
    i / dims.head_v_dim as int / dims.head_k_dim as int
}

/// The row of a cell of the state within its head.
pub open spec fn cell_row(dims: GdnDims, i: int) -> int {
    i / dims.head_v_dim as int % dims.head_k_dim as int
}

/// The column of a cell of the state within its head.
pub open spec fn cell_column(dims: GdnDims, i: int) -> int {
    i % dims.head_v_dim as int
}

/// The state after a step of the delta rule.
pub open spec fn stepped(
    m: Math,
    state: Seq<u32>,
    qkv: Seq<u32>,
    beta: Seq<u32>,
    decay: Seq<u32>,
    dims: GdnDims,
) -> Seq<u32> {
    Seq::new(
        state_len(dims) as nat,
        |i: int|
            {
                let h = cell_head(dims, i);
                m(
                    Calc::Add(
                        m(Calc::Mul(decay[h], state[i])),
                        m(
                            Calc::Mul(
                                key(qkv, dims, h)[cell_row(dims, i)],
                                correction(m, state, qkv, beta, dims, h, cell_column(dims, i)),
                            ),
                        ),
                    ),
                )
            },
    )
}

/// The scale of the queries: one over the root of their length.
pub open spec fn query_scale(m: Math, dims: GdnDims) -> u32 {
    m(Calc::Div(ONE, m(Calc::Sqrt(m(Calc::OfCount(dims.head_k_dim))))))
}

/// Taking cells of the state into a sum, each with its element of the query.
pub open spec fn readings(m: Math, scale: u32) -> spec_fn(u32, u32, u32) -> u32 {
    |acc: u32, s: u32, q: u32| m(Calc::Add(acc, m(Calc::Mul(m(Calc::Mul(scale, q)), s))))
}

/// What the queries read from the state.
pub open spec fn read_out(m: Math, state: Seq<u32>, qkv: Seq<u32>, dims: GdnDims) -> Seq<u32> {
    let len = dims.head_v_dim as int;
    Seq::new(
        dims.value_dim as nat,
        |i: int|
            fold2(
                readings(m, query_scale(m, dims)),
                ZERO,
                state_column(state, dims, i / len, i % len),
                query(qkv, dims, i / len),
            ),
    )
}

/// The gated norm of each head of the output of a Gated DeltaNet layer.
pub open spec fn heads_gated(
    m: Math,
    eps: u32,
    w: Seq<u32>,
    x: Seq<u32>,
    z: Seq<u32>,
    len: int,
) -> Seq<u32> {
    Seq::new(
        x.len(),
        |i: int|
            m(
                Calc::Mul(
                    weighted(m, w[i % len], x[i], rms(m, eps, segment(x, 0, len, i / len))),
                    silu(m, z[i]),
                ),
            ),
    )
}

/// The combination of the two projections of a feed-forward block.
pub open spec fn combined(m: Math, gate: Seq<u32>, up: Seq<u32>) -> Seq<u32> {
    Seq::new(gate.len(), |i: int| m(Calc::Mul(silu(m, gate[i]), up[i])))
}

/// The combination of the first `rows` numbers of the two projections of a feed-forward
/// block, over the first elements of `before`.
pub open spec fn combined_over(
    m: Math,
    rows: nat,
    gate: Seq<u32>,
    up: Seq<u32>,
    before: Seq<u32>,
) -> Seq<u32> {
    Seq::new(
        before.len(),
        |i: int|
            if i < rows {
                m(Calc::Mul(silu(m, gate[i]), up[i]))
            } else {
                before[i]
            },
    )
}

/// The sum of two vectors.
pub open spec fn added(m: Math, x: Seq<u32>, delta: Seq<u32>) -> Seq<u32> {
    Seq::new(x.len(), |i: int| m(Calc::Add(x[i], delta[i])))
}

// ── What operations find in a model ─────────────────────────────────────────

/// The name of the norm of queries or of keys of a layer.
pub open spec fn head_norm_name(model: LlamaModel, i: usize, queries: bool) -> Option<Seq<char>> {
    if i >= model.layers@.len() {
        None
    } else {
        match model.layers@[i as int].mixer {
            Mixer::Attention(a) => match if queries {
                a.q_norm
            } else {
                a.k_norm
            } {
                Some(name) => Some(name@),
                None => None,
            },
            Mixer::GatedAttention(a) => Some(
                if queries {
                    a.q_norm@
                } else {
                    a.k_norm@
                },
            ),
            _ => None,
        }
    }
}

/// A tensor of a model.
pub open spec fn tensor(model: LlamaModel, name: Seq<char>) -> Option<TensorView> {
    last_named(model.weights.tensor_list(), name)
}

/// The values of a row of a tensor.
pub open spec fn row_values(m: Math, model: LlamaModel, t: TensorView, row: nat) -> Seq<u32> {
    values(
        m,
        elements_of(
            t.ggml_type,
            model.weights.bytes().skip(t.row_offset(row) as int),
            t.row_len(),
        ),
    )
}

/// The short-conv weights of a layer.
pub open spec fn conv_of(model: LlamaModel, i: usize) -> Option<ShortConv> {
    if i >= model.layers@.len() {
        None
    } else {
        match model.layers@[i as int].mixer {
            Mixer::ShortConv(c) => Some(c),
            _ => None,
        }
    }
}

/// The Gated DeltaNet weights of a layer.
pub open spec fn delta_of(model: LlamaModel, i: usize) -> Option<GatedDeltaNet> {
    if i >= model.layers@.len() {
        None
    } else {
        match model.layers@[i as int].mixer {
            Mixer::GatedDeltaNet(g) => Some(g),
            _ => None,
        }
    }
}

/// Whether the vector is quantized first for a product with a matrix. The two
/// projections of a feed-forward block are computed with the vector as it is.
pub open spec fn quantizes(matrix: Matrix) -> bool {
    match matrix {
        Matrix::Layer(_, Role::FfnGate) => false,
        Matrix::Layer(_, Role::FfnUp) => false,
        _ => true,
    }
}

/// The layer of whose feed-forward block a matrix is one of the two projections that are
/// computed together.
pub open spec fn projection_of(matrix: Matrix) -> Option<usize> {
    match matrix {
        Matrix::Layer(i, Role::FfnGate) => Some(i),
        Matrix::Layer(i, Role::FfnUp) => Some(i),
        _ => None,
    }
}

/// The name of the first projection of a feed-forward block.
pub open spec fn gate_name(model: LlamaModel, i: usize) -> Seq<char> {
    model.spec_matrix_name(Matrix::Layer(i, Role::FfnGate))->0
}

/// The name of the second projection of a feed-forward block.
pub open spec fn up_name(model: LlamaModel, i: usize) -> Seq<char> {
    model.spec_matrix_name(Matrix::Layer(i, Role::FfnUp))->0
}

/// How many rows the two projections of a feed-forward block have.
pub open spec fn gate_rows(model: LlamaModel, i: usize) -> nat {
    pair_rows(tensor(model, gate_name(model, i))->0)
}

/// How many rows of a matrix are multiplied.
pub open spec fn rows_of(model: LlamaModel, matrix: Matrix) -> nat {
    match projection_of(matrix) {
        Some(i) => gate_rows(model, i),
        None => (tensor(model, model.spec_matrix_name(matrix)->0)->0).row_count(),
    }
}

/// The small number under the roots of norms.
pub open spec fn eps_of(m: Math, model: LlamaModel) -> u32 {
    number(m, model.cfg.layer_norm_rms_epsilon)
}

/// The number of rotated dimensions of each head.
pub open spec fn rotated_of(model: LlamaModel, partial: bool) -> usize {
    if partial {
        model.n_rot
    } else {
        model.cfg.head_dim as usize
    }
}

// ── The meaning of the operations ───────────────────────────────────────────

/// What an operation puts into a buffer that it writes, from what the buffers that
/// it reads hold.
#[verifier::opaque]
pub open spec fn effect(
    model: LlamaModel,
    p: Pass,
    op: Op,
    b: Buffer,
    inputs: Seq<Contents>,
) -> Contents {
    let m = p.math;
    let eps = eps_of(m, model);
    let theta = number(m, model.cfg.rope_freq_base);
    let len = model.cfg.head_dim as int;
    let a = inputs[0].numbers();
    match op {
        Op::Embed => Contents::Numbers(
            row_values(m, model, tensor(model, model.token_embd@)->0, p.token as nat),
        ),
        Op::Norm(n) => Contents::Numbers(
            normed(
                m,
                eps,
                values(m, (model.spec_norm_weights(n)->0).elements()),
                a,
                inputs[1].numbers(),
            ),
        ),
        Op::MatMul(matrix, _, _) => Contents::Numbers(
            product(
                m,
                tensor(model, model.spec_matrix_name(matrix)->0)->0,
                rows_of(model, matrix),
                model.weights.bytes(),
                a,
                quantizes(matrix),
                inputs[1].numbers(),
            ),
        ),
        Op::NormQ(i) => Contents::Numbers(
            heads_normed(
                m,
                eps,
                row_values(m, model, tensor(model, head_norm_name(model, i, true)->0)->0, 0),
                a,
                len,
            ),
        ),
        Op::NormK(i) => Contents::Numbers(
            heads_normed(
                m,
                eps,
                row_values(m, model, tensor(model, head_norm_name(model, i, false)->0)->0, 0),
                a,
                len,
            ),
        ),
        Op::RotateQ(partial) | Op::RotateK(partial) => Contents::Numbers(
            heads_rotated(m, a, len, rotated_of(model, partial), p.pos, theta),
        ),
        Op::CacheWrite(_) => Contents::Packed(
            cached(p, inputs[2].keys(), a),
            cached(p, inputs[2].vals(), inputs[1].numbers()),
        ),
        Op::Attend(_) => Contents::Numbers(
            attended(
                m,
                a,
                recalled(p, inputs[1].keys()),
                recalled(p, inputs[1].vals()),
                model.cfg.head_count as int,
                len,
                model.cfg.head_count as int / model.cfg.head_count_kv as int,
            ),
        ),
        Op::SplitQg => Contents::Numbers(
            split_off(a, model.cfg.head_count as int, len, b == Buffer::QgGate),
        ),
        Op::GateAttn => Contents::Numbers(gated(m, a, inputs[1].numbers())),
        Op::ShortConv(i) => {
            let d = model.cfg.embedding_length as int;
            let history = inputs[1].numbers();
            Contents::Numbers(
                if b == Buffer::ConvOut {
                    short_convolved(
                        m,
                        history,
                        values(m, (conv_of(model, i)->0).conv_weight.elements()),
                        a,
                        d,
                        model.l_cache as int,
                    )
                } else if b == Buffer::Bx {
                    gate_input(m, a, d)
                } else {
                    advanced(history, gate_input(m, a, d))
                },
            )
        },
        Op::GateDecay(i) => Contents::Numbers(
            if b == Buffer::GdnBeta {
                write_gates(m, a)
            } else {
                decays(
                    m,
                    inputs[1].numbers(),
                    values(m, (delta_of(model, i)->0).ssm_dt_bias.elements()),
                    values(m, (delta_of(model, i)->0).ssm_a.elements()),
                )
            },
        ),
        Op::GdnConv(i) => {
            let history = inputs[1].numbers();
            Contents::Numbers(
                if b == Buffer::GdnConv {
                    silu_convolved(
                        m,
                        history,
                        values(m, (delta_of(model, i)->0).conv_weight.elements()),
                        a,
                        model.gdn_dims->0,
                    )
                } else {
                    advanced(history, a)
                },
            )
        },
        Op::L2Norm => Contents::Numbers(keys_normed(m, eps, a, model.gdn_dims->0)),
        Op::Recur(_) => {
            let dims = model.gdn_dims->0;
            let next = stepped(
                m,
                inputs[3].numbers(),
                a,
                inputs[1].numbers(),
                inputs[2].numbers(),
                dims,
            );
            Contents::Numbers(
                if b == Buffer::GdnOut {
                    read_out(m, next, a, dims)
                } else {
                    next
                },
            )
        },
        Op::GatedNorm(i) => Contents::Numbers(
            heads_gated(
                m,
                eps,
                values(m, (delta_of(model, i)->0).ssm_norm.elements()),
                a,
                inputs[1].numbers(),
                (model.gdn_dims->0).head_v_dim as int,
            ),
        ),
        Op::SiluMul(i) => Contents::Numbers(
            combined_over(
                m,
                gate_rows(model, i),
                a,
                inputs[1].numbers(),
                inputs[2].numbers(),
            ),
        ),
        Op::AddResidual => Contents::Numbers(added(m, a, inputs[1].numbers())),
    }
}

/// What the operations compute in a pass.
pub open spec fn meaning(model: LlamaModel, p: Pass) -> Meaning<Contents> {
    |op: Op, b: Buffer, inputs: Seq<Contents>| effect(model, p, op, b, inputs)
}

// ── Where an operation is defined, and where it succeeds ────────────────────

/// Whether a tensor, where it is there, can be read at a row.
pub open spec fn readable(model: LlamaModel, name: Seq<char>, row: nat) -> bool {
    tensor(model, name) matches Some(t) ==> t.row_computable(row)
}

/// Whether the weights of a Gated DeltaNet layer have the lengths that go with its
/// dimensions.
pub open spec fn delta_fits(g: GatedDeltaNet, dims: GdnDims) -> bool {
    &&& consistent(dims)
    &&& 1 <= dims.d_conv
    &&& dims.conv_dim * dims.d_conv <= g.conv_weight.elements().len()
    &&& dims.n_v_heads <= g.ssm_a.elements().len()
    &&& dims.n_v_heads <= g.ssm_dt_bias.elements().len()
    &&& dims.head_v_dim <= g.ssm_norm.elements().len()
}

/// Whether an operation is defined: what it names is there, and the buffers have
/// the lengths that it takes.
#[verifier::opaque]
pub open spec fn ready(model: LlamaModel, p: Pass, n: Sizes, op: Op) -> bool {
    let heads = model.cfg.head_count as int;
    let kv_heads = model.cfg.head_count_kv as int;
    let len = model.cfg.head_dim as int;
    let d = model.cfg.embedding_length as int;
    &&& heads <= usize::MAX
    &&& kv_heads <= usize::MAX
    &&& len <= usize::MAX
    &&& d <= usize::MAX
    &&& match op {
        Op::Embed => {
            &&& readable(model, model.token_embd@, p.token as nat)
            &&& tensor(model, model.token_embd@) matches Some(t) ==> row_ok(
                t,
                model.weights.bytes().len(),
                p.token as nat,
            ) ==> t.row_len() == n(Buffer::X)
        },
        Op::Norm(norm) => model.spec_norm_weights(norm) is Some,
        Op::MatMul(matrix, from, to) => {
            &&& numeric(from) && numeric(to) && from != to
            &&& model.spec_matrix_name(matrix) matches Some(name) && match projection_of(matrix) {
                Some(i) => projections_ready(model, i, n(from), n(to), n(Buffer::FfnAct)),
                None => tensor(model, name) matches Some(t) ==> multipliable(t, n(from))
                    && t.row_count() <= n(to),
            }
        },
        Op::NormQ(i) => {
            &&& head_norm_ready(model, i, true)
            &&& head_norm_ok(model, i, true) ==> n(Buffer::Q) == heads * len
        },
        Op::NormK(i) => {
            &&& head_norm_ready(model, i, false)
            &&& head_norm_ok(model, i, false) ==> n(Buffer::K) == kv_heads * len
        },
        Op::RotateQ(partial) => {
            &&& n(Buffer::Q) == heads * len
            &&& 2 * (rotated_of(model, partial) as int / 2) <= len
        },
        Op::RotateK(partial) => {
            &&& n(Buffer::K) == kv_heads * len
            &&& 2 * (rotated_of(model, partial) as int / 2) <= len
        },
        Op::CacheWrite(i) => {
            &&& i < p.layers
            &&& p.pos < p.slots
            &&& n(Buffer::K) == p.width
            &&& n(Buffer::V) == p.width
        },
        Op::Attend(i) => {
            &&& i < p.layers
            &&& p.pos < p.slots
            &&& p.pos < model.cfg.context_length
            &&& 0 < kv_heads
            &&& p.width == kv_heads * len
            &&& n(Buffer::Q) == heads * len
            &&& n(Buffer::AttnOut) == heads * len
            &&& 0 < heads ==> 0 < heads / kv_heads
            &&& heads <= kv_heads * (heads / kv_heads)
        },
        Op::SplitQg => {
            &&& n(Buffer::QgRaw) == 2 * (heads * len)
            &&& n(Buffer::Q) == heads * len
            &&& n(Buffer::QgGate) == heads * len
        },
        Op::GateAttn => n(Buffer::AttnOut) <= n(Buffer::QgGate),
        Op::ShortConv(i) => {
            &&& conv_of(model, i) matches Some(c) && d * model.l_cache
                <= c.conv_weight.elements().len()
            &&& 1 <= model.l_cache
            &&& n(Buffer::ConvHistory(i)) == (model.l_cache - 1) * d
            &&& n(Buffer::Bcx) == 3 * d
            &&& n(Buffer::Bx) == d
            &&& n(Buffer::ConvOut) == d
        },
        Op::GateDecay(i) => {
            &&& model.gdn_dims matches Some(dims) && delta_of(model, i) matches Some(g)
                && delta_fits(g, dims) && n(Buffer::GdnBeta) == dims.n_v_heads && n(
                Buffer::GdnAlpha,
            ) == dims.n_v_heads
        },
        Op::GdnConv(i) => {
            &&& model.gdn_dims matches Some(dims) && delta_of(model, i) matches Some(g)
                && delta_fits(g, dims) && n(Buffer::GdnHistory(i)) == (dims.d_conv - 1)
                * dims.conv_dim && n(Buffer::GdnQkv) == dims.conv_dim && n(Buffer::GdnConv)
                == dims.conv_dim
        },
        Op::L2Norm => {
            &&& model.gdn_dims matches Some(dims) && consistent(dims) && n(Buffer::GdnConv)
                == dims.conv_dim
        },
        Op::Recur(i) => {
            &&& model.gdn_dims matches Some(dims) && consistent(dims) && i < model.layers@.len()
                && n(Buffer::GdnConv) == dims.conv_dim && n(Buffer::GdnBeta) == dims.n_v_heads && n(
                Buffer::GdnAlpha,
            ) == dims.n_v_heads && n(Buffer::GdnState(i)) == state_len(dims) && n(Buffer::GdnOut)
                == dims.value_dim
        },
        Op::GatedNorm(i) => {
            &&& model.gdn_dims matches Some(dims) && delta_of(model, i) matches Some(g)
                && delta_fits(g, dims) && n(Buffer::GdnOut) == dims.value_dim && n(Buffer::GdnZ)
                == dims.value_dim
        },
        Op::SiluMul(i) => {
            &&& i < model.layers@.len()
            &&& tensor(model, gate_name(model, i)) matches Some(gate) && gate.dims.len() >= 2
            &&& gate_rows(model, i) <= n(Buffer::Gate)
            &&& gate_rows(model, i) <= n(Buffer::Up)
            &&& gate_rows(model, i) <= n(Buffer::FfnAct)
        },
        Op::AddResidual => n(Buffer::X) <= n(Buffer::Proj),
    }
}

/// Whether a buffer holds numbers of the pass as a whole.
pub open spec fn numeric(b: Buffer) -> bool {
    match b {
        Buffer::Cache(_)
        | Buffer::ConvHistory(_)
        | Buffer::GdnHistory(_)
        | Buffer::GdnState(_) => false,
        _ => true,
    }
}

/// Whether the norm of queries or of keys of a layer can be decoded.
pub open spec fn head_norm_ok(model: LlamaModel, i: usize, queries: bool) -> bool {
    tensor(model, head_norm_name(model, i, queries)->0) matches Some(t) && row_ok(
        t,
        model.weights.bytes().len(),
        0,
    )
}

/// Whether the norm of queries or of keys of a layer is defined.
pub open spec fn head_norm_ready(model: LlamaModel, i: usize, queries: bool) -> bool {
    match head_norm_name(model, i, queries) {
        None => false,
        Some(name) => {
            &&& readable(model, name, 0)
            &&& tensor(model, name) matches Some(t) ==> row_ok(t, model.weights.bytes().len(), 0)
                ==> model.cfg.head_dim <= t.row_len()
        },
    }
}

/// Whether the two projections of a feed-forward block are defined for a vector of
/// `from` numbers: where both tensors are there, their rows can be multiplied, and the
/// buffers that take the products and what is combined of them have room for them.
pub open spec fn projections_ready(
    model: LlamaModel,
    i: usize,
    from: nat,
    to: nat,
    combined: nat,
) -> bool {
    tensor(model, gate_name(model, i)) matches Some(gate) ==> tensor(
        model,
        up_name(model, i),
    ) matches Some(up) ==> {
        &&& pair_multipliable(gate, up, from)
        &&& pair_rows(gate) <= to
        &&& pair_rows(gate) <= combined
    }
}

/// Whether an operation succeeds: the tensors that it reads are there and can be
/// decoded.
#[verifier::opaque]
pub open spec fn succeeds(model: LlamaModel, p: Pass, op: Op) -> bool {
    let len = model.weights.bytes().len();
    match op {
        Op::Embed => tensor(model, model.token_embd@) matches Some(t) && row_ok(
            t,
            len,
            p.token as nat,
        ),
        Op::MatMul(matrix, _, _) => match projection_of(matrix) {
            Some(i) => tensor(model, gate_name(model, i)) matches Some(gate) && tensor(
                model,
                up_name(model, i),
            ) matches Some(up) && pair_ok(gate, up, len),
            None => tensor(model, model.spec_matrix_name(matrix)->0) matches Some(t) && forall|
                row: nat,
            |
                row < t.row_count() ==> #[trigger] row_ok(t, len, row),
        },
        Op::NormQ(i) => head_norm_ok(model, i, true),
        Op::NormK(i) => head_norm_ok(model, i, false),
        _ => true,
    }
}

/// Whether `e` is the error for a row of a tensor.
pub open spec fn row_fails(model: LlamaModel, name: Seq<char>, row: nat, e: GgufError) -> bool {
    match tensor(model, name) {
        None => e.is_missing(tensor_name(name)),
        Some(t) => is_row_fault(t, model.weights.bytes().len(), row, e),
    }
}

/// Whether `e` is the error of an operation that does not succeed.
#[verifier::opaque]
pub open spec fn fails_with(model: LlamaModel, p: Pass, op: Op, e: GgufError) -> bool {
    match op {
        Op::Embed => row_fails(model, model.token_embd@, p.token as nat, e),
        Op::MatMul(matrix, _, _) => match projection_of(matrix) {
            Some(i) => match (
                tensor(model, gate_name(model, i)),
                tensor(model, up_name(model, i)),
            ) {
                (None, _) => e.is_missing(tensor_name(gate_name(model, i))),
                (_, None) => e.is_missing(tensor_name(up_name(model, i))),
                (Some(gate), Some(up)) => is_first_pair_fault(
                    gate,
                    up,
                    model.weights.bytes().len(),
                    e,
                ),
            },
            None => {
                let name = model.spec_matrix_name(matrix)->0;
                match tensor(model, name) {
                    None => e.is_missing(tensor_name(name)),
                    Some(t) => is_first_fault(t, model.weights.bytes().len(), 0, t.row_count(), e),
                }
            },
        },
        Op::NormQ(i) => row_fails(model, head_norm_name(model, i, true)->0, 0, e),
        Op::NormK(i) => row_fails(model, head_norm_name(model, i, false)->0, 0, e),
        _ => false,
    }
}

} // verus!
