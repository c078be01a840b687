//! Layer and mixer definitions: what a layer is made of, by the names of its
//! tensors.

use vstd::prelude::*;
use vstd::string::*;

use crate::model::weights::{last_named, Fetch};
use crate::quant::Row;
use crate::text::{decimal, push_decimal};
use crate::types::{product, TensorView};

verus! {

/// The token-mixing operator of a layer. Dense Llama/Qwen layers are always
/// `Attention`; LFM2 interleaves `Attention` and `ShortConv` layers; Qwen3.5
/// interleaves `GatedAttention` (full attention, every `full_attention_interval`
/// layers) and `GatedDeltaNet` (linear attention, the rest).
#[derive(Debug)]
pub enum Mixer {
    /// Self-attention: Q/K/V/O projections, optional per-head QK-norm (Qwen3),
    /// RoPE, and GQA.
    Attention(Attention),
    /// LFM2 short convolution: `in_proj` → gated depthwise causal conv → `out_proj`.
    ShortConv(ShortConv),
    /// Qwen3.5/Qwen3-Next full-attention layer: Q projection is fused with a
    /// sigmoid output gate (`wqg` outputs `[Q(head_dim) | gate(head_dim)]` per
    /// head), RoPE is partial (only the first `n_rot` dims of `head_dim` are
    /// rotated), and the attention output is gated by `sigmoid(gate)` before `wo`.
    GatedAttention(GatedAttention),
    /// Qwen3.5/Qwen3-Next linear-attention layer ("Gated DeltaNet"): causal
    /// depthwise conv over fused QKV, then a per-head delta-rule recurrence
    /// with a learned scalar decay and write gate, then a gated RMSNorm.
    GatedDeltaNet(GatedDeltaNet),
}

/// Tensor names of a self-attention layer.
#[derive(Debug)]
pub struct Attention {
    pub wq: String,
    pub wk: String,
    pub wv: String,
    pub wo: String,
    /// Per-head RMSNorm on Q before RoPE (Qwen3/LFM2). `None` otherwise.
    pub q_norm: Option<String>,
    /// Per-head RMSNorm on K before RoPE (Qwen3/LFM2).
    pub k_norm: Option<String>,
}

/// Tensor names of a gated attention layer.
#[derive(Debug)]
pub struct GatedAttention {
    pub wqg: String,
    pub wk: String,
    pub wv: String,
    pub wo: String,
    pub q_norm: String,
    pub k_norm: String,
}

/// Tensor names and small tensors of a Gated DeltaNet layer.
#[derive(Debug)]
pub struct GatedDeltaNet {
    /// `[d_model] → [key_dim*2 + value_dim]` (fused Q/K/V, pre-conv).
    pub wqkv: String,
    /// `[d_model] → [value_dim]`, the output gate `z` (`attn_gate.weight`).
    pub wgate: String,
    /// Causal depthwise conv1d kernel, laid out `[conv_dim][d_conv]` (each
    /// channel's taps contiguous).
    pub conv_weight: Row,
    /// Per-(value-)head decay multiplier (`ssm_a`, `[n_v_heads]`), typically negative.
    pub ssm_a: Row,
    /// Per-head softplus bias (`ssm_dt.bias`, `[n_v_heads]`).
    pub ssm_dt_bias: Row,
    /// `[d_model] → [n_v_heads]`, write-gate logits (sigmoid'd to get beta).
    pub ssm_beta: String,
    /// `[d_model] → [n_v_heads]`, decay logits (softplus'd, then scaled by `ssm_a`).
    pub ssm_alpha: String,
    /// Per-channel gated-RMSNorm weight (`[head_v_dim]`), applied per head.
    pub ssm_norm: Row,
    /// `[value_dim] → [d_model]`.
    pub ssm_out: String,
}

/// Tensor names and conv kernel of an LFM2 short-conv layer.
#[derive(Debug)]
pub struct ShortConv {
    /// `[d_model] → [3 * d_model]`, producing the `(B, C, x)` gates.
    pub in_proj: String,
    /// `[d_model] → [d_model]`.
    pub out_proj: String,
    /// Depthwise conv kernel, laid out `[d_model][l_cache]` (each channel's
    /// `l_cache` taps are contiguous).
    pub conv_weight: Row,
}

/// A single transformer layer: its norm weights, and the names of the tensors
/// that it multiplies with.
#[derive(Debug)]
pub struct LayerWeights {
    pub attn_norm: Row,
    pub mixer: Mixer,
    pub ffn_norm: Row,
    pub ffn_gate: String,
    pub ffn_up: String,
    pub ffn_down: String,
}

/// Dimensions shared by every Gated DeltaNet layer in the model (Qwen3.5-style
/// hybrid architectures only have one linear-attention configuration).
#[derive(Debug, Clone, Copy, PartialEq, Eq, Structural)]
pub struct GdnDims {
    pub head_k_dim: usize,
    pub head_v_dim: usize,
    pub n_k_heads: usize,
    pub n_v_heads: usize,
    pub key_dim: usize,
    pub value_dim: usize,
    pub conv_dim: usize,
    pub d_conv: usize,
}

/// The kinds of mixers.
#[derive(Debug, Clone, Copy, PartialEq, Eq, Structural)]
pub enum MixerKind {
    Attention,
    ShortConv,
    GatedAttention,
    GatedDeltaNet,
}

impl Mixer {
    /// The kind of this mixer.
    pub open spec fn spec_kind(&self) -> MixerKind {
        match self {
            Mixer::Attention(_) => MixerKind::Attention,
            Mixer::ShortConv(_) => MixerKind::ShortConv,
            Mixer::GatedAttention(_) => MixerKind::GatedAttention,
            Mixer::GatedDeltaNet(_) => MixerKind::GatedDeltaNet,
        }
    }

    /// The kind of this mixer.
    pub fn kind(&self) -> (k: MixerKind)
        ensures
            k == self.spec_kind(),
    {
        match self {
            Mixer::Attention(_) => MixerKind::Attention,
            Mixer::ShortConv(_) => MixerKind::ShortConv,
            Mixer::GatedAttention(_) => MixerKind::GatedAttention,
            Mixer::GatedDeltaNet(_) => MixerKind::GatedDeltaNet,
        }
    }
}

/// The name of a tensor of layer `i`: `blk.<i>.<suffix>`.
pub open spec fn blk(i: nat, suffix: Seq<char>) -> Seq<char> {
    "blk."@ + decimal(i) + "."@ + suffix
}

/// The name of a tensor of layer `i`: `blk.<i>.<suffix>`.
pub fn blk_name(i: u64, suffix: &str) -> (name: String)
    ensures
        name@ == blk(i as nat, suffix@),
{
    let mut s = "blk.".to_owned();
    push_decimal(&mut s, i);
    s.append(".");
    s.append(suffix);
    s
}

/// Whether there is a tensor of a name.
pub open spec fn has_tensor(tensors: Seq<TensorView>, name: Seq<char>) -> bool {
    last_named(tensors, name) is Some
}

/// The kind of the mixer of layer `i`. A layer is a short-conv layer iff it has a
/// `shortconv.conv` tensor; a Gated DeltaNet layer iff it has an `ssm_alpha`
/// tensor; otherwise it is an attention layer, gated iff `attn_q`'s output is
/// twice the Q width `q_dim`. A layer without any of these tensors has no mixer.
pub open spec fn mixer_kind(tensors: Seq<TensorView>, q_dim: nat, i: nat) -> Option<MixerKind> {
    if has_tensor(tensors, blk(i, "shortconv.conv.weight"@)) {
        Some(MixerKind::ShortConv)
    } else if has_tensor(tensors, blk(i, "ssm_alpha.weight"@)) {
        Some(MixerKind::GatedDeltaNet)
    } else {
        match last_named(tensors, blk(i, "attn_q.weight"@)) {
            None => None,
            Some(t) => if product(t.dims.skip(1)) == 2 * q_dim {
                Some(MixerKind::GatedAttention)
            } else {
                Some(MixerKind::Attention)
            },
        }
    }
}

/// The name of the norm before the feed-forward block of layer `i`: Qwen3.5 names
/// it `post_attention_norm` instead of `ffn_norm`.
pub open spec fn ffn_norm_name(tensors: Seq<TensorView>, i: nat) -> Seq<char> {
    if has_tensor(tensors, blk(i, "ffn_norm.weight"@)) {
        blk(i, "ffn_norm.weight"@)
    } else {
        blk(i, "post_attention_norm.weight"@)
    }
}

/// Reading the first row of a tensor.
pub open spec fn first_row(name: Seq<char>) -> Fetch {
    Fetch { name, whole: false }
}

/// Reading a whole tensor.
pub open spec fn whole_tensor(name: Seq<char>) -> Fetch {
    Fetch { name, whole: true }
}

/// What is read for the mixer of layer `i`, in order.
pub open spec fn mixer_fetches(kind: MixerKind, i: nat) -> Seq<Fetch> {
    match kind {
        MixerKind::ShortConv => seq![whole_tensor(blk(i, "shortconv.conv.weight"@))],
        MixerKind::GatedDeltaNet => seq![
            whole_tensor(blk(i, "ssm_conv1d.weight"@)),
            first_row(blk(i, "ssm_a"@)),
            first_row(blk(i, "ssm_dt.bias"@)),
            first_row(blk(i, "ssm_norm.weight"@)),
        ],
        _ => Seq::empty(),
    }
}

/// What is read for layer `i`, in order.
pub open spec fn layer_fetches(tensors: Seq<TensorView>, kind: MixerKind, i: nat) -> Seq<Fetch> {
    mixer_fetches(kind, i) + seq![
        first_row(ffn_norm_name(tensors, i)),
        first_row(blk(i, "attn_norm.weight"@)),
    ]
}

/// Whether a mixer has the names and the small tensors of layer `i`.
pub open spec fn mixer_is(
    m: Mixer,
    kind: MixerKind,
    tensors: Seq<TensorView>,
    data: Seq<u8>,
    i: nat,
) -> bool {
    match m {
        Mixer::ShortConv(sc) => {
            &&& kind == MixerKind::ShortConv
            &&& sc.in_proj@ == blk(i, "shortconv.in_proj.weight"@)
            &&& sc.out_proj@ == blk(i, "shortconv.out_proj.weight"@)
            &&& mixer_fetches(kind, i)[0].gives(tensors, data, sc.conv_weight)
        },
        Mixer::GatedDeltaNet(g) => {
            &&& kind == MixerKind::GatedDeltaNet
            &&& g.wqkv@ == blk(i, "attn_qkv.weight"@)
            &&& g.wgate@ == blk(i, "attn_gate.weight"@)
            &&& mixer_fetches(kind, i)[0].gives(tensors, data, g.conv_weight)
            &&& mixer_fetches(kind, i)[1].gives(tensors, data, g.ssm_a)
            &&& mixer_fetches(kind, i)[2].gives(tensors, data, g.ssm_dt_bias)
            &&& g.ssm_beta@ == blk(i, "ssm_beta.weight"@)
            &&& g.ssm_alpha@ == blk(i, "ssm_alpha.weight"@)
            &&& mixer_fetches(kind, i)[3].gives(tensors, data, g.ssm_norm)
            &&& g.ssm_out@ == blk(i, "ssm_out.weight"@)
        },
        Mixer::GatedAttention(a) => {
            &&& kind == MixerKind::GatedAttention
            &&& a.wqg@ == blk(i, "attn_q.weight"@)
            &&& a.wk@ == blk(i, "attn_k.weight"@)
            &&& a.wv@ == blk(i, "attn_v.weight"@)
            &&& a.wo@ == blk(i, "attn_output.weight"@)
            &&& a.q_norm@ == blk(i, "attn_q_norm.weight"@)
            &&& a.k_norm@ == blk(i, "attn_k_norm.weight"@)
        },
        Mixer::Attention(a) => {
            &&& kind == MixerKind::Attention
            &&& a.wq@ == blk(i, "attn_q.weight"@)
            &&& a.wk@ == blk(i, "attn_k.weight"@)
            &&& a.wv@ == blk(i, "attn_v.weight"@)
            &&& a.wo@ == blk(i, "attn_output.weight"@)
            &&& is_optional(a.q_norm, tensors, blk(i, "attn_q_norm.weight"@))
            &&& is_optional(a.k_norm, tensors, blk(i, "attn_k_norm.weight"@))
        },
    }
}

/// Whether an optional name is that of a tensor where there is one, and absent
/// where there is none.
pub open spec fn is_optional(
    name: Option<String>,
    tensors: Seq<TensorView>,
    expected: Seq<char>,
) -> bool {
    match name {
        Some(n) => has_tensor(tensors, expected) && n@ == expected,
        None => !has_tensor(tensors, expected),
    }
}

/// Whether a layer is layer `i` of a file.
pub open spec fn layer_is(
    l: LayerWeights,
    kind: MixerKind,
    tensors: Seq<TensorView>,
    data: Seq<u8>,
    i: nat,
) -> bool {
    &&& mixer_is(l.mixer, kind, tensors, data, i)
    &&& first_row(ffn_norm_name(tensors, i)).gives(tensors, data, l.ffn_norm)
    &&& first_row(blk(i, "attn_norm.weight"@)).gives(tensors, data, l.attn_norm)
    &&& l.ffn_gate@ == blk(i, "ffn_gate.weight"@)
    &&& l.ffn_up@ == blk(i, "ffn_up.weight"@)
    &&& l.ffn_down@ == blk(i, "ffn_down.weight"@)
}

} // verus!
