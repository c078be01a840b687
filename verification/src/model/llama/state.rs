//! Pre-allocated buffers for forward passes.

use vstd::prelude::*;

use crate::model::config::{ConfigView, ModelConfig};
use crate::model::llama::types::{GdnDims, LayerWeights, MixerKind};

verus! {

/// Pre-allocated scratch buffers for one forward pass.
///
/// All activation storage — residual stream, normalized activations, Q/K/V,
/// attention output, FFN intermediates, logits, and the attention-score
/// scratchpad — is allocated once at model load time and reused on every
/// forward pass. `T` is the element type of the activations.
pub struct InferenceState<T> {
    /// Residual stream, length `embedding_length`.
    pub x: Vec<T>,
    /// Normalized activations (RMSNorm output), length `embedding_length`.
    pub xn: Vec<T>,
    /// Query projection, length `head_count * head_dim`.
    pub q: Vec<T>,
    /// Key projection, length `head_count_kv * head_dim`.
    pub k: Vec<T>,
    /// Value projection, length `head_count_kv * head_dim`.
    pub v: Vec<T>,
    /// Attention output, length `head_count * head_dim`.
    pub attn_out: Vec<T>,
    /// Projection scratch reused by o_proj and ffn_down, length `embedding_length`.
    pub proj: Vec<T>,
    /// FFN gate projection, length `feed_forward_length`.
    pub gate: Vec<T>,
    /// FFN up projection, length `feed_forward_length`.
    pub up: Vec<T>,
    /// SwiGLU activation `silu(gate) * up`, length `feed_forward_length`.
    pub ffn_act: Vec<T>,
    /// Output logits, length `vocab_size`.
    pub logits: Vec<T>,
    /// Per-head attention-score scratchpad, length `context_length`.
    pub scores: Vec<T>,
    /// `in_proj` output holding the `(B, C, x)` gates, length `3 * embedding_length`.
    pub bcx: Vec<T>,
    /// Elementwise gate `B * x`, length `embedding_length`.
    pub bx: Vec<T>,
    /// Depthwise conv output, length `embedding_length`.
    pub conv_out: Vec<T>,
    /// Persistent recurrent conv state (NOT per-forward scratch): for each layer,
    /// the last `l_cache - 1` `bx` vectors, flat as `[(l_cache-1) * d]`. Empty for
    /// attention layers.
    pub conv_state: Vec<Vec<T>>,
    /// Raw fused Q+gate projection output, length `2 * head_count * head_dim`.
    pub ga_qg_raw: Vec<T>,
    /// Contiguous output gate extracted from `ga_qg_raw`, length `head_count * head_dim`.
    pub ga_gate: Vec<T>,
    /// Fused Q/K/V projection output (pre-conv), length `conv_dim`.
    pub gdn_qkv: Vec<T>,
    /// Post-conv, post-SiLU Q/K/V, length `conv_dim`.
    pub gdn_conv_out: Vec<T>,
    /// Output gate `z` (`attn_gate` projection), length `value_dim`.
    pub gdn_z: Vec<T>,
    /// Raw write-gate logits, length `n_v_heads` (sigmoid'd into beta in place).
    pub gdn_beta_raw: Vec<T>,
    /// Raw decay logits, length `n_v_heads`.
    pub gdn_alpha_raw: Vec<T>,
    /// Delta-net recurrence output (then gated-RMSNorm output in place), length `value_dim`.
    pub gdn_out: Vec<T>,
    /// Per-head predicted-value scratch, length `head_v_dim`.
    pub gdn_vpred: Vec<T>,
    /// Per-head delta scratch, length `head_v_dim`.
    pub gdn_delta: Vec<T>,
    /// Persistent causal-conv history per layer: `(d_conv-1) * conv_dim` values,
    /// empty for non-GatedDeltaNet layers.
    pub gdn_conv_state: Vec<Vec<T>>,
    /// Persistent delta-rule recurrent state per layer: `n_v_heads * head_k_dim *
    /// head_v_dim` values (row-major `[head][a][b]`), empty for other layers.
    pub gdn_recurrent_state: Vec<Vec<T>>,
}

/// The kinds of the mixers of `layers`, in order.
pub open spec fn layer_kinds(layers: Seq<LayerWeights>) -> Seq<MixerKind> {
    Seq::new(layers.len(), |i: int| layers[i].mixer.spec_kind())
}

/// The slots of a recurrent history for a kernel of width `width`: all taps but
/// the one for the current input.
pub open spec fn history_slots(width: nat) -> nat {
    if width == 0 {
        0
    } else {
        (width - 1) as nat
    }
}

/// The lengths of the buffers of a forward pass.
pub struct Lengths {
    pub embedding: nat,
    pub query: nat,
    pub key: nat,
    pub feed_forward: nat,
    pub vocabulary: nat,
    pub context: nat,
    /// Of the scratch of short-conv layers, in units of the embedding length.
    pub conv: nat,
    pub conv_history: nat,
    /// Of the output gate of gated attention layers.
    pub gate: nat,
    pub gdn_conv: nat,
    pub gdn_value: nat,
    pub gdn_heads: nat,
    pub gdn_head: nat,
    pub gdn_history: nat,
    pub gdn_state: nat,
}

/// The lengths of the buffers for a configuration and the kinds of its layers.
/// Scratch for a kind of layer only needs to exist if the model has such layers.
pub open spec fn lengths(
    c: ConfigView,
    l_cache: nat,
    kinds: Seq<MixerKind>,
    dims: Option<GdnDims>,
) -> Lengths {
    let e = c.embedding_length as nat;
    let query = c.head_count as nat * c.head_dim as nat;
    Lengths {
        embedding: e,
        query,
        key: c.head_count_kv as nat * c.head_dim as nat,
        feed_forward: c.feed_forward_length as nat,
        vocabulary: c.vocab_size as nat,
        context: c.context_length as nat,
        conv: if kinds.contains(MixerKind::ShortConv) {
            e
        } else {
            0
        },
        conv_history: history_slots(l_cache) * e,
        gate: if kinds.contains(MixerKind::GatedAttention) {
            query
        } else {
            0
        },
        gdn_conv: match dims {
            Some(d) => d.conv_dim as nat,
            None => 0,
        },
        gdn_value: match dims {
            Some(d) => d.value_dim as nat,
            None => 0,
        },
        gdn_heads: match dims {
            Some(d) => d.n_v_heads as nat,
            None => 0,
        },
        gdn_head: match dims {
            Some(d) => d.head_v_dim as nat,
            None => 0,
        },
        gdn_history: match dims {
            Some(d) => history_slots(d.d_conv as nat) * d.conv_dim as nat,
            None => 0,
        },
        gdn_state: match dims {
            Some(d) => d.n_v_heads as nat * d.head_k_dim as nat * d.head_v_dim as nat,
            None => 0,
        },
    }
}

impl Lengths {
    /// Whether every length fits the machine.
    pub open spec fn fit(self) -> bool {
        &&& self.embedding <= usize::MAX
        &&& self.query <= usize::MAX
        &&& self.key <= usize::MAX
        &&& self.feed_forward <= usize::MAX
        &&& self.vocabulary <= usize::MAX
        &&& self.context <= usize::MAX
        &&& 3 * self.conv <= usize::MAX
        &&& self.conv_history <= usize::MAX
        &&& 2 * self.gate <= usize::MAX
        &&& self.gdn_conv <= usize::MAX
        &&& self.gdn_value <= usize::MAX
        &&& self.gdn_heads <= usize::MAX
        &&& self.gdn_head <= usize::MAX
        &&& self.gdn_history <= usize::MAX
        &&& self.gdn_state <= usize::MAX
    }
}

/// `n` times the value `zero`.
pub open spec fn filled<T>(zero: T, n: nat) -> Seq<T> {
    Seq::new(n, |i: int| zero)
}

/// Whether there is a buffer for each layer: of length `n` for a layer of kind
/// `kind`, and empty for others.
pub open spec fn per_layer<T>(
    buffers: Seq<Vec<T>>,
    kinds: Seq<MixerKind>,
    kind: MixerKind,
    zero: T,
    n: nat,
) -> bool {
    &&& buffers.len() == kinds.len()
    &&& forall|i: int|
        0 <= i < kinds.len() ==> (#[trigger] buffers[i])@ == if kinds[i] == kind {
            filled(zero, n)
        } else {
            Seq::empty()
        }
}

impl<T> InferenceState<T> {
    /// Whether the buffers have their lengths, and hold `zero` throughout.
    pub open spec fn is_fresh(&self, zero: T, n: Lengths, kinds: Seq<MixerKind>) -> bool {
        &&& self.x@ == filled(zero, n.embedding)
        &&& self.xn@ == filled(zero, n.embedding)
        &&& self.q@ == filled(zero, n.query)
        &&& self.k@ == filled(zero, n.key)
        &&& self.v@ == filled(zero, n.key)
        &&& self.attn_out@ == filled(zero, n.query)
        &&& self.proj@ == filled(zero, n.embedding)
        &&& self.gate@ == filled(zero, n.feed_forward)
        &&& self.up@ == filled(zero, n.feed_forward)
        &&& self.ffn_act@ == filled(zero, n.feed_forward)
        &&& self.logits@ == filled(zero, n.vocabulary)
        &&& self.scores@ == filled(zero, n.context)
        &&& self.bcx@ == filled(zero, 3 * n.conv)
        &&& self.bx@ == filled(zero, n.conv)
        &&& self.conv_out@ == filled(zero, n.conv)
        &&& per_layer(self.conv_state@, kinds, MixerKind::ShortConv, zero, n.conv_history)
        &&& self.ga_qg_raw@ == filled(zero, 2 * n.gate)
        &&& self.ga_gate@ == filled(zero, n.gate)
        &&& self.gdn_qkv@ == filled(zero, n.gdn_conv)
        &&& self.gdn_conv_out@ == filled(zero, n.gdn_conv)
        &&& self.gdn_z@ == filled(zero, n.gdn_value)
        &&& self.gdn_beta_raw@ == filled(zero, n.gdn_heads)
        &&& self.gdn_alpha_raw@ == filled(zero, n.gdn_heads)
        &&& self.gdn_out@ == filled(zero, n.gdn_value)
        &&& self.gdn_vpred@ == filled(zero, n.gdn_head)
        &&& self.gdn_delta@ == filled(zero, n.gdn_head)
        &&& per_layer(self.gdn_conv_state@, kinds, MixerKind::GatedDeltaNet, zero, n.gdn_history)
        &&& per_layer(
            self.gdn_recurrent_state@,
            kinds,
            MixerKind::GatedDeltaNet,
            zero,
            n.gdn_state,
        )
    }
}

fn fill<T: Copy>(zero: T, n: usize) -> (v: Vec<T>)
    ensures
        v@ == filled(zero, n as nat),
{
    let mut v: Vec<T> = Vec::new();
    let mut i: usize = 0;
    while i < n
        invariant
            i <= n,
            v@ == filled(zero, i as nat),
        decreases n - i,
    {
        v.push(zero);
        proof {
            assert(v@ =~= filled(zero, (i + 1) as nat));
        }
        i += 1;
    }
    v
}

fn fill_layers<T: Copy>(layers: &[LayerWeights], kind: MixerKind, zero: T, n: usize) -> (r: Vec<
    Vec<T>,
>)
    ensures
        per_layer(r@, layer_kinds(layers@), kind, zero, n as nat),
{
    let mut r: Vec<Vec<T>> = Vec::new();
    let mut i: usize = 0;
    while i < layers.len()
        invariant
            i <= layers@.len(),
            r@.len() == i,
            forall|j: int|
                0 <= j < i ==> (#[trigger] r@[j])@ == if layer_kinds(layers@)[j] == kind {
                    filled(zero, n as nat)
                } else {
                    Seq::empty()
                },
        decreases layers@.len() - i,
    {
        let buffer = if layers[i].mixer.kind() == kind {
            fill(zero, n)
        } else {
            Vec::new()
        };
        r.push(buffer);
        i += 1;
    }
    r
}

fn has_kind(layers: &[LayerWeights], kind: MixerKind) -> (r: bool)
    ensures
        r == layer_kinds(layers@).contains(kind),
{
    let ghost kinds = layer_kinds(layers@);
    let mut i: usize = 0;
    while i < layers.len()
        invariant
            i <= layers@.len(),
            kinds == layer_kinds(layers@),
            forall|j: int| 0 <= j < i ==> #[trigger] kinds[j] != kind,
        decreases layers@.len() - i,
    {
        proof {
            assert(kinds[i as int] == layers@[i as int].mixer.spec_kind());
        }
        if layers[i].mixer.kind() == kind {
            return true;
        }
        i += 1;
    }
    false
}

/// A product of two numbers, where it fits.
fn times(a: usize, b: usize) -> (r: Option<usize>)
    ensures
        match r {
            Some(n) => n == a * b,
            None => a * b > usize::MAX,
        },
{
    proof {
        assert(0 <= a * b) by (nonlinear_arith);
    }
    a.checked_mul(b)
}

/// A number of the configuration as a length, where it fits.
fn length(n: u64) -> (r: Option<usize>)
    ensures
        match r {
            Some(m) => m == n,
            None => n > usize::MAX,
        },
{
    if n <= usize::MAX as u64 {
        Some(n as usize)
    } else {
        None
    }
}

/// A product of two numbers of the configuration, where it fits a length.
fn length_product(a: u64, b: u64) -> (r: Option<usize>)
    ensures
        match r {
            Some(m) => m == a * b,
            None => a * b > usize::MAX,
        },
{
    proof {
        assert(0 <= a * b) by (nonlinear_arith);
    }
    match a.checked_mul(b) {
        Some(n) => length(n),
        None => None,
    }
}

/// A product of three lengths, where it fits.
fn times3(a: usize, b: usize, c: usize) -> (r: Option<usize>)
    ensures
        match r {
            Some(n) => n == a as nat * b as nat * c as nat,
            None => a as nat * b as nat * c as nat > usize::MAX,
        },
{
    proof {
        assert(a * b * 0 == 0);
    }
    if c == 0 {
        return Some(0);
    }
    proof {
        assert(a * b <= a * b * c) by (nonlinear_arith)
            requires
                0 < c,
                0 <= a,
                0 <= b,
        ;
    }
    match times(a, b) {
        Some(n) => times(n, c),
        None => None,
    }
}

/// The lengths of the buffers, as the machine holds them.
#[derive(Clone, Copy)]
struct Sizes {
    embedding: usize,
    query: usize,
    key: usize,
    feed_forward: usize,
    vocabulary: usize,
    context: usize,
    conv: usize,
    conv_history: usize,
    gate: usize,
    gdn_conv: usize,
    gdn_value: usize,
    gdn_heads: usize,
    gdn_head: usize,
    gdn_history: usize,
    gdn_state: usize,
}

impl Sizes {
    spec fn is(self, n: Lengths) -> bool {
        &&& self.embedding == n.embedding
        &&& self.query == n.query
        &&& self.key == n.key
        &&& self.feed_forward == n.feed_forward
        &&& self.vocabulary == n.vocabulary
        &&& self.context == n.context
        &&& self.conv == n.conv
        &&& self.conv_history == n.conv_history
        &&& self.gate == n.gate
        &&& self.gdn_conv == n.gdn_conv
        &&& self.gdn_value == n.gdn_value
        &&& self.gdn_heads == n.gdn_heads
        &&& self.gdn_head == n.gdn_head
        &&& self.gdn_history == n.gdn_history
        &&& self.gdn_state == n.gdn_state
    }
}

fn sizes(
    cfg: &ModelConfig,
    l_cache: usize,
    layers: &[LayerWeights],
    gdn_dims: Option<GdnDims>,
) -> (r: Option<Sizes>)
    ensures
        ({
            let n = lengths(cfg@, l_cache as nat, layer_kinds(layers@), gdn_dims);
            match r {
                Some(s) => n.fit() && s.is(n),
                None => !n.fit(),
            }
        }),
{
    let embedding: usize = match length(cfg.embedding_length) {
        Some(n) => n,
        None => {
            return None;
        },
    };
    let query: usize = match length_product(cfg.head_count, cfg.head_dim) {
        Some(n) => n,
        None => {
            return None;
        },
    };
    let key: usize = match length_product(cfg.head_count_kv, cfg.head_dim) {
        Some(n) => n,
        None => {
            return None;
        },
    };
    let feed_forward: usize = match length(cfg.feed_forward_length) {
        Some(n) => n,
        None => {
            return None;
        },
    };
    let vocabulary: usize = match length(cfg.vocab_size) {
        Some(n) => n,
        None => {
            return None;
        },
    };
    let context: usize = match length(cfg.context_length) {
        Some(n) => n,
        None => {
            return None;
        },
    };
    let conv: usize = if has_kind(layers, MixerKind::ShortConv) {
        embedding
    } else {
        0
    };
    if conv > usize::MAX / 3 {
        return None;
    }
    let conv_history: usize = match times(l_cache.saturating_sub(1), embedding) {
        Some(n) => n,
        None => {
            return None;
        },
    };
    let gate: usize = if has_kind(layers, MixerKind::GatedAttention) {
        query
    } else {
        0
    };
    if gate > usize::MAX / 2 {
        return None;
    }
    let plain = Sizes {
        embedding,
        query,
        key,
        feed_forward,
        vocabulary,
        context,
        conv,
        conv_history,
        gate,
        gdn_conv: 0,
        gdn_value: 0,
        gdn_heads: 0,
        gdn_head: 0,
        gdn_history: 0,
        gdn_state: 0,
    };
    match gdn_dims {
        None => Some(plain),
        Some(d) => {
            let gdn_history: usize = match times(d.d_conv.saturating_sub(1), d.conv_dim) {
                Some(n) => n,
                None => {
                    return None;
                },
            };
            let gdn_state: usize = match times3(d.n_v_heads, d.head_k_dim, d.head_v_dim) {
                Some(n) => n,
                None => {
                    return None;
                },
            };
            Some(
                Sizes {
                    gdn_conv: d.conv_dim,
                    gdn_value: d.value_dim,
                    gdn_heads: d.n_v_heads,
                    gdn_head: d.head_v_dim,
                    gdn_history,
                    gdn_state,
                    ..plain
                },
            )
        },
    }
}

impl<T: Copy> InferenceState<T> {
    /// Allocate all buffers up front from the model configuration.
    pub fn new(
        cfg: &ModelConfig,
        l_cache: usize,
        layers: &[LayerWeights],
        gdn_dims: Option<GdnDims>,
        zero: T,
    ) -> (state: Self)
        requires
            lengths(cfg@, l_cache as nat, layer_kinds(layers@), gdn_dims).fit(),
        ensures
            state.is_fresh(
                zero,
                lengths(cfg@, l_cache as nat, layer_kinds(layers@), gdn_dims),
                layer_kinds(layers@),
            ),
    {
        Self::try_new(cfg, l_cache, layers, gdn_dims, zero).unwrap()
    }

    /// Allocate all buffers, or nothing where a length does not fit the machine.
    pub fn try_new(
        cfg: &ModelConfig,
        l_cache: usize,
        layers: &[LayerWeights],
        gdn_dims: Option<GdnDims>,
        zero: T,
    ) -> (r: Option<Self>)
        ensures
            ({
                let n = lengths(cfg@, l_cache as nat, layer_kinds(layers@), gdn_dims);
                match r {
                    Some(state) => n.fit() && state.is_fresh(zero, n, layer_kinds(layers@)),
                    None => !n.fit(),
                }
            }),
    {
        let s = match sizes(cfg, l_cache, layers, gdn_dims) {
            Some(s) => s,
            None => {
                return None;
            },
        };
        Some(
            InferenceState {
                x: fill(zero, s.embedding),
                xn: fill(zero, s.embedding),
                q: fill(zero, s.query),
                k: fill(zero, s.key),
                v: fill(zero, s.key),
                attn_out: fill(zero, s.query),
                proj: fill(zero, s.embedding),
                gate: fill(zero, s.feed_forward),
                up: fill(zero, s.feed_forward),
                ffn_act: fill(zero, s.feed_forward),
                logits: fill(zero, s.vocabulary),
                scores: fill(zero, s.context),
                bcx: fill(zero, 3 * s.conv),
                bx: fill(zero, s.conv),
                conv_out: fill(zero, s.conv),
                conv_state: fill_layers(layers, MixerKind::ShortConv, zero, s.conv_history),
                ga_qg_raw: fill(zero, 2 * s.gate),
                ga_gate: fill(zero, s.gate),
                gdn_qkv: fill(zero, s.gdn_conv),
                gdn_conv_out: fill(zero, s.gdn_conv),
                gdn_z: fill(zero, s.gdn_value),
                gdn_beta_raw: fill(zero, s.gdn_heads),
                gdn_alpha_raw: fill(zero, s.gdn_heads),
                gdn_out: fill(zero, s.gdn_value),
                gdn_vpred: fill(zero, s.gdn_head),
                gdn_delta: fill(zero, s.gdn_head),
                gdn_conv_state: fill_layers(layers, MixerKind::GatedDeltaNet, zero, s.gdn_history),
                gdn_recurrent_state: fill_layers(
                    layers,
                    MixerKind::GatedDeltaNet,
                    zero,
                    s.gdn_state,
                ),
            },
        )
    }
}

} // verus!
