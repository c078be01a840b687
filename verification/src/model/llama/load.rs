//! Loading a Llama-family model from a file.

use vstd::prelude::*;
use vstd::string::*;

use crate::error::{GgufError, Result};
use crate::model::config::{
    config_computable, config_of, is_config_error, or_default, ConfigView, ModelConfig,
};
use crate::model::info::{arch_key, field_u64};
use crate::model::llama::types::{
    blk, blk_name, ffn_norm_name, first_row, has_tensor, layer_fetches, layer_is, mixer_fetches,
    mixer_is, mixer_kind, whole_tensor, Attention, GatedAttention, GatedDeltaNet, GdnDims,
    LayerWeights, Mixer, MixerKind, ShortConv,
};
use crate::ops::AnyBackend;
use crate::model::weights::{last_named, missing_tensor, tensor_name, Fetch, WeightMap};
use crate::quant::Row;
use crate::types::{checked_product, product_fits, FileView, GgufFile, TensorView};

verus! {

// ── Dimensions ──────────────────────────────────────────────────────────────

/// Whether the dimensions of the linear-attention layers can be computed: they
/// fit the machine, and there are value heads to share the inner size.
pub open spec fn dims_defined(f: FileView, a: Seq<char>) -> bool {
    let d_state = f.number(arch_key(a, "ssm.state_size"@));
    let n_group = f.number(arch_key(a, "ssm.group_count"@));
    let d_inner = f.number(arch_key(a, "ssm.inner_size"@));
    let dt_rank = f.number(arch_key(a, "ssm.time_step_rank"@));
    let d_conv = f.number(arch_key(a, "ssm.conv_kernel"@));
    d_state is Some && n_group is Some && d_inner is Some && dt_rank is Some && d_conv is Some ==> {
        &&& d_state->0 <= usize::MAX
        &&& n_group->0 <= usize::MAX
        &&& d_inner->0 <= usize::MAX
        &&& 0 < dt_rank->0 <= usize::MAX
        &&& d_conv->0 <= usize::MAX
        &&& 2 * (d_state->0 * n_group->0) + (d_inner->0 as nat / dt_rank->0 as nat) * dt_rank->0
            <= usize::MAX
    }
}

/// The dimensions of the linear-attention layers, where a file states all of
/// them.
pub open spec fn dims_of(f: FileView, a: Seq<char>) -> Option<GdnDims> {
    let d_state = f.number(arch_key(a, "ssm.state_size"@));
    let n_group = f.number(arch_key(a, "ssm.group_count"@));
    let d_inner = f.number(arch_key(a, "ssm.inner_size"@));
    let dt_rank = f.number(arch_key(a, "ssm.time_step_rank"@));
    let d_conv = f.number(arch_key(a, "ssm.conv_kernel"@));
    if d_state is Some && n_group is Some && d_inner is Some && dt_rank is Some && d_conv is Some {
        let head_v_dim = d_inner->0 as nat / dt_rank->0 as nat;
        let key_dim = d_state->0 * n_group->0;
        let value_dim = head_v_dim * dt_rank->0;
        Some(
            GdnDims {
                head_k_dim: d_state->0 as usize,
                head_v_dim: head_v_dim as usize,
                n_k_heads: n_group->0 as usize,
                n_v_heads: dt_rank->0 as usize,
                key_dim: key_dim as usize,
                value_dim: value_dim as usize,
                conv_dim: (key_dim * 2 + value_dim) as usize,
                d_conv: d_conv->0 as usize,
            },
        )
    } else {
        None
    }
}

/// The dimensions of the linear-attention layers, or nothing where they cannot be
/// computed.
fn read_dims(gguf: &GgufFile, a: &str) -> (r: Option<Option<GdnDims>>)
    ensures
        match r {
            Some(dims) => dims_defined(gguf@, a@) && dims == dims_of(gguf@, a@),
            None => !dims_defined(gguf@, a@),
        },
{
    let d_state: u64 = match field_u64(gguf, a, "ssm.state_size") {
        Some(n) => n,
        None => {
            return Some(None);
        },
    };
    let n_group: u64 = match field_u64(gguf, a, "ssm.group_count") {
        Some(n) => n,
        None => {
            return Some(None);
        },
    };
    let d_inner: u64 = match field_u64(gguf, a, "ssm.inner_size") {
        Some(n) => n,
        None => {
            return Some(None);
        },
    };
    let dt_rank: u64 = match field_u64(gguf, a, "ssm.time_step_rank") {
        Some(n) => n,
        None => {
            return Some(None);
        },
    };
    let d_conv: u64 = match field_u64(gguf, a, "ssm.conv_kernel") {
        Some(n) => n,
        None => {
            return Some(None);
        },
    };
    let top: u64 = usize::MAX as u64;
    if d_state > top || n_group > top || d_inner > top || dt_rank == 0 || dt_rank > top || d_conv
        > top {
        return None;
    }
    let head_v_dim: u64 = d_inner / dt_rank;
    proof {
        vstd::arithmetic::div_mod::lemma_fundamental_div_mod(d_inner as int, dt_rank as int);
        assert(head_v_dim * dt_rank == dt_rank * head_v_dim) by (nonlinear_arith);
        assert(0 <= d_state * n_group) by (nonlinear_arith);
    }
    let value_dim: u64 = head_v_dim * dt_rank;
    let key_dim: u64 = match d_state.checked_mul(n_group) {
        Some(n) => n,
        None => {
            return None;
        },
    };
    let conv_dim: u128 = key_dim as u128 * 2 + value_dim as u128;
    if conv_dim > usize::MAX as u128 {
        return None;
    }
    Some(
        Some(
            GdnDims {
                head_k_dim: d_state as usize,
                head_v_dim: head_v_dim as usize,
                n_k_heads: n_group as usize,
                n_v_heads: dt_rank as usize,
                key_dim: key_dim as usize,
                value_dim: value_dim as usize,
                conv_dim: conv_dim as usize,
                d_conv: d_conv as usize,
            },
        ),
    )
}

// ── One layer ───────────────────────────────────────────────────────────────

/// Whether all that is read succeeds.
pub open spec fn all_ok(fetches: Seq<Fetch>, tensors: Seq<TensorView>, len: nat) -> bool {
    forall|k: int| 0 <= k < fetches.len() ==> (#[trigger] fetches[k]).ok(tensors, len)
}

/// Whether reading is defined up to the first thing that fails.
pub open spec fn defined_in_order(
    fetches: Seq<Fetch>,
    tensors: Seq<TensorView>,
    len: nat,
) -> bool {
    forall|k: int|
        0 <= k < fetches.len() && all_ok(#[trigger] fetches.take(k), tensors, len)
            ==> fetches[k].defined(tensors, len)
}

/// Whether `e` is the error of the first thing that fails to be read.
pub open spec fn first_failure(
    fetches: Seq<Fetch>,
    tensors: Seq<TensorView>,
    len: nat,
    e: GgufError,
) -> bool {
    exists|k: int|
        0 <= k < fetches.len() && all_ok(#[trigger] fetches.take(k), tensors, len)
            && !fetches[k].ok(tensors, len) && fetches[k].fails_with(tensors, len, e)
}

/// Whether layer `i` takes its mixer from `attn_q`.
pub open spec fn is_attention_layer(tensors: Seq<TensorView>, i: nat) -> bool {
    &&& !has_tensor(tensors, blk(i, "shortconv.conv.weight"@))
    &&& !has_tensor(tensors, blk(i, "ssm_alpha.weight"@))
}

/// Whether the kind of the mixer of layer `i` can be computed: where it rests on
/// the shape of `attn_q`, that tensor has dimensions, and the widths do not
/// overflow.
pub open spec fn kind_computable(tensors: Seq<TensorView>, q_dim: nat, i: nat) -> bool {
    is_attention_layer(tensors, i) ==> match last_named(tensors, blk(i, "attn_q.weight"@)) {
        Some(t) => t.dims.len() > 0 && product_fits(t.dims.skip(1)) && 2 * q_dim <= usize::MAX,
        None => true,
    }
}

/// Whether loading layer `i` is defined.
pub open spec fn layer_defined(tensors: Seq<TensorView>, len: nat, q_dim: nat, i: nat) -> bool {
    &&& kind_computable(tensors, q_dim, i)
    &&& (mixer_kind(tensors, q_dim, i) matches Some(kind) ==> defined_in_order(
        layer_fetches(tensors, kind, i),
        tensors,
        len,
    ))
}

/// Whether loading layer `i` succeeds.
pub open spec fn layer_ok(tensors: Seq<TensorView>, len: nat, q_dim: nat, i: nat) -> bool {
    mixer_kind(tensors, q_dim, i) matches Some(kind) && all_ok(
        layer_fetches(tensors, kind, i),
        tensors,
        len,
    )
}

/// Whether `e` is the error of loading layer `i`.
pub open spec fn layer_fails(
    tensors: Seq<TensorView>,
    len: nat,
    q_dim: nat,
    i: nat,
    e: GgufError,
) -> bool {
    match mixer_kind(tensors, q_dim, i) {
        None => e.is_missing(tensor_name(blk(i, "attn_q.weight"@))),
        Some(kind) => first_failure(layer_fetches(tensors, kind, i), tensors, len, e),
    }
}

/// Finds the kind of the mixer of layer `i`, or nothing where it cannot be
/// computed.
fn find_kind(weights: &WeightMap, heads: u64, head_dim: u64, i: u64) -> (r: Option<
    Option<MixerKind>,
>)
    requires
        weights.wf(),
    ensures
        ({
            let ts = weights.tensor_list();
            let q_dim = heads as nat * head_dim as nat;
            match r {
                None => !kind_computable(ts, q_dim, i as nat),
                Some(kind) => kind_computable(ts, q_dim, i as nat) && kind == mixer_kind(
                    ts,
                    q_dim,
                    i as nat,
                ),
            }
        }),
{
    if weights.get(blk_name(i, "shortconv.conv.weight").as_str()).is_some() {
        return Some(Some(MixerKind::ShortConv));
    }
    if weights.get(blk_name(i, "ssm_alpha.weight").as_str()).is_some() {
        return Some(Some(MixerKind::GatedDeltaNet));
    }
    let q_name = blk_name(i, "attn_q.weight");
    let t = match weights.get(q_name.as_str()) {
        Some(t) => t,
        None => {
            return Some(None);
        },
    };
    if t.dims.len() == 0 {
        return None;
    }
    let rest = vstd::slice::slice_subrange(t.dims.as_slice(), 1, t.dims.len());
    proof {
        assert(rest@ =~= t.dims@.skip(1));
    }
    let out_dim: usize = match checked_product(rest) {
        Some(n) => n,
        None => {
            return None;
        },
    };
    proof {
        assert(0 <= heads * head_dim) by (nonlinear_arith);
    }
    let q_dim: u64 = match heads.checked_mul(head_dim) {
        Some(n) => n,
        None => {
            return None;
        },
    };
    if q_dim > usize::MAX as u64 / 2 {
        return None;
    }
    if out_dim as u64 == 2 * q_dim {
        Some(Some(MixerKind::GatedAttention))
    } else {
        Some(Some(MixerKind::Attention))
    }
}

/// The name of a tensor of layer `i` where there is one.
fn optional_name(weights: &WeightMap, i: u64, suffix: &str) -> (r: Option<String>)
    requires
        weights.wf(),
    ensures
        crate::model::llama::types::is_optional(
            r,
            weights.tensor_list(),
            blk(i as nat, suffix@),
        ),
{
    let name = blk_name(i, suffix);
    if weights.get(name.as_str()).is_some() {
        Some(name)
    } else {
        None
    }
}

proof fn lemma_failure_at(
    fetches: Seq<Fetch>,
    tensors: Seq<TensorView>,
    len: nat,
    k: int,
    e: GgufError,
)
    requires
        0 <= k < fetches.len(),
        all_ok(fetches.take(k), tensors, len),
        !fetches[k].ok(tensors, len),
        fetches[k].fails_with(tensors, len, e),
    ensures
        first_failure(fetches, tensors, len, e),
        !all_ok(fetches, tensors, len),
        (forall|j: int| 0 <= j <= k ==> (#[trigger] fetches[j]).defined(tensors, len))
            ==> defined_in_order(fetches, tensors, len),
{
    assert forall|j: int|
        (forall|j: int| 0 <= j <= k ==> (#[trigger] fetches[j]).defined(tensors, len)) && 0 <= j
            < fetches.len() && all_ok(#[trigger] fetches.take(j), tensors, len) implies fetches[j].defined(
    tensors, len) by {
        if j > k {
            assert(fetches.take(j)[k] == fetches[k]);
        }
    }
}

proof fn lemma_undefined_at(fetches: Seq<Fetch>, tensors: Seq<TensorView>, len: nat, k: int)
    requires
        0 <= k < fetches.len(),
        all_ok(fetches.take(k), tensors, len),
        !fetches[k].defined(tensors, len),
    ensures
        !defined_in_order(fetches, tensors, len),
{
}

proof fn lemma_take_ok(fetches: Seq<Fetch>, tensors: Seq<TensorView>, len: nat, k: int)
    requires
        0 <= k < fetches.len(),
        all_ok(fetches.take(k), tensors, len),
        fetches[k].ok(tensors, len),
    ensures
        all_ok(fetches.take(k + 1), tensors, len),
{
    assert forall|j: int| 0 <= j < k + 1 implies (#[trigger] fetches.take(k + 1)[j]).ok(
        tensors,
        len,
    ) by {
        if j < k {
            assert(fetches.take(k)[j] == fetches[j]);
        }
    }
}

/// One step of reading in order: what came of the thing `k`, given that all
/// before it were read.
fn read_next(
    weights: &WeightMap,
    name: &str,
    whole: bool,
    Ghost(fetches): Ghost<Seq<Fetch>>,
    Ghost(k): Ghost<int>,
) -> (r: Option<Result<Row>>)
    requires
        weights.wf(),
        0 <= k < fetches.len(),
        fetches[k] == (Fetch { name: name@, whole }),
        all_ok(fetches.take(k), weights.tensor_list(), weights.bytes().len()),
        forall|j: int|
            0 <= j < k ==> (#[trigger] fetches[j]).defined(
                weights.tensor_list(),
                weights.bytes().len(),
            ),
    ensures
        ({
            let ts = weights.tensor_list();
            let len = weights.bytes().len();
            match r {
                None => !defined_in_order(fetches, ts, len),
                Some(Ok(row)) => {
                    &&& all_ok(fetches.take(k + 1), ts, len)
                    &&& fetches[k].defined(ts, len)
                    &&& fetches[k].gives(ts, weights.bytes(), row)
                },
                Some(Err(e)) => {
                    &&& defined_in_order(fetches, ts, len)
                    &&& !all_ok(fetches, ts, len)
                    &&& first_failure(fetches, ts, len, e)
                },
            }
        }),
{
    let r = weights.fetch(name, whole);
    proof {
        let ts = weights.tensor_list();
        let len = weights.bytes().len();
        if r is None {
            lemma_undefined_at(fetches, ts, len, k);
        } else if r->0 is Ok {
            lemma_take_ok(fetches, ts, len, k);
        } else {
            lemma_failure_at(fetches, ts, len, k, r->0->Err_0);
        }
    }
    r
}

/// Reads the mixer of layer `i`.
fn load_mixer(weights: &WeightMap, kind: MixerKind, i: u64, Ghost(fetches): Ghost<Seq<Fetch>>) -> (r:
    Option<Result<Mixer>>)
    requires
        weights.wf(),
        fetches == layer_fetches(weights.tensor_list(), kind, i as nat),
        kind == MixerKind::Attention || kind == MixerKind::GatedAttention ==> has_tensor(
            weights.tensor_list(),
            blk(i as nat, "attn_q.weight"@),
        ),
    ensures
        ({
            let ts = weights.tensor_list();
            let len = weights.bytes().len();
            let n = mixer_fetches(kind, i as nat).len() as int;
            match r {
                None => !defined_in_order(fetches, ts, len),
                Some(Ok(m)) => {
                    &&& all_ok(fetches.take(n), ts, len)
                    &&& forall|j: int| 0 <= j < n ==> (#[trigger] fetches[j]).defined(ts, len)
                    &&& mixer_is(m, kind, ts, weights.bytes(), i as nat)
                },
                Some(Err(e)) => {
                    &&& defined_in_order(fetches, ts, len)
                    &&& !all_ok(fetches, ts, len)
                    &&& first_failure(fetches, ts, len, e)
                },
            }
        }),
{
    let ghost ts = weights.tensor_list();
    let ghost len = weights.bytes().len();
    proof {
        assert(fetches.take(0) =~= Seq::empty());
        assert(all_ok(fetches.take(0), ts, len));
    }
    match kind {
        MixerKind::ShortConv => {
            proof {
                assert(fetches[0] == whole_tensor(blk(i as nat, "shortconv.conv.weight"@)));
            }
            let name = blk_name(i, "shortconv.conv.weight");
            let conv_weight = match read_next(
                weights,
                name.as_str(),
                true,
                Ghost(fetches),
                Ghost(0int),
            ) {
                None => {
                    return None;
                },
                Some(Err(e)) => {
                    return Some(Err(e));
                },
                Some(Ok(row)) => row,
            };
            Some(
                Ok(
                    Mixer::ShortConv(
                        ShortConv {
                            in_proj: blk_name(i, "shortconv.in_proj.weight"),
                            out_proj: blk_name(i, "shortconv.out_proj.weight"),
                            conv_weight,
                        },
                    ),
                ),
            )
        },
        MixerKind::GatedDeltaNet => {
            proof {
                assert(fetches[0] == whole_tensor(blk(i as nat, "ssm_conv1d.weight"@)));
                assert(fetches[1] == first_row(blk(i as nat, "ssm_a"@)));
                assert(fetches[2] == first_row(blk(i as nat, "ssm_dt.bias"@)));
                assert(fetches[3] == first_row(blk(i as nat, "ssm_norm.weight"@)));
            }
            let conv_name = blk_name(i, "ssm_conv1d.weight");
            let conv_weight = match read_next(
                weights,
                conv_name.as_str(),
                true,
                Ghost(fetches),
                Ghost(0int),
            ) {
                None => {
                    return None;
                },
                Some(Err(e)) => {
                    return Some(Err(e));
                },
                Some(Ok(row)) => row,
            };
            let a_name = blk_name(i, "ssm_a");
            let ssm_a = match read_next(
                weights,
                a_name.as_str(),
                false,
                Ghost(fetches),
                Ghost(1int),
            ) {
                None => {
                    return None;
                },
                Some(Err(e)) => {
                    return Some(Err(e));
                },
                Some(Ok(row)) => row,
            };
            let bias_name = blk_name(i, "ssm_dt.bias");
            let ssm_dt_bias = match read_next(
                weights,
                bias_name.as_str(),
                false,
                Ghost(fetches),
                Ghost(2int),
            ) {
                None => {
                    return None;
                },
                Some(Err(e)) => {
                    return Some(Err(e));
                },
                Some(Ok(row)) => row,
            };
            let norm_name = blk_name(i, "ssm_norm.weight");
            let ssm_norm = match read_next(
                weights,
                norm_name.as_str(),
                false,
                Ghost(fetches),
                Ghost(3int),
            ) {
                None => {
                    return None;
                },
                Some(Err(e)) => {
                    return Some(Err(e));
                },
                Some(Ok(row)) => row,
            };
            Some(
                Ok(
                    Mixer::GatedDeltaNet(
                        GatedDeltaNet {
                            wqkv: blk_name(i, "attn_qkv.weight"),
                            wgate: blk_name(i, "attn_gate.weight"),
                            conv_weight,
                            ssm_a,
                            ssm_dt_bias,
                            ssm_beta: blk_name(i, "ssm_beta.weight"),
                            ssm_alpha: blk_name(i, "ssm_alpha.weight"),
                            ssm_norm,
                            ssm_out: blk_name(i, "ssm_out.weight"),
                        },
                    ),
                ),
            )
        },
        MixerKind::GatedAttention => Some(
            Ok(
                Mixer::GatedAttention(
                    GatedAttention {
                        wqg: blk_name(i, "attn_q.weight"),
                        wk: blk_name(i, "attn_k.weight"),
                        wv: blk_name(i, "attn_v.weight"),
                        wo: blk_name(i, "attn_output.weight"),
                        q_norm: blk_name(i, "attn_q_norm.weight"),
                        k_norm: blk_name(i, "attn_k_norm.weight"),
                    },
                ),
            ),
        ),
        MixerKind::Attention => Some(
            Ok(
                Mixer::Attention(
                    Attention {
                        wq: blk_name(i, "attn_q.weight"),
                        wk: blk_name(i, "attn_k.weight"),
                        wv: blk_name(i, "attn_v.weight"),
                        wo: blk_name(i, "attn_output.weight"),
                        q_norm: optional_name(weights, i, "attn_q_norm.weight"),
                        k_norm: optional_name(weights, i, "attn_k_norm.weight"),
                    },
                ),
            ),
        ),
    }
}

/// Reads layer `i`, or nothing where that is not defined.
fn load_layer(weights: &WeightMap, heads: u64, head_dim: u64, i: u64) -> (r: Option<
    Result<LayerWeights>,
>)
    requires
        weights.wf(),
    ensures
        ({
            let ts = weights.tensor_list();
            let len = weights.bytes().len();
            let q_dim = heads as nat * head_dim as nat;
            match r {
                None => !layer_defined(ts, len, q_dim, i as nat),
                Some(Ok(l)) => {
                    &&& layer_defined(ts, len, q_dim, i as nat)
                    &&& layer_ok(ts, len, q_dim, i as nat)
                    &&& layer_is(
                        l,
                        mixer_kind(ts, q_dim, i as nat)->0,
                        ts,
                        weights.bytes(),
                        i as nat,
                    )
                },
                Some(Err(e)) => {
                    &&& layer_defined(ts, len, q_dim, i as nat)
                    &&& !layer_ok(ts, len, q_dim, i as nat)
                    &&& layer_fails(ts, len, q_dim, i as nat, e)
                },
            }
        }),
{
    let kind = match find_kind(weights, heads, head_dim, i) {
        None => {
            return None;
        },
        Some(None) => {
            let q_name = blk_name(i, "attn_q.weight");
            return Some(Err(missing_tensor(q_name.as_str())));
        },
        Some(Some(kind)) => kind,
    };
    let ghost ts = weights.tensor_list();
    let ghost len = weights.bytes().len();
    let ghost fetches = layer_fetches(ts, kind, i as nat);
    let ghost n = mixer_fetches(kind, i as nat).len() as int;
    let mixer = match load_mixer(weights, kind, i, Ghost(fetches)) {
        None => {
            return None;
        },
        Some(Err(e)) => {
            return Some(Err(e));
        },
        Some(Ok(m)) => m,
    };
    // ffn_norm: Qwen3.5 names this `post_attention_norm` instead.
    let plain = blk_name(i, "ffn_norm.weight");
    let norm_name = if weights.get(plain.as_str()).is_some() {
        plain
    } else {
        blk_name(i, "post_attention_norm.weight")
    };
    proof {
        assert(fetches[n] == first_row(ffn_norm_name(ts, i as nat)));
        assert(fetches[n + 1] == first_row(blk(i as nat, "attn_norm.weight"@)));
    }
    let ffn_norm = match read_next(
        weights,
        norm_name.as_str(),
        false,
        Ghost(fetches),
        Ghost(n),
    ) {
        None => {
            return None;
        },
        Some(Err(e)) => {
            return Some(Err(e));
        },
        Some(Ok(row)) => row,
    };
    let attn_name = blk_name(i, "attn_norm.weight");
    let attn_norm = match read_next(
        weights,
        attn_name.as_str(),
        false,
        Ghost(fetches),
        Ghost(n + 1),
    ) {
        None => {
            return None;
        },
        Some(Err(e)) => {
            return Some(Err(e));
        },
        Some(Ok(row)) => row,
    };
    proof {
        assert(fetches.take(n + 2) =~= fetches);
        assert(defined_in_order(fetches, ts, len));
    }
    Some(
        Ok(
            LayerWeights {
                attn_norm,
                mixer,
                ffn_norm,
                ffn_gate: blk_name(i, "ffn_gate.weight"),
                ffn_up: blk_name(i, "ffn_up.weight"),
                ffn_down: blk_name(i, "ffn_down.weight"),
            },
        ),
    )
}

// ── The model ───────────────────────────────────────────────────────────────

/// Llama-family dense transformer model: its configuration, and what its layers
/// are made of.
pub struct LlamaModel<'a> {
    pub cfg: ModelConfig,
    pub weights: WeightMap<'a>,
    pub layers: Vec<LayerWeights>,
    pub output_norm: Row,
    pub lm_head: String,
    pub token_embd: String,
    /// Short-conv kernel width (LFM2 `shortconv.l_cache`); 0 for dense models.
    pub l_cache: usize,
    /// Gated DeltaNet dimensions (Qwen3.5-style hybrid models); `None` for
    /// architectures with no linear-attention layers.
    pub gdn_dims: Option<GdnDims>,
    /// Partial-RoPE dimension count for `GatedAttention` layers (Qwen3.5); the
    /// first `n_rot` dims of each head are rotated, the rest left untouched.
    /// Equals `cfg.head_dim` (full rotation) for architectures without this split.
    pub n_rot: usize,
    /// Optional GPU backend for accelerated matmuls.
    pub backend: Option<AnyBackend>,
}

/// The name of the norm before the last projection: LFM2 uses `token_embd_norm`
/// instead of `output_norm`.
pub open spec fn output_norm_name(tensors: Seq<TensorView>) -> Option<Seq<char>> {
    if has_tensor(tensors, "output_norm.weight"@) {
        Some("output_norm.weight"@)
    } else if has_tensor(tensors, "token_embd_norm.weight"@) {
        Some("token_embd_norm.weight"@)
    } else {
        None
    }
}

/// The name of the last projection, which may be tied to the embedding table.
pub open spec fn lm_head_name(tensors: Seq<TensorView>) -> Seq<char> {
    if has_tensor(tensors, "output.weight"@) {
        "output.weight"@
    } else {
        "token_embd.weight"@
    }
}

/// The width of the query projection.
pub open spec fn query_width(c: ConfigView) -> nat {
    c.head_count as nat * c.head_dim as nat
}

/// The short-conv kernel width that a file states for architecture `a`.
pub open spec fn conv_width(f: FileView, a: Seq<char>) -> u64 {
    or_default(f.number(arch_key(a, "shortconv.l_cache"@)), 0)
}

/// The number of rotated dimensions of each head.
pub open spec fn rotated_dims(f: FileView, c: ConfigView) -> u64 {
    or_default(f.number(arch_key(c.architecture, "rope.dimension_count"@)), c.head_dim)
}

/// Whether the first `n` layers load.
pub open spec fn layers_ok(tensors: Seq<TensorView>, len: nat, q_dim: nat, n: nat) -> bool {
    forall|i: nat| i < n ==> #[trigger] layer_ok(tensors, len, q_dim, i)
}

/// Whether loading is defined up to the first thing that fails, for a file with
/// `len` bytes of tensor data.
pub open spec fn model_defined(f: FileView, len: nat) -> bool {
    &&& config_computable(f)
    &&& (config_of(f) matches Some(c) ==> {
        &&& conv_width(f, c.architecture) <= usize::MAX
        &&& rotated_dims(f, c) <= usize::MAX
        &&& dims_defined(f, c.architecture)
        &&& forall|i: nat|
            i < c.block_count && layers_ok(f.tensors, len, query_width(c), i)
                ==> #[trigger] layer_defined(f.tensors, len, query_width(c), i)
        &&& (layers_ok(f.tensors, len, query_width(c), c.block_count as nat)
            && output_norm_name(f.tensors) is Some ==> first_row(
            output_norm_name(f.tensors)->0,
        ).defined(f.tensors, len))
    })
}

/// Whether a file holds a model: it states a configuration, every layer loads,
/// and there is an output norm.
pub open spec fn model_ok(f: FileView, len: nat) -> bool {
    match (config_of(f), output_norm_name(f.tensors)) {
        (Some(c), Some(norm)) => {
            &&& layers_ok(f.tensors, len, query_width(c), c.block_count as nat)
            &&& first_row(norm).ok(f.tensors, len)
        },
        _ => false,
    }
}

/// Whether `e` is the error of a file that holds no model: what its configuration
/// lacks, the error of the first layer that does not load, or that of the output
/// norm.
pub open spec fn is_model_error(f: FileView, len: nat, e: GgufError) -> bool {
    match config_of(f) {
        None => is_config_error(f, e),
        Some(c) => {
            let q_dim = query_width(c);
            if layers_ok(f.tensors, len, q_dim, c.block_count as nat) {
                match output_norm_name(f.tensors) {
                    None => e.is_missing("output_norm.weight or token_embd_norm.weight"@),
                    Some(norm) => first_row(norm).fails_with(f.tensors, len, e),
                }
            } else {
                exists|i: nat|
                    i < c.block_count && layers_ok(f.tensors, len, q_dim, i) && !layer_ok(
                        f.tensors,
                        len,
                        q_dim,
                        i,
                    ) && #[trigger] layer_fails(f.tensors, len, q_dim, i, e)
            }
        },
    }
}

impl<'a> LlamaModel<'a> {
    /// Whether this is the model of a file.
    pub open spec fn is_model_of(&self, f: FileView, data: Seq<u8>) -> bool {
        &&& config_of(f) == Some(self.cfg@)
        &&& self.weights.wf()
        &&& self.weights.tensor_list() == f.tensors
        &&& self.weights.bytes() == data
        &&& self.layers@.len() == self.cfg.block_count
        &&& forall|i: int|
            0 <= i < self.layers@.len() ==> is_layer(
                #[trigger] self.layers@[i],
                f.tensors,
                data,
                query_width(self.cfg@),
                i as nat,
            )
        &&& output_norm_name(f.tensors) matches Some(norm) && first_row(norm).gives(
            f.tensors,
            data,
            self.output_norm,
        )
        &&& self.lm_head@ == lm_head_name(f.tensors)
        &&& self.token_embd@ == "token_embd.weight"@
        &&& self.l_cache == conv_width(f, self.cfg.architecture@)
        &&& self.gdn_dims == dims_of(f, self.cfg.architecture@)
        &&& self.n_rot == rotated_dims(f, self.cfg@)
    }

    /// Loads a model, or nothing where that is not defined.
    pub fn try_from_gguf(
        gguf: &'a GgufFile,
        data: &'a [u8],
        backend: Option<AnyBackend>,
    ) -> (r: Option<Result<Self>>)
        ensures
            match r {
                None => !model_defined(gguf@, data@.len()),
                Some(Ok(m)) => {
                    &&& model_defined(gguf@, data@.len())
                    &&& model_ok(gguf@, data@.len())
                    &&& m.is_model_of(gguf@, data@)
                    &&& m.backend == backend
                },
                Some(Err(e)) => {
                    &&& model_defined(gguf@, data@.len())
                    &&& !model_ok(gguf@, data@.len())
                    &&& is_model_error(gguf@, data@.len(), e)
                },
            },
    {
        if !ModelConfig::computable(gguf) {
            return None;
        }
        let cfg = match ModelConfig::from_gguf(gguf) {
            Ok(cfg) => cfg,
            Err(e) => {
                return Some(Err(e));
            },
        };
        let weights = WeightMap::from_gguf(gguf, data);
        let top: u64 = usize::MAX as u64;
        // Absent → dense model (no conv layers).
        let l_cache: u64 = field_u64(
            gguf,
            cfg.architecture.as_str(),
            "shortconv.l_cache",
        ).unwrap_or(0);
        // Falls back to full rotation.
        let n_rot: u64 = field_u64(
            gguf,
            cfg.architecture.as_str(),
            "rope.dimension_count",
        ).unwrap_or(cfg.head_dim);
        if l_cache > top || n_rot > top {
            return None;
        }
        let gdn_dims = match read_dims(gguf, cfg.architecture.as_str()) {
            Some(dims) => dims,
            None => {
                return None;
            },
        };
        let layers = match load_layers(&weights, &cfg) {
            None => {
                return None;
            },
            Some(Err(e)) => {
                return Some(Err(e));
            },
            Some(Ok(layers)) => layers,
        };
        let norm = if weights.get("output_norm.weight").is_some() {
            "output_norm.weight"
        } else if weights.get("token_embd_norm.weight").is_some() {
            "token_embd_norm.weight"
        } else {
            return Some(
                Err(
                    GgufError::MissingMetadata(
                        "output_norm.weight or token_embd_norm.weight".to_owned(),
                    ),
                ),
            );
        };
        let output_norm = match weights.fetch(norm, false) {
            None => {
                return None;
            },
            Some(Err(e)) => {
                return Some(Err(e));
            },
            Some(Ok(row)) => row,
        };
        // lm_head: may be tied to token_embd
        let lm_head = if weights.get("output.weight").is_some() {
            "output.weight".to_owned()
        } else {
            "token_embd.weight".to_owned()
        };
        Some(
            Ok(
                LlamaModel {
                    cfg,
                    weights,
                    layers,
                    output_norm,
                    lm_head,
                    token_embd: "token_embd.weight".to_owned(),
                    l_cache: l_cache as usize,
                    gdn_dims,
                    n_rot: n_rot as usize,
                    backend,
                },
            ),
        )
    }

    /// Loads a model.
    pub fn from_gguf(gguf: &'a GgufFile, data: &'a [u8]) -> (r: Result<Self>)
        requires
            model_defined(gguf@, data@.len()),
        ensures
            match r {
                Ok(m) => {
                    &&& model_ok(gguf@, data@.len())
                    &&& m.is_model_of(gguf@, data@)
                    &&& m.backend == None::<AnyBackend>
                },
                Err(e) => {
                    &&& !model_ok(gguf@, data@.len())
                    &&& is_model_error(gguf@, data@.len(), e)
                },
            },
    {
        Self::from_gguf_with_backend(gguf, data, None)
    }

    /// Create a model with an optional GPU backend for accelerated matmuls.
    pub fn from_gguf_with_backend(
        gguf: &'a GgufFile,
        data: &'a [u8],
        backend: Option<AnyBackend>,
    ) -> (r: Result<Self>)
        requires
            model_defined(gguf@, data@.len()),
        ensures
            match r {
                Ok(m) => {
                    &&& model_ok(gguf@, data@.len())
                    &&& m.is_model_of(gguf@, data@)
                    &&& m.backend == backend
                },
                Err(e) => {
                    &&& !model_ok(gguf@, data@.len())
                    &&& is_model_error(gguf@, data@.len(), e)
                },
            },
    {
        Self::try_from_gguf(gguf, data, backend).unwrap()
    }
}

/// Whether a layer is layer `i` of a file, of the kind that its tensors give it.
pub open spec fn is_layer(
    l: LayerWeights,
    tensors: Seq<TensorView>,
    data: Seq<u8>,
    q_dim: nat,
    i: nat,
) -> bool {
    mixer_kind(tensors, q_dim, i) matches Some(kind) && layer_is(l, kind, tensors, data, i)
}

/// Reads all layers, or nothing where that is not defined.
fn load_layers(weights: &WeightMap, cfg: &ModelConfig) -> (r: Option<Result<Vec<LayerWeights>>>)
    requires
        weights.wf(),
    ensures
        ({
            let ts = weights.tensor_list();
            let len = weights.bytes().len();
            let q_dim = query_width(cfg@);
            let n = cfg.block_count as nat;
            match r {
                None => exists|i: nat|
                    i < n && layers_ok(ts, len, q_dim, i) && !(#[trigger] layer_defined(
                        ts,
                        len,
                        q_dim,
                        i,
                    )),
                Some(Ok(layers)) => {
                    &&& layers_ok(ts, len, q_dim, n)
                    &&& forall|i: nat| i < n ==> #[trigger] layer_defined(ts, len, q_dim, i)
                    &&& layers@.len() == n
                    &&& forall|i: int|
                        0 <= i < n ==> is_layer(
                            #[trigger] layers@[i],
                            ts,
                            weights.bytes(),
                            q_dim,
                            i as nat,
                        )
                },
                Some(Err(e)) => exists|i: nat|
                    {
                        &&& i < n
                        &&& layers_ok(ts, len, q_dim, i)
                        &&& forall|j: nat| j <= i ==> #[trigger] layer_defined(ts, len, q_dim, j)
                        &&& !layer_ok(ts, len, q_dim, i)
                        &&& #[trigger] layer_fails(ts, len, q_dim, i, e)
                    },
            }
        }),
{
    let ghost ts = weights.tensor_list();
    let ghost len = weights.bytes().len();
    let ghost q_dim = query_width(cfg@);
    let mut layers: Vec<LayerWeights> = Vec::new();
    let mut i: u64 = 0;
    while i < cfg.block_count
        invariant
            i <= cfg.block_count,
            weights.wf(),
            ts == weights.tensor_list(),
            len == weights.bytes().len(),
            q_dim == query_width(cfg@),
            layers_ok(ts, len, q_dim, i as nat),
            forall|j: nat| j < i ==> #[trigger] layer_defined(ts, len, q_dim, j),
            layers@.len() == i,
            forall|j: int|
                0 <= j < i ==> is_layer(
                    #[trigger] layers@[j],
                    ts,
                    weights.bytes(),
                    q_dim,
                    j as nat,
                ),
        decreases cfg.block_count - i,
    {
        match load_layer(weights, cfg.head_count, cfg.head_dim, i) {
            None => {
                return None;
            },
            Some(Err(e)) => {
                proof {
                    assert(layer_fails(ts, len, q_dim, i as nat, e));
                }
                return Some(Err(e));
            },
            Some(Ok(layer)) => {
                layers.push(layer);
            },
        }
        i += 1;
    }
    Some(Ok(layers))
}

} // verus!
