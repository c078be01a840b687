//! What the GPU holds of a model: every matrix and every vector that a pass needs, and the
//! state that it begins with.

use vstd::prelude::*;

use crate::model::config::ConfigView;
use crate::model::llama::gpu::{
    all_there, attending, attends, ffn_uploads, layer_ready, layers_uploads, mixer_qk_norms,
    mixer_uploads, qk_norm_names, resident_ready, route_of, upload_names, upload_of, uploadable,
    uploads_for, Residency, Route,
};
use crate::model::llama::load::LlamaModel;
use crate::model::llama::meaning::head_norm_name;
use crate::model::llama::program::{Matrix, Role};
use crate::model::llama::state::lengths;
use crate::model::llama::types::{GdnDims, LayerWeights, Mixer, MixerKind};
use crate::model::llama::vectors::{
    conv_uploads, delta_uploads, norm_uploads, vector_source, vector_uploads, LayerVector,
    VectorUpload,
};
use crate::model::weights::last_named;
use crate::ops::backend_select::{gpu_dequantizable, AnyBackend};
use crate::types::{product, GgmlType, TensorView};

verus! {

// ── Matrices ────────────────────────────────────────────────────────────────

proof fn lemma_uploads_of_layer(layers: Seq<LayerWeights>, n: int, i: int, name: Seq<char>)
    requires
        0 <= i < n <= layers.len(),
        mixer_uploads(layers[i].mixer).contains(name) || ffn_uploads(layers[i]).contains(name),
    ensures
        layers_uploads(layers, n).contains(name),
    decreases n,
{
    let before = layers_uploads(layers, n - 1);
    let (mixer, ffn) = (mixer_uploads(layers[n - 1].mixer), ffn_uploads(layers[n - 1]));
    let all = layers_uploads(layers, n);
    assert(all == before + mixer + ffn);
    if i < n - 1 {
        lemma_uploads_of_layer(layers, n - 1, i, name);
        let k = before.index_of(name);
        assert(all[k] == name);
    } else if mixer.contains(name) {
        let k = mixer.index_of(name);
        assert(all[before.len() + k] == name);
    } else {
        let k = ffn.index_of(name);
        assert(all[before.len() + mixer.len() + k] == name);
    }
}

proof fn lemma_matrix_of_layer(l: LayerWeights, role: Role, name: Seq<char>)
    requires
        crate::model::llama::steps::layer_matrix(l, role) == Some(name),
    ensures
        mixer_uploads(l.mixer).contains(name) || ffn_uploads(l).contains(name),
{
    let (mixer, ffn) = (mixer_uploads(l.mixer), ffn_uploads(l));
    match role {
        Role::FfnGate => assert(ffn[0] == name),
        Role::FfnUp => assert(ffn[1] == name),
        Role::FfnDown => assert(ffn[2] == name),
        Role::Wq | Role::InProj | Role::Wqkv => assert(mixer[0] == name),
        Role::Wk | Role::OutProj | Role::Wgate => assert(mixer[1] == name),
        Role::Wv | Role::SsmBeta => assert(mixer[2] == name),
        Role::Wo | Role::SsmAlpha => assert(mixer[3] == name),
        Role::SsmOut => assert(mixer[4] == name),
    }
}

/// Every matrix that a pass multiplies with is among the uploads, and so is the embedding
/// table.
pub proof fn law_every_matrix_is_uploaded(m: LlamaModel, matrix: Matrix)
    ensures
        m.spec_matrix_name(matrix) matches Some(name) ==> upload_names(m).contains(name),
        upload_names(m).contains(m.token_embd@),
{
    let n = m.layers@.len() as int;
    let front = layers_uploads(m.layers@, n);
    let all = upload_names(m);
    assert(all[front.len() as int] == m.lm_head@);
    assert(all[front.len() as int + 1] == m.token_embd@);
    if let Matrix::Layer(i, role) = matrix {
        if let Some(name) = m.spec_matrix_name(matrix) {
            lemma_matrix_of_layer(m.layers@[i as int], role, name);
            lemma_uploads_of_layer(m.layers@, n, i as int, name);
            let k = front.index_of(name);
            assert(all[k] == name);
        }
    }
}

/// Of the tensors that are named, those are uploaded that the GPU can multiply with, each
/// one with its type, its place, its bytes, and the length and number of its rows.
pub proof fn law_uploads_are_cut_out_of_the_file(
    tensors: Seq<TensorView>,
    names: Seq<Seq<char>>,
    k: int,
)
    requires
        0 <= k < names.len(),
    ensures
        ({
            let ups = uploads_for(tensors, names);
            let t = last_named(tensors, names[k])->0;
            let up = upload_of(t, names[k]);
            &&& uploadable(tensors, names[k]) <==> last_named(tensors, names[k]) is Some && (
            t.ggml_type == GgmlType::Q4_K || t.ggml_type == GgmlType::Q5_K || t.ggml_type
                == GgmlType::Q6_K || t.ggml_type == GgmlType::Q8_0)
            &&& uploadable(tensors, names[k]) ==> ups.contains(up)
            &&& up.name == names[k] && up.dtype == t.ggml_type && up.offset == t.byte_offset
            &&& up.in_dim == t.dims[0]
            &&& up.size == t.ggml_type.spec_type_size(product(t.dims))
            &&& up.out_dim == up.size / t.ggml_type.spec_type_size(t.dims[0] as nat)
        }),
    decreases names.len(),
{
    let rest = names.drop_last();
    let ups = uploads_for(tensors, names);
    let before = uploads_for(tensors, rest);
    if uploadable(tensors, names[k]) {
        let up = upload_of(last_named(tensors, names[k])->0, names[k]);
        if k < rest.len() {
            law_uploads_are_cut_out_of_the_file(tensors, rest, k);
            let j = before.index_of(up);
            assert(ups[j] == up);
        } else {
            assert(ups.last() == up);
        }
    }
}

/// Nothing else is uploaded.
pub proof fn law_nothing_else_is_uploaded(
    tensors: Seq<TensorView>,
    names: Seq<Seq<char>>,
    j: int,
)
    requires
        0 <= j < uploads_for(tensors, names).len(),
    ensures
        exists|k: int|
            0 <= k < names.len() && uploadable(tensors, #[trigger] names[k]) && uploads_for(
                tensors,
                names,
            )[j].name == names[k],
    decreases names.len(),
{
    let rest = names.drop_last();
    let before = uploads_for(tensors, rest);
    let ups = uploads_for(tensors, names);
    if j < before.len() {
        law_nothing_else_is_uploaded(tensors, rest, j);
        let k = choose|k: int|
            0 <= k < rest.len() && uploadable(tensors, #[trigger] rest[k]) && before[j].name
                == rest[k];
        assert(names[k] == rest[k]);
        assert(ups[j] == before[j]);
    } else {
        assert(names[names.len() - 1] == names.last());
    }
}

// ── A resident pass ─────────────────────────────────────────────────────────

/// Where a whole pass runs on the GPU, the GPU holds every matrix and every vector that the
/// pass works with: of each layer its two norms, the norms of its queries and keys where it
/// has such, and what its mixer needs.
pub proof fn law_a_resident_pass_has_everything(
    m: LlamaModel,
    r: Residency,
    i: usize,
    matrix: Matrix,
    queries: bool,
)
    requires
        resident_ready(m, r),
        i < m.layers@.len(),
    ensures
        m.backend matches Some(AnyBackend::Wgpu(_)),
        r.output_norm is Some,
        m.spec_matrix_name(matrix) matches Some(name) ==> r.spec_tensors().contains_key(name),
        head_norm_name(m, i, queries) matches Some(name) ==> r.spec_qk_norms().contains_key(name),
        r.vectors.has(LayerVector::AttnNorm, i) && r.vectors.has(LayerVector::FfnNorm, i),
        m.layers@[i as int].mixer is ShortConv ==> r.vectors.has(LayerVector::ConvWeight, i)
            && r.vectors.has(LayerVector::ConvHistory, i),
        m.layers@[i as int].mixer is GatedDeltaNet ==> r.vectors.has(LayerVector::GdnConvWeight, i)
            && r.vectors.has(LayerVector::GdnSsmNorm, i) && r.vectors.has(LayerVector::GdnSsmA, i)
            && r.vectors.has(LayerVector::GdnSsmDtBias, i) && r.vectors.has(
            LayerVector::GdnConvHistory,
            i,
        ) && r.vectors.has(LayerVector::GdnRecurrentState, i),
{
    assert(layer_ready(m, r, i as int));
    if let Some(name) = head_norm_name(m, i, queries) {
        let l = m.layers@[i as int];
        let norms = mixer_qk_norms(l.mixer);
        match l.mixer {
            Mixer::Attention(a) => {
                if queries {
                    assert(norms[0] == name);
                } else if a.q_norm is Some {
                    assert(norms[1] == name);
                } else {
                    assert(norms[0] == name);
                }
            },
            Mixer::GatedAttention(a) => {
                if queries {
                    assert(norms[0] == name);
                } else {
                    assert(norms[1] == name);
                }
            },
            _ => {},
        }
        assert(norms.contains(name));
        assert(all_there(r.spec_qk_norms(), norms));
    }
    if let Matrix::Layer(j, role) = matrix {
        if let Some(name) = m.spec_matrix_name(matrix) {
            let l = m.layers@[j as int];
            assert(layer_ready(m, r, j as int));
            lemma_matrix_of_layer(l, role, name);
            if mixer_uploads(l.mixer).contains(name) {
                let k = mixer_uploads(l.mixer).index_of(name);
                assert(r.spec_tensors().contains_key(mixer_uploads(l.mixer)[k]));
            } else {
                let k = ffn_uploads(l).index_of(name);
                assert(r.spec_tensors().contains_key(ffn_uploads(l)[k]));
            }
        }
    }
}

/// The norms of queries and keys of every layer are among the norms to upload.
pub proof fn law_norms_of_heads_are_uploaded(m: LlamaModel, n: int, i: usize, queries: bool)
    requires
        i < n <= m.layers@.len(),
    ensures
        head_norm_name(m, i, queries) matches Some(name) ==> qk_norm_names(
            m.layers@,
            n,
        ).contains(name),
    decreases n,
{
    if let Some(name) = head_norm_name(m, i, queries) {
        let before = qk_norm_names(m.layers@, n - 1);
        let own = mixer_qk_norms(m.layers@[n - 1].mixer);
        let all = qk_norm_names(m.layers@, n);
        if i < n - 1 {
            law_norms_of_heads_are_uploaded(m, n - 1, i, queries);
            let k = before.index_of(name);
            assert(all[k] == name);
        } else {
            match m.layers@[i as int].mixer {
                Mixer::Attention(a) => {
                    if !queries && a.q_norm is Some {
                        assert(own[1] == name);
                        assert(all[before.len() as int + 1] == name);
                    } else {
                        assert(own[0] == name);
                        assert(all[before.len() as int] == name);
                    }
                },
                _ => {
                    if queries {
                        assert(all[before.len() as int] == name);
                    } else {
                        assert(all[before.len() as int + 1] == name);
                    }
                },
            }
        }
    }
}

/// A cache on the GPU is for the attention layers, with a gate or without, and for them
/// only; they stand in their order.
pub proof fn law_attention_layers_have_a_cache(layers: Seq<LayerWeights>, n: int, i: int, j: int)
    requires
        0 <= n <= layers.len() <= usize::MAX,
        0 <= i < n,
    ensures
        attending(layers, n).contains(i as usize) <==> layers[i].mixer is Attention
            || layers[i].mixer is GatedAttention,
        0 <= j < attending(layers, n).len() ==> attending(layers, n)[j] < n && attends(
            layers[attending(layers, n)[j] as int],
        ),
        0 <= j && j + 1 < attending(layers, n).len() ==> attending(layers, n)[j] < attending(
            layers,
            n,
        )[j + 1],
    decreases n,
{
    let all = attending(layers, n);
    let before = attending(layers, n - 1);
    assert forall|k: int| 0 <= k < before.len() implies #[trigger] before[k] < n - 1 by {
        lemma_attending(layers, n - 1, k);
    }
    if n - 1 > 0 {
        let other = if i < n - 1 {
            i
        } else {
            0
        };
        law_attention_layers_have_a_cache(layers, n - 1, other, j);
    }
    if attends(layers[n - 1]) {
        assert(all == before.push((n - 1) as usize));
        if i < n - 1 {
            if before.contains(i as usize) {
                let k = before.index_of(i as usize);
                assert(all[k] == i as usize);
            }
            if all.contains(i as usize) {
                let k = all.index_of(i as usize);
                assert(before[k] == i as usize);
            }
        } else {
            assert(all.last() == i as usize);
        }
        if j == before.len() {
            assert(all[j] == n - 1);
        }
    } else {
        assert(all == before);
        if i == n - 1 && before.contains(i as usize) {
            let k = before.index_of(i as usize);
            assert(before[k] < n - 1);
        }
    }
}

proof fn lemma_attending(layers: Seq<LayerWeights>, n: int, k: int)
    requires
        0 <= n <= layers.len() <= usize::MAX,
        0 <= k < attending(layers, n).len(),
    ensures
        attending(layers, n)[k] < n,
    decreases n,
{
    if n > 0 && k < attending(layers, n - 1).len() {
        lemma_attending(layers, n - 1, k);
    }
}

/// A product runs on the GPU where there is one that holds the matrix, or that can multiply
/// with matrices of its type; it runs on the CPU otherwise.
pub proof fn law_products_run_where_their_matrix_is(
    backend: Option<AnyBackend>,
    held: Option<usize>,
    t: GgmlType,
)
    ensures
        ({
            let route = route_of(backend, held, t);
            let gpu = backend matches Some(AnyBackend::Wgpu(_));
            let can = t == GgmlType::Q4_K || t == GgmlType::Q5_K || t == GgmlType::Q6_K || t
                == GgmlType::Q8_0;
            &&& route is Resident <==> gpu && held is Some
            &&& route matches Route::Resident(h) ==> held == Some(h)
            &&& route is Upload <==> gpu && held is None && can
            &&& route is Cpu <==> !gpu || (held is None && !can)
            &&& gpu_dequantizable(t) == can
        }),
{
}

// ── Vectors ─────────────────────────────────────────────────────────────────

/// Every layer has the vectors of its own weights.
pub proof fn law_vectors_hold_the_weights_of_their_layer(l: LayerWeights)
    ensures
        vector_source(l, LayerVector::AttnNorm) == Some(l.attn_norm),
        vector_source(l, LayerVector::FfnNorm) == Some(l.ffn_norm),
        l.mixer matches Mixer::ShortConv(c) ==> vector_source(l, LayerVector::ConvWeight) == Some(
            c.conv_weight,
        ),
        l.mixer matches Mixer::GatedDeltaNet(g) ==> {
            &&& vector_source(l, LayerVector::GdnConvWeight) == Some(g.conv_weight)
            &&& vector_source(l, LayerVector::GdnSsmNorm) == Some(g.ssm_norm)
            &&& vector_source(l, LayerVector::GdnSsmA) == Some(g.ssm_a)
            &&& vector_source(l, LayerVector::GdnSsmDtBias) == Some(g.ssm_dt_bias)
        },
        vector_source(l, LayerVector::ConvHistory) is None,
        vector_source(l, LayerVector::GdnConvHistory) is None,
        vector_source(l, LayerVector::GdnRecurrentState) is None,
{
}

proof fn lemma_norm_uploads(n: int, i: int)
    requires
        0 <= i < n,
    ensures
        norm_uploads(n).contains(of_weights(LayerVector::AttnNorm, i)),
        norm_uploads(n).contains(of_weights(LayerVector::FfnNorm, i)),
    decreases n,
{
    let before = norm_uploads(n - 1);
    let all = norm_uploads(n);
    if i < n - 1 {
        lemma_norm_uploads(n - 1, i);
        let a = before.index_of(of_weights(LayerVector::AttnNorm, i));
        let f = before.index_of(of_weights(LayerVector::FfnNorm, i));
        assert(all[a] == of_weights(LayerVector::AttnNorm, i));
        assert(all[f] == of_weights(LayerVector::FfnNorm, i));
    } else {
        assert(all[before.len() as int] == of_weights(LayerVector::AttnNorm, i));
        assert(all[before.len() as int + 1] == of_weights(LayerVector::FfnNorm, i));
    }
}

proof fn lemma_state_of_conv(layers: Seq<LayerWeights>, history: int, n: int, i: int)
    requires
        0 <= i < n <= layers.len(),
        layers[i].mixer.spec_kind() == MixerKind::ShortConv,
    ensures
        conv_uploads(layers, history, n).contains(of_weights(LayerVector::ConvWeight, i)),
        conv_uploads(layers, history, n).contains(of_zeros(LayerVector::ConvHistory, i, history)),
    decreases n,
{
    let before = conv_uploads(layers, history, n - 1);
    let all = conv_uploads(layers, history, n);
    if i < n - 1 {
        lemma_state_of_conv(layers, history, n - 1, i);
        let a = before.index_of(of_weights(LayerVector::ConvWeight, i));
        let b = before.index_of(of_zeros(LayerVector::ConvHistory, i, history));
        assert(all[a] == of_weights(LayerVector::ConvWeight, i));
        assert(all[b] == of_zeros(LayerVector::ConvHistory, i, history));
    } else {
        assert(all[before.len() as int] == of_weights(LayerVector::ConvWeight, i));
        assert(all[before.len() as int + 1] == of_zeros(LayerVector::ConvHistory, i, history));
    }
}

proof fn lemma_state_of_delta(layers: Seq<LayerWeights>, history: int, state: int, n: int, i: int)
    requires
        0 <= i < n <= layers.len(),
        layers[i].mixer.spec_kind() == MixerKind::GatedDeltaNet,
    ensures
        ({
            let all = delta_uploads(layers, history, state, n);
            &&& all.contains(of_weights(LayerVector::GdnConvWeight, i))
            &&& all.contains(of_weights(LayerVector::GdnSsmNorm, i))
            &&& all.contains(of_weights(LayerVector::GdnSsmA, i))
            &&& all.contains(of_weights(LayerVector::GdnSsmDtBias, i))
            &&& all.contains(of_zeros(LayerVector::GdnConvHistory, i, history))
            &&& all.contains(of_zeros(LayerVector::GdnRecurrentState, i, state))
        }),
    decreases n,
{
    let before = delta_uploads(layers, history, state, n - 1);
    let all = delta_uploads(layers, history, state, n);
    if i < n - 1 {
        lemma_state_of_delta(layers, history, state, n - 1, i);
        assert forall|u: VectorUpload| before.contains(u) implies #[trigger] all.contains(u) by {
            let k = before.index_of(u);
            assert(all[k] == u);
        }
    } else {
        let k = before.len() as int;
        assert(all[k] == of_weights(LayerVector::GdnConvWeight, i));
        assert(all[k + 1] == of_weights(LayerVector::GdnSsmNorm, i));
        assert(all[k + 2] == of_weights(LayerVector::GdnSsmA, i));
        assert(all[k + 3] == of_weights(LayerVector::GdnSsmDtBias, i));
        assert(all[k + 4] == of_zeros(LayerVector::GdnConvHistory, i, history));
        assert(all[k + 5] == of_zeros(LayerVector::GdnRecurrentState, i, state));
    }
}

/// The upload of the weights of a layer.
pub open spec fn of_weights(kind: LayerVector, layer: int) -> VectorUpload {
    VectorUpload { kind, layer: layer as usize, zeros: 0 }
}

/// The upload of so many zeros.
pub open spec fn of_zeros(kind: LayerVector, layer: int, zeros: int) -> VectorUpload {
    VectorUpload { kind, layer: layer as usize, zeros: zeros as usize }
}

/// Every layer has its vectors uploaded, and its state begins with zeros: a convolution has
/// a history of all inputs that its kernel sees but the current one, and a Gated DeltaNet
/// layer a matrix for each head beside.
pub proof fn law_every_layer_begins_with_zeros(m: LlamaModel, i: int)
    requires
        0 <= i < m.layers@.len(),
        m.l_cache > 0,
    ensures
        ({
            let ups = vector_uploads(m);
            &&& ups.contains(of_weights(LayerVector::AttnNorm, i))
            &&& ups.contains(of_weights(LayerVector::FfnNorm, i))
            &&& m.layers@[i].mixer is ShortConv ==> {
                &&& ups.contains(of_weights(LayerVector::ConvWeight, i))
                &&& ups.contains(
                    of_zeros(
                        LayerVector::ConvHistory,
                        i,
                        (m.l_cache - 1) * m.cfg.embedding_length,
                    ),
                )
            }
            &&& m.layers@[i].mixer is GatedDeltaNet ==> (m.gdn_dims matches Some(d) ==> d.d_conv
                > 0 ==> {
                &&& ups.contains(of_weights(LayerVector::GdnConvWeight, i))
                &&& ups.contains(of_weights(LayerVector::GdnSsmNorm, i))
                &&& ups.contains(of_weights(LayerVector::GdnSsmA, i))
                &&& ups.contains(of_weights(LayerVector::GdnSsmDtBias, i))
                &&& ups.contains(
                    of_zeros(LayerVector::GdnConvHistory, i, d.conv_dim * (d.d_conv - 1)),
                )
                &&& ups.contains(
                    of_zeros(
                        LayerVector::GdnRecurrentState,
                        i,
                        d.n_v_heads * d.head_k_dim * d.head_v_dim,
                    ),
                )
            })
        }),
{
    let n = m.layers@.len() as int;
    let history = (m.l_cache - 1) * m.cfg.embedding_length;
    let norms = norm_uploads(n);
    let convs = conv_uploads(m.layers@, history, n);
    let ups = vector_uploads(m);
    lemma_norm_uploads(n, i);
    assert forall|u: VectorUpload| norms.contains(u) implies #[trigger] ups.contains(u) by {
        let k = norms.index_of(u);
        assert(ups[k] == u);
    }
    if m.layers@[i].mixer is ShortConv {
        lemma_state_of_conv(m.layers@, history, n, i);
        assert forall|u: VectorUpload| convs.contains(u) implies #[trigger] ups.contains(u) by {
            let k = convs.index_of(u);
            assert(ups[norms.len() + k] == u);
        }
    }
    if m.layers@[i].mixer is GatedDeltaNet {
        if let Some(d) = m.gdn_dims {
            if d.d_conv > 0 {
                let (h, s) = (
                    d.conv_dim * (d.d_conv - 1),
                    d.n_v_heads * d.head_k_dim * d.head_v_dim,
                );
                lemma_state_of_delta(m.layers@, h, s, n, i);
                let deltas = delta_uploads(m.layers@, h, s, n);
                assert forall|u: VectorUpload| deltas.contains(u) implies #[trigger] ups.contains(
                    u,
                ) by {
                    let k = deltas.index_of(u);
                    assert(ups[norms.len() + convs.len() + k] == u);
                }
            }
        }
    }
}

// ── Buffers ─────────────────────────────────────────────────────────────────

/// The buffers of a pass are as long as what comes into them: the queries of all heads, the
/// keys of all K/V heads, the rows of the feed-forward block, the vocabulary, the inputs
/// that a convolution remembers, and a matrix for each head of a Gated DeltaNet layer.
pub proof fn law_buffers_have_their_lengths(
    c: ConfigView,
    l_cache: nat,
    kinds: Seq<MixerKind>,
    d: GdnDims,
)
    requires
        l_cache > 0,
        d.d_conv > 0,
    ensures
        ({
            let n = lengths(c, l_cache, kinds, Some(d));
            &&& n.embedding == c.embedding_length
            &&& n.query == c.head_count * c.head_dim
            &&& n.key == c.head_count_kv * c.head_dim
            &&& n.feed_forward == c.feed_forward_length
            &&& n.vocabulary == c.vocab_size
            &&& n.context == c.context_length
            &&& n.conv_history == (l_cache - 1) * c.embedding_length
            &&& kinds.contains(MixerKind::ShortConv) ==> n.conv == c.embedding_length
            &&& kinds.contains(MixerKind::GatedAttention) ==> n.gate == c.head_count * c.head_dim
            &&& n.gdn_conv == d.conv_dim
            &&& n.gdn_value == d.value_dim
            &&& n.gdn_heads == d.n_v_heads
            &&& n.gdn_head == d.head_v_dim
            &&& n.gdn_history == (d.d_conv - 1) * d.conv_dim
            &&& n.gdn_state == d.n_v_heads * d.head_k_dim * d.head_v_dim
        }),
{
}

} // verus!
