//! The small vectors of layers that the GPU holds: norms, conv kernels, and the state
//! that layers keep from one token to the next.

use std::collections::HashMap;

use vstd::prelude::*;

use crate::model::llama::load::LlamaModel;
use crate::model::llama::types::{GdnDims, LayerWeights, Mixer, MixerKind};
use crate::quant::Row;

verus! {

/// The kinds of vectors that a layer can have on the GPU.
#[derive(Debug, Clone, Copy, PartialEq, Eq, Structural)]
pub enum LayerVector {
    /// The norm ahead of the mixer.
    AttnNorm,
    /// The norm ahead of the feed-forward block.
    FfnNorm,
    /// The taps of a short convolution.
    ConvWeight,
    /// The inputs that a short convolution remembers.
    ConvHistory,
    /// The taps of the convolution of a Gated DeltaNet layer.
    GdnConvWeight,
    /// The norm of the output of a Gated DeltaNet layer.
    GdnSsmNorm,
    /// The decay of each head of a Gated DeltaNet layer.
    GdnSsmA,
    /// The bias of the decay of each head of a Gated DeltaNet layer.
    GdnSsmDtBias,
    /// The inputs that the convolution of a Gated DeltaNet layer remembers.
    GdnConvHistory,
    /// The recurrent state of a Gated DeltaNet layer.
    GdnRecurrentState,
}

/// Which vectors the GPU holds, by kind and layer, each by a number that stands for its
/// handle.
pub struct LayerVectors {
    attn_norms: HashMap<usize, usize>,
    ffn_norms: HashMap<usize, usize>,
    conv_weights: HashMap<usize, usize>,
    conv_history: HashMap<usize, usize>,
    gdn_conv_weights: HashMap<usize, usize>,
    gdn_ssm_norm: HashMap<usize, usize>,
    gdn_ssm_a: HashMap<usize, usize>,
    gdn_ssm_dt_bias: HashMap<usize, usize>,
    gdn_conv_history: HashMap<usize, usize>,
    gdn_recurrent_state: HashMap<usize, usize>,
}

impl LayerVectors {
    /// The vectors of a kind that are there, by layer.
    pub closed spec fn held(&self, kind: LayerVector) -> Map<usize, usize> {
        match kind {
            LayerVector::AttnNorm => self.attn_norms@,
            LayerVector::FfnNorm => self.ffn_norms@,
            LayerVector::ConvWeight => self.conv_weights@,
            LayerVector::ConvHistory => self.conv_history@,
            LayerVector::GdnConvWeight => self.gdn_conv_weights@,
            LayerVector::GdnSsmNorm => self.gdn_ssm_norm@,
            LayerVector::GdnSsmA => self.gdn_ssm_a@,
            LayerVector::GdnSsmDtBias => self.gdn_ssm_dt_bias@,
            LayerVector::GdnConvHistory => self.gdn_conv_history@,
            LayerVector::GdnRecurrentState => self.gdn_recurrent_state@,
        }
    }

    /// Whether the vector of a layer is there.
    pub open spec fn has(&self, kind: LayerVector, layer: usize) -> bool {
        self.held(kind).contains_key(layer)
    }

    /// Nothing is there yet.
    pub fn new() -> (v: Self)
        ensures
            forall|kind: LayerVector| #[trigger] v.held(kind) == Map::<usize, usize>::empty(),
    {
        LayerVectors {
            attn_norms: HashMap::new(),
            ffn_norms: HashMap::new(),
            conv_weights: HashMap::new(),
            conv_history: HashMap::new(),
            gdn_conv_weights: HashMap::new(),
            gdn_ssm_norm: HashMap::new(),
            gdn_ssm_a: HashMap::new(),
            gdn_ssm_dt_bias: HashMap::new(),
            gdn_conv_history: HashMap::new(),
            gdn_recurrent_state: HashMap::new(),
        }
    }

    /// A vector was uploaded.
    pub fn add_vector(&mut self, kind: LayerVector, layer: usize, handle: usize)
        ensures
            final(self).held(kind) == old(self).held(kind).insert(layer, handle),
            forall|other: LayerVector|
                other != kind ==> #[trigger] final(self).held(other) == old(self).held(other),
    {
        broadcast use vstd::std_specs::hash::group_hash_axioms;

        match kind {
            LayerVector::AttnNorm => {
                self.attn_norms.insert(layer, handle);
            },
            LayerVector::FfnNorm => {
                self.ffn_norms.insert(layer, handle);
            },
            LayerVector::ConvWeight => {
                self.conv_weights.insert(layer, handle);
            },
            LayerVector::ConvHistory => {
                self.conv_history.insert(layer, handle);
            },
            LayerVector::GdnConvWeight => {
                self.gdn_conv_weights.insert(layer, handle);
            },
            LayerVector::GdnSsmNorm => {
                self.gdn_ssm_norm.insert(layer, handle);
            },
            LayerVector::GdnSsmA => {
                self.gdn_ssm_a.insert(layer, handle);
            },
            LayerVector::GdnSsmDtBias => {
                self.gdn_ssm_dt_bias.insert(layer, handle);
            },
            LayerVector::GdnConvHistory => {
                self.gdn_conv_history.insert(layer, handle);
            },
            LayerVector::GdnRecurrentState => {
                self.gdn_recurrent_state.insert(layer, handle);
            },
        }
    }

    /// The handle of a vector.
    pub fn vector(&self, kind: LayerVector, layer: usize) -> (r: Option<usize>)
        ensures
            r == if self.has(kind, layer) {
                Some(self.held(kind)[layer])
            } else {
                None
            },
    {
        broadcast use vstd::std_specs::hash::group_hash_axioms;

        let found: Option<&usize> = match kind {
            LayerVector::AttnNorm => self.attn_norms.get(&layer),
            LayerVector::FfnNorm => self.ffn_norms.get(&layer),
            LayerVector::ConvWeight => self.conv_weights.get(&layer),
            LayerVector::ConvHistory => self.conv_history.get(&layer),
            LayerVector::GdnConvWeight => self.gdn_conv_weights.get(&layer),
            LayerVector::GdnSsmNorm => self.gdn_ssm_norm.get(&layer),
            LayerVector::GdnSsmA => self.gdn_ssm_a.get(&layer),
            LayerVector::GdnSsmDtBias => self.gdn_ssm_dt_bias.get(&layer),
            LayerVector::GdnConvHistory => self.gdn_conv_history.get(&layer),
            LayerVector::GdnRecurrentState => self.gdn_recurrent_state.get(&layer),
        };
        match found {
            Some(handle) => Some(*handle),
            None => None,
        }
    }
}

/// Whether every vector of a layer with such a mixer is there: its two norms, and what the
/// mixer works with beside its matrices.
pub open spec fn vectors_there(v: LayerVectors, kind: MixerKind, layer: usize) -> bool {
    &&& v.has(LayerVector::AttnNorm, layer)
    &&& v.has(LayerVector::FfnNorm, layer)
    &&& match kind {
        MixerKind::ShortConv => {
            &&& v.has(LayerVector::ConvWeight, layer)
            &&& v.has(LayerVector::ConvHistory, layer)
        },
        MixerKind::GatedDeltaNet => {
            &&& v.has(LayerVector::GdnConvWeight, layer)
            &&& v.has(LayerVector::GdnSsmNorm, layer)
            &&& v.has(LayerVector::GdnSsmA, layer)
            &&& v.has(LayerVector::GdnSsmDtBias, layer)
            &&& v.has(LayerVector::GdnConvHistory, layer)
            &&& v.has(LayerVector::GdnRecurrentState, layer)
        },
        _ => true,
    }
}

/// Whether every vector of a layer with such a mixer is there.
pub fn are_vectors_there(v: &LayerVectors, kind: MixerKind, layer: usize) -> (there: bool)
    ensures
        there == vectors_there(*v, kind, layer),
{
    let norms: bool = v.vector(LayerVector::AttnNorm, layer).is_some() && v.vector(
        LayerVector::FfnNorm,
        layer,
    ).is_some();
    let own: bool = match kind {
        MixerKind::ShortConv => v.vector(LayerVector::ConvWeight, layer).is_some() && v.vector(
            LayerVector::ConvHistory,
            layer,
        ).is_some(),
        MixerKind::GatedDeltaNet => v.vector(LayerVector::GdnConvWeight, layer).is_some()
            && v.vector(LayerVector::GdnSsmNorm, layer).is_some() && v.vector(
            LayerVector::GdnSsmA,
            layer,
        ).is_some() && v.vector(LayerVector::GdnSsmDtBias, layer).is_some() && v.vector(
            LayerVector::GdnConvHistory,
            layer,
        ).is_some() && v.vector(LayerVector::GdnRecurrentState, layer).is_some(),
        _ => true,
    };
    norms && own
}

// ── Uploads ─────────────────────────────────────────────────────────────────

/// A vector to upload: the values that the layer has for it, or `zeros` zeros.
#[derive(Debug, Clone, Copy, PartialEq, Eq, Structural)]
pub struct VectorUpload {
    pub kind: LayerVector,
    pub layer: usize,
    pub zeros: usize,
}

/// The upload of the values of a layer.
pub open spec fn weights_upload(kind: LayerVector, layer: int) -> VectorUpload {
    VectorUpload { kind, layer: layer as usize, zeros: 0 }
}

/// The upload of a state that begins with zeros.
pub open spec fn state_upload(kind: LayerVector, layer: int, zeros: int) -> VectorUpload {
    VectorUpload { kind, layer: layer as usize, zeros: zeros as usize }
}

/// The norms of the first `n` layers.
pub open spec fn norm_uploads(n: int) -> Seq<VectorUpload>
    decreases n,
{
    if n <= 0 {
        Seq::empty()
    } else {
        norm_uploads(n - 1) + seq![
            weights_upload(LayerVector::AttnNorm, n - 1),
            weights_upload(LayerVector::FfnNorm, n - 1),
        ]
    }
}

/// The vectors of those of the first `n` layers that are short convolutions, which
/// remember `history` values.
pub open spec fn conv_uploads(layers: Seq<LayerWeights>, history: int, n: int) -> Seq<VectorUpload>
    decreases n,
{
    if n <= 0 {
        Seq::empty()
    } else if layers[n - 1].mixer.spec_kind() == MixerKind::ShortConv {
        conv_uploads(layers, history, n - 1) + seq![
            weights_upload(LayerVector::ConvWeight, n - 1),
            state_upload(LayerVector::ConvHistory, n - 1, history),
        ]
    } else {
        conv_uploads(layers, history, n - 1)
    }
}

/// The vectors of those of the first `n` layers that are Gated DeltaNet layers, which
/// remember `history` values and keep a state of `state` values.
pub open spec fn delta_uploads(
    layers: Seq<LayerWeights>,
    history: int,
    state: int,
    n: int,
) -> Seq<VectorUpload>
    decreases n,
{
    if n <= 0 {
        Seq::empty()
    } else if layers[n - 1].mixer.spec_kind() == MixerKind::GatedDeltaNet {
        delta_uploads(layers, history, state, n - 1) + seq![
            weights_upload(LayerVector::GdnConvWeight, n - 1),
            weights_upload(LayerVector::GdnSsmNorm, n - 1),
            weights_upload(LayerVector::GdnSsmA, n - 1),
            weights_upload(LayerVector::GdnSsmDtBias, n - 1),
            state_upload(LayerVector::GdnConvHistory, n - 1, history),
            state_upload(LayerVector::GdnRecurrentState, n - 1, state),
        ]
    } else {
        delta_uploads(layers, history, state, n - 1)
    }
}

/// One less, but not below zero.
pub open spec fn one_less(n: nat) -> int {
    if n == 0 {
        0
    } else {
        n - 1
    }
}

/// The values that a short convolution of a model remembers.
pub open spec fn conv_history_len(m: LlamaModel) -> int {
    one_less(m.l_cache as nat) * m.cfg.embedding_length
}

/// The values that the convolution of a Gated DeltaNet layer remembers.
pub open spec fn delta_history_len(d: GdnDims) -> int {
    d.conv_dim * one_less(d.d_conv as nat)
}

/// The heads of the state of a Gated DeltaNet layer times the rows of each.
pub open spec fn delta_state_rows(d: GdnDims) -> int {
    d.n_v_heads * d.head_k_dim
}

/// The values of the state of a Gated DeltaNet layer.
pub open spec fn delta_state_len(d: GdnDims) -> int {
    delta_state_rows(d) * d.head_v_dim
}

/// Whether the lengths of all vectors can be computed.
pub open spec fn vector_lengths_fit(m: LlamaModel) -> bool {
    &&& m.cfg.embedding_length <= usize::MAX
    &&& conv_history_len(m) <= usize::MAX
    &&& m.gdn_dims matches Some(d) ==> {
        &&& delta_state_rows(d) <= usize::MAX
        &&& delta_state_len(d) <= usize::MAX
        &&& delta_history_len(d) <= usize::MAX
    }
}

/// The vectors of a model to upload, in order.
pub open spec fn vector_uploads(m: LlamaModel) -> Seq<VectorUpload> {
    let n = m.layers@.len() as int;
    norm_uploads(n) + conv_uploads(m.layers@, conv_history_len(m), n) + match m.gdn_dims {
        Some(d) => delta_uploads(m.layers@, delta_history_len(d), delta_state_len(d), n),
        None => Seq::empty(),
    }
}

/// The values that a layer has for a vector; none for a state.
pub open spec fn vector_source(l: LayerWeights, kind: LayerVector) -> Option<Row> {
    match kind {
        LayerVector::AttnNorm => Some(l.attn_norm),
        LayerVector::FfnNorm => Some(l.ffn_norm),
        LayerVector::ConvWeight => match l.mixer {
            Mixer::ShortConv(c) => Some(c.conv_weight),
            _ => None,
        },
        LayerVector::GdnConvWeight => match l.mixer {
            Mixer::GatedDeltaNet(g) => Some(g.conv_weight),
            _ => None,
        },
        LayerVector::GdnSsmNorm => match l.mixer {
            Mixer::GatedDeltaNet(g) => Some(g.ssm_norm),
            _ => None,
        },
        LayerVector::GdnSsmA => match l.mixer {
            Mixer::GatedDeltaNet(g) => Some(g.ssm_a),
            _ => None,
        },
        LayerVector::GdnSsmDtBias => match l.mixer {
            Mixer::GatedDeltaNet(g) => Some(g.ssm_dt_bias),
            _ => None,
        },
        LayerVector::ConvHistory => None,
        LayerVector::GdnConvHistory => None,
        LayerVector::GdnRecurrentState => None,
    }
}

/// The values that a layer has for a vector; none for a state.
pub fn vector_values<'l>(l: &'l LayerWeights, kind: LayerVector) -> (r: Option<&'l Row>)
    ensures
        match r {
            Some(row) => vector_source(*l, kind) == Some(*row),
            None => vector_source(*l, kind) is None,
        },
{
    match kind {
        LayerVector::AttnNorm => Some(&l.attn_norm),
        LayerVector::FfnNorm => Some(&l.ffn_norm),
        LayerVector::ConvWeight => match &l.mixer {
            Mixer::ShortConv(c) => Some(&c.conv_weight),
            _ => None,
        },
        LayerVector::GdnConvWeight => match &l.mixer {
            Mixer::GatedDeltaNet(g) => Some(&g.conv_weight),
            _ => None,
        },
        LayerVector::GdnSsmNorm => match &l.mixer {
            Mixer::GatedDeltaNet(g) => Some(&g.ssm_norm),
            _ => None,
        },
        LayerVector::GdnSsmA => match &l.mixer {
            Mixer::GatedDeltaNet(g) => Some(&g.ssm_a),
            _ => None,
        },
        LayerVector::GdnSsmDtBias => match &l.mixer {
            Mixer::GatedDeltaNet(g) => Some(&g.ssm_dt_bias),
            _ => None,
        },
        LayerVector::ConvHistory => None,
        LayerVector::GdnConvHistory => None,
        LayerVector::GdnRecurrentState => None,
    }
}

fn less_one(n: usize) -> (r: usize)
    ensures
        r == one_less(n as nat),
{
    if n == 0 {
        0
    } else {
        n - 1
    }
}

fn push_weights(list: &mut Vec<VectorUpload>, kind: LayerVector, layer: usize)
    ensures
        final(list)@ == old(list)@.push(weights_upload(kind, layer as int)),
{
    list.push(VectorUpload { kind, layer, zeros: 0 });
}

fn push_state(list: &mut Vec<VectorUpload>, kind: LayerVector, layer: usize, zeros: usize)
    ensures
        final(list)@ == old(list)@.push(state_upload(kind, layer as int, zeros as int)),
{
    list.push(VectorUpload { kind, layer, zeros });
}

fn push_norms(list: &mut Vec<VectorUpload>, count: usize)
    ensures
        final(list)@ == old(list)@ + norm_uploads(count as int),
{
    let mut i: usize = 0;
    proof {
        assert(list@ =~= old(list)@ + norm_uploads(0));
    }
    while i < count
        invariant
            i <= count,
            list@ == old(list)@ + norm_uploads(i as int),
        decreases count - i,
    {
        push_weights(list, LayerVector::AttnNorm, i);
        push_weights(list, LayerVector::FfnNorm, i);
        proof {
            assert(list@ =~= old(list)@ + norm_uploads(i + 1));
        }
        i += 1;
    }
}

fn push_convs(list: &mut Vec<VectorUpload>, layers: &Vec<LayerWeights>, history: usize)
    ensures
        final(list)@ == old(list)@ + conv_uploads(
            layers@,
            history as int,
            layers@.len() as int,
        ),
{
    let mut i: usize = 0;
    proof {
        assert(list@ =~= old(list)@ + conv_uploads(layers@, history as int, 0));
    }
    while i < layers.len()
        invariant
            i <= layers@.len(),
            list@ == old(list)@ + conv_uploads(layers@, history as int, i as int),
        decreases layers@.len() - i,
    {
        if let MixerKind::ShortConv = layers[i].mixer.kind() {
            push_weights(list, LayerVector::ConvWeight, i);
            push_state(list, LayerVector::ConvHistory, i, history);
        }
        proof {
            assert(list@ =~= old(list)@ + conv_uploads(layers@, history as int, i + 1));
        }
        i += 1;
    }
}

fn push_deltas(
    list: &mut Vec<VectorUpload>,
    layers: &Vec<LayerWeights>,
    history: usize,
    state: usize,
)
    ensures
        final(list)@ == old(list)@ + delta_uploads(
            layers@,
            history as int,
            state as int,
            layers@.len() as int,
        ),
{
    let mut i: usize = 0;
    proof {
        assert(list@ =~= old(list)@ + delta_uploads(layers@, history as int, state as int, 0));
    }
    while i < layers.len()
        invariant
            i <= layers@.len(),
            list@ == old(list)@ + delta_uploads(layers@, history as int, state as int, i as int),
        decreases layers@.len() - i,
    {
        if let MixerKind::GatedDeltaNet = layers[i].mixer.kind() {
            push_weights(list, LayerVector::GdnConvWeight, i);
            push_weights(list, LayerVector::GdnSsmNorm, i);
            push_weights(list, LayerVector::GdnSsmA, i);
            push_weights(list, LayerVector::GdnSsmDtBias, i);
            push_state(list, LayerVector::GdnConvHistory, i, history);
            push_state(list, LayerVector::GdnRecurrentState, i, state);
        }
        proof {
            assert(list@ =~= old(list)@ + delta_uploads(
                layers@,
                history as int,
                state as int,
                i + 1,
            ));
        }
        i += 1;
    }
}

impl<'a> LlamaModel<'a> {
    /// The vectors of layers to upload before the first forward pass, or nothing where
    /// the length of one does not fit a `usize`.
    pub fn vector_list(&self) -> (r: Option<Vec<VectorUpload>>)
        ensures
            match r {
                Some(list) => vector_lengths_fit(*self) && list@ == vector_uploads(*self),
                None => !vector_lengths_fit(*self),
            },
    {
        let width: u64 = self.cfg.embedding_length;
        if width > usize::MAX as u64 {
            return None;
        }
        let history: usize = less_one(self.l_cache).checked_mul(width as usize)?;
        let mut list: Vec<VectorUpload> = Vec::new();
        push_norms(&mut list, self.layers.len());
        push_convs(&mut list, &self.layers, history);
        if let Some(d) = self.gdn_dims {
            let rows: usize = d.n_v_heads.checked_mul(d.head_k_dim)?;
            let state: usize = rows.checked_mul(d.head_v_dim)?;
            let history: usize = d.conv_dim.checked_mul(less_one(d.d_conv))?;
            push_deltas(&mut list, &self.layers, history, state);
        }
        proof {
            assert(list@ =~= vector_uploads(*self));
        }
        Some(list)
    }
}

/// Whether all of some vectors are there.
pub open spec fn all_held(v: LayerVectors, list: Seq<VectorUpload>) -> bool {
    forall|j: int| 0 <= j < list.len() ==> v.has((#[trigger] list[j]).kind, list[j].layer)
}

proof fn lemma_held_parts(v: LayerVectors, a: Seq<VectorUpload>, b: Seq<VectorUpload>)
    requires
        all_held(v, a + b),
    ensures
        all_held(v, a),
        all_held(v, b),
{
    assert forall|j: int| 0 <= j < a.len() implies v.has((#[trigger] a[j]).kind, a[j].layer) by {
        assert((a + b)[j] == a[j]);
    }
    assert forall|j: int| 0 <= j < b.len() implies v.has((#[trigger] b[j]).kind, b[j].layer) by {
        assert((a + b)[a.len() + j] == b[j]);
    }
}

proof fn lemma_norms_there(v: LayerVectors, n: int, i: int)
    requires
        all_held(v, norm_uploads(n)),
        0 <= i < n,
    ensures
        v.has(LayerVector::AttnNorm, i as usize),
        v.has(LayerVector::FfnNorm, i as usize),
    decreases n,
{
    let last = seq![
        weights_upload(LayerVector::AttnNorm, n - 1),
        weights_upload(LayerVector::FfnNorm, n - 1),
    ];
    lemma_held_parts(v, norm_uploads(n - 1), last);
    if i < n - 1 {
        lemma_norms_there(v, n - 1, i);
    } else {
        assert(last[0].kind == LayerVector::AttnNorm && last[1].kind == LayerVector::FfnNorm);
    }
}

proof fn lemma_convs_there(v: LayerVectors, layers: Seq<LayerWeights>, history: int, n: int, i: int)
    requires
        all_held(v, conv_uploads(layers, history, n)),
        0 <= i < n,
        layers[i].mixer.spec_kind() == MixerKind::ShortConv,
    ensures
        v.has(LayerVector::ConvWeight, i as usize),
        v.has(LayerVector::ConvHistory, i as usize),
    decreases n,
{
    let last = seq![
        weights_upload(LayerVector::ConvWeight, n - 1),
        state_upload(LayerVector::ConvHistory, n - 1, history),
    ];
    if layers[n - 1].mixer.spec_kind() == MixerKind::ShortConv {
        lemma_held_parts(v, conv_uploads(layers, history, n - 1), last);
        assert(last[0].kind == LayerVector::ConvWeight && last[1].kind == LayerVector::ConvHistory);
    }
    if i < n - 1 {
        lemma_convs_there(v, layers, history, n - 1, i);
    }
}

proof fn lemma_deltas_there(
    v: LayerVectors,
    layers: Seq<LayerWeights>,
    history: int,
    state: int,
    n: int,
    i: int,
)
    requires
        all_held(v, delta_uploads(layers, history, state, n)),
        0 <= i < n,
        layers[i].mixer.spec_kind() == MixerKind::GatedDeltaNet,
    ensures
        v.has(LayerVector::GdnConvWeight, i as usize),
        v.has(LayerVector::GdnSsmNorm, i as usize),
        v.has(LayerVector::GdnSsmA, i as usize),
        v.has(LayerVector::GdnSsmDtBias, i as usize),
        v.has(LayerVector::GdnConvHistory, i as usize),
        v.has(LayerVector::GdnRecurrentState, i as usize),
    decreases n,
{
    let last = seq![
        weights_upload(LayerVector::GdnConvWeight, n - 1),
        weights_upload(LayerVector::GdnSsmNorm, n - 1),
        weights_upload(LayerVector::GdnSsmA, n - 1),
        weights_upload(LayerVector::GdnSsmDtBias, n - 1),
        state_upload(LayerVector::GdnConvHistory, n - 1, history),
        state_upload(LayerVector::GdnRecurrentState, n - 1, state),
    ];
    if layers[n - 1].mixer.spec_kind() == MixerKind::GatedDeltaNet {
        lemma_held_parts(v, delta_uploads(layers, history, state, n - 1), last);
        assert(last[0].kind == LayerVector::GdnConvWeight);
        assert(last[1].kind == LayerVector::GdnSsmNorm);
        assert(last[2].kind == LayerVector::GdnSsmA);
        assert(last[3].kind == LayerVector::GdnSsmDtBias);
        assert(last[4].kind == LayerVector::GdnConvHistory);
        assert(last[5].kind == LayerVector::GdnRecurrentState);
    }
    if i < n - 1 {
        lemma_deltas_there(v, layers, history, state, n - 1, i);
    }
}

/// Once the vectors of a model are uploaded, every vector of each layer is there, where the
/// model has dimensions for its Gated DeltaNet layers.
pub proof fn law_uploaded_vectors_are_there(m: LlamaModel, v: LayerVectors, i: int)
    requires
        all_held(v, vector_uploads(m)),
        0 <= i < m.layers@.len(),
        m.layers@[i].mixer.spec_kind() == MixerKind::GatedDeltaNet ==> m.gdn_dims is Some,
    ensures
        vectors_there(v, m.layers@[i].mixer.spec_kind(), i as usize),
{
    let n = m.layers@.len() as int;
    let norms = norm_uploads(n);
    let convs = conv_uploads(m.layers@, conv_history_len(m), n);
    let deltas = match m.gdn_dims {
        Some(d) => delta_uploads(m.layers@, delta_history_len(d), delta_state_len(d), n),
        None => Seq::empty(),
    };
    lemma_held_parts(v, norms + convs, deltas);
    lemma_held_parts(v, norms, convs);
    lemma_norms_there(v, n, i);
    match m.layers@[i].mixer.spec_kind() {
        MixerKind::ShortConv => {
            lemma_convs_there(v, m.layers@, conv_history_len(m), n, i);
        },
        MixerKind::GatedDeltaNet => {
            let d = m.gdn_dims->0;
            lemma_deltas_there(v, m.layers@, delta_history_len(d), delta_state_len(d), n, i);
        },
        _ => {},
    }
}

} // verus!
