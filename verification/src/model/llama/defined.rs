//! When the operations of a pass are defined: in buffers of the lengths that go with a
//! configuration, at every position that the cache and the context have, for every token
//! whose embedding is there.

use vstd::prelude::*;

use crate::model::llama::load::LlamaModel;
use crate::model::llama::meaning::{
    conv_of, delta_of, head_norm_name, ready, succeeds, tensor, Pass, Sizes,
};
use crate::model::llama::program::{Buffer, Matrix, NormRef, Op, Role};
use crate::model::llama::types::GdnDims;
use crate::model::matmul::{multipliable, pair_multipliable};
use crate::model::weights::row_ok;
use crate::types::TensorView;

verus! {

/// Whether buffers have the lengths that go with the configuration of a model.
pub open spec fn sized_for(model: LlamaModel, n: Sizes) -> bool {
    let query = (model.cfg.head_count * model.cfg.head_dim) as nat;
    let key = (model.cfg.head_count_kv * model.cfg.head_dim) as nat;
    let d = model.cfg.embedding_length as nat;
    let f = model.cfg.feed_forward_length as nat;
    &&& n(Buffer::X) == d && n(Buffer::Xn) == d && n(Buffer::Proj) == d
    &&& n(Buffer::Q) == query && n(Buffer::AttnOut) == query
    &&& n(Buffer::K) == key && n(Buffer::V) == key
    &&& n(Buffer::Gate) == f && n(Buffer::Up) == f && n(Buffer::FfnAct) == f
    &&& n(Buffer::Logits) == model.cfg.vocab_size
}

/// Whether the numbers of a configuration fit the machine, and query heads share K/V heads
/// evenly.
pub open spec fn workable(model: LlamaModel) -> bool {
    &&& model.cfg.head_count <= usize::MAX
    &&& model.cfg.head_count_kv <= usize::MAX
    &&& model.cfg.head_dim <= usize::MAX
    &&& model.cfg.embedding_length <= usize::MAX
    &&& 0 < model.cfg.head_count_kv <= model.cfg.head_count
    &&& model.cfg.head_count == model.cfg.head_count_kv * (model.cfg.head_count as int
        / model.cfg.head_count_kv as int)
}

/// What attention does is defined at every position that the cache and the context have:
/// heads are rotated, key and value written, and all of the cache is attended to, and none
/// of it fails.
pub proof fn law_attention_is_defined_at_every_position(
    model: LlamaModel,
    p: Pass,
    n: Sizes,
    i: usize,
    partial: bool,
)
    requires
        workable(model),
        sized_for(model, n),
        i < p.layers,
        p.pos < p.slots,
        p.pos < model.cfg.context_length,
        p.width == model.cfg.head_count_kv * model.cfg.head_dim,
        partial ==> model.n_rot <= model.cfg.head_dim,
    ensures
        ready(model, p, n, Op::RotateQ(partial)) && succeeds(model, p, Op::RotateQ(partial)),
        ready(model, p, n, Op::RotateK(partial)) && succeeds(model, p, Op::RotateK(partial)),
        ready(model, p, n, Op::CacheWrite(i)) && succeeds(model, p, Op::CacheWrite(i)),
        ready(model, p, n, Op::Attend(i)) && succeeds(model, p, Op::Attend(i)),
        ready(model, p, n, Op::AddResidual) && succeeds(model, p, Op::AddResidual),
{
    reveal(ready);
    reveal(succeeds);
    let (h, kv) = (model.cfg.head_count as int, model.cfg.head_count_kv as int);
    assert(0 < h / kv) by (nonlinear_arith)
        requires
            0 < kv <= h,
    ;
}

/// Gated attention is defined where its buffers have room for all heads.
pub proof fn law_gated_attention_is_defined(model: LlamaModel, p: Pass, n: Sizes)
    requires
        workable(model),
        sized_for(model, n),
        n(Buffer::QgRaw) == 2 * (model.cfg.head_count * model.cfg.head_dim),
        n(Buffer::QgGate) == model.cfg.head_count * model.cfg.head_dim,
    ensures
        ready(model, p, n, Op::SplitQg) && succeeds(model, p, Op::SplitQg),
        ready(model, p, n, Op::GateAttn) && succeeds(model, p, Op::GateAttn),
{
    reveal(ready);
    reveal(succeeds);
}

/// The embedding of every token whose row is there can be taken, and the pass fails where
/// there is none.
pub proof fn law_every_embedded_token_has_a_pass(model: LlamaModel, p: Pass, n: Sizes)
    requires
        workable(model),
        sized_for(model, n),
        tensor(model, model.token_embd@) matches Some(t) && t.row_computable(p.token as nat)
            && t.dims[0] == model.cfg.embedding_length,
    ensures
        ready(model, p, n, Op::Embed),
        ({
            let t = tensor(model, model.token_embd@)->0;
            succeeds(model, p, Op::Embed) <==> row_ok(
                t,
                model.weights.bytes().len(),
                p.token as nat,
            )
        }),
{
    reveal(ready);
    reveal(succeeds);
}

/// A product is defined where its matrix has rows as long as the vector, and no more of them
/// than there is room for; it succeeds where every row can be decoded.
pub proof fn law_products_are_defined(
    model: LlamaModel,
    p: Pass,
    n: Sizes,
    matrix: Matrix,
    to: Buffer,
)
    requires
        workable(model),
        matrix matches Matrix::Layer(_, role) ==> role != Role::FfnGate && role != Role::FfnUp,
        to == Buffer::Q || to == Buffer::K || to == Buffer::V || to == Buffer::Proj || to
            == Buffer::Logits || to == Buffer::QgRaw || to == Buffer::Bcx || to == Buffer::GdnQkv,
        model.spec_matrix_name(matrix) matches Some(name) && (tensor(model, name) matches Some(t)
            && multipliable(t, n(Buffer::Xn)) && t.row_count() <= n(to)),
    ensures
        ready(model, p, n, Op::MatMul(matrix, Buffer::Xn, to)),
        ({
            let t = tensor(model, model.spec_matrix_name(matrix)->0)->0;
            succeeds(model, p, Op::MatMul(matrix, Buffer::Xn, to)) <==> forall|row: nat|
                row < t.row_count() ==> #[trigger] row_ok(t, model.weights.bytes().len(), row)
        }),
{
    reveal(ready);
    reveal(succeeds);
}

/// A short convolution is defined where it has taps for all channels.
pub proof fn law_short_convolutions_are_defined(model: LlamaModel, p: Pass, n: Sizes, i: usize)
    requires
        workable(model),
        1 <= model.l_cache,
        conv_of(model, i) matches Some(c) && c.conv_weight.elements().len()
            == model.cfg.embedding_length * model.l_cache,
        n(Buffer::ConvHistory(i)) == (model.l_cache - 1) * model.cfg.embedding_length,
        n(Buffer::Bcx) == 3 * model.cfg.embedding_length,
        n(Buffer::Bx) == model.cfg.embedding_length,
        n(Buffer::ConvOut) == model.cfg.embedding_length,
    ensures
        ready(model, p, n, Op::ShortConv(i)) && succeeds(model, p, Op::ShortConv(i)),
{
    reveal(ready);
    reveal(succeeds);
}

/// A Gated DeltaNet layer is defined where its weights and buffers have the lengths that go
/// with its dimensions.
pub proof fn law_delta_nets_are_defined(
    model: LlamaModel,
    p: Pass,
    n: Sizes,
    i: usize,
    d: GdnDims,
)
    requires
        workable(model),
        i < model.layers@.len(),
        model.gdn_dims == Some(d),
        0 < d.n_k_heads,
        d.key_dim == d.head_k_dim * d.n_k_heads,
        d.value_dim == d.head_v_dim * d.n_v_heads,
        d.conv_dim == 2 * d.key_dim + d.value_dim,
        1 <= d.d_conv,
        delta_of(model, i) matches Some(g) && g.conv_weight.elements().len() == d.conv_dim
            * d.d_conv && g.ssm_a.elements().len() == d.n_v_heads && g.ssm_dt_bias.elements().len()
            == d.n_v_heads && g.ssm_norm.elements().len() == d.head_v_dim,
        n(Buffer::GdnQkv) == d.conv_dim && n(Buffer::GdnConv) == d.conv_dim,
        n(Buffer::GdnZ) == d.value_dim && n(Buffer::GdnOut) == d.value_dim,
        n(Buffer::GdnBeta) == d.n_v_heads && n(Buffer::GdnAlpha) == d.n_v_heads,
        n(Buffer::GdnHistory(i)) == (d.d_conv - 1) * d.conv_dim,
        n(Buffer::GdnState(i)) == d.n_v_heads * d.head_k_dim * d.head_v_dim,
    ensures
        ready(model, p, n, Op::GateDecay(i)) && succeeds(model, p, Op::GateDecay(i)),
        ready(model, p, n, Op::GdnConv(i)) && succeeds(model, p, Op::GdnConv(i)),
        ready(model, p, n, Op::L2Norm) && succeeds(model, p, Op::L2Norm),
        ready(model, p, n, Op::Recur(i)) && succeeds(model, p, Op::Recur(i)),
        ready(model, p, n, Op::GatedNorm(i)) && succeeds(model, p, Op::GatedNorm(i)),
{
    reveal(ready);
    reveal(succeeds);
}

/// The norm of queries and of keys is defined where its weights can be read and are enough
/// for a head, and the norms of the residual stream where they have weights.
pub proof fn law_norms_are_defined(
    model: LlamaModel,
    p: Pass,
    n: Sizes,
    i: usize,
    queries: bool,
)
    requires
        workable(model),
        sized_for(model, n),
        head_norm_name(model, i, queries) matches Some(name) && (tensor(model, name) matches Some(t)
            && t.row_computable(0) && row_ok(t, model.weights.bytes().len(), 0) && t.dims[0]
            == model.cfg.head_dim),
    ensures
        queries ==> ready(model, p, n, Op::NormQ(i)) && succeeds(model, p, Op::NormQ(i)),
        !queries ==> ready(model, p, n, Op::NormK(i)) && succeeds(model, p, Op::NormK(i)),
{
    reveal(ready);
    reveal(succeeds);
}

/// A norm of the residual stream is defined where it has weights.
pub proof fn law_norms_of_the_stream_are_defined(
    model: LlamaModel,
    p: Pass,
    n: Sizes,
    norm: NormRef,
)
    requires
        workable(model),
        model.spec_norm_weights(norm) is Some,
    ensures
        ready(model, p, n, Op::Norm(norm)) && succeeds(model, p, Op::Norm(norm)),
{
    reveal(ready);
    reveal(succeeds);
}

/// A feed-forward block is defined where both of its projections have rows as long as the
/// residual stream, and as many of them as the configuration says.
pub proof fn law_feed_forward_blocks_are_defined(
    model: LlamaModel,
    p: Pass,
    n: Sizes,
    i: usize,
    gate: TensorView,
    up: TensorView,
)
    requires
        workable(model),
        sized_for(model, n),
        i < model.layers@.len(),
        tensor(model, model.layers@[i as int].ffn_gate@) == Some(gate),
        tensor(model, model.layers@[i as int].ffn_up@) == Some(up),
        pair_multipliable(gate, up, model.cfg.embedding_length as nat),
        gate.dims.len() >= 2,
        gate.dims[1] == model.cfg.feed_forward_length,
    ensures
        ready(model, p, n, Op::MatMul(Matrix::Layer(i, Role::FfnGate), Buffer::Xn, Buffer::Gate)),
        ready(model, p, n, Op::MatMul(Matrix::Layer(i, Role::FfnUp), Buffer::Xn, Buffer::Up)),
        ready(model, p, n, Op::SiluMul(i)) && succeeds(model, p, Op::SiluMul(i)),
{
    reveal(ready);
    reveal(succeeds);
}

} // verus!
