//! Which tensors of a file a model is made of, and in which order they come into a pass.

use vstd::prelude::*;

use crate::model::llama::load::{is_layer, query_width, LlamaModel};
use crate::model::llama::meaning::head_norm_name;
use crate::model::llama::program::{
    first_layers, forward, layer, shape_of, shapes_of, Buffer, LayerShape, Matrix, NormRef, Op,
    Role,
};
use crate::model::llama::types::{blk, Mixer, MixerKind};
use crate::model::weights::last_named;
use crate::quant::{elements_of, Row};
use crate::text::decimal;
use crate::types::{product, FileView, TensorView};

verus! {

/// Whether a file has a tensor of a name.
pub open spec fn there_is(f: FileView, name: Seq<char>) -> bool {
    exists|k: int| 0 <= k < f.tensors.len() && #[trigger] f.tensors[k].name == name
}

/// The name of a tensor of a layer.
pub open spec fn of_layer(i: int, suffix: Seq<char>) -> Seq<char> {
    "blk."@ + decimal(i as nat) + "."@ + suffix
}

/// How the tensors of a layer are called that it multiplies with.
pub open spec fn suffix(role: Role) -> Seq<char> {
    match role {
        Role::Wq => "attn_q.weight"@,
        Role::Wk => "attn_k.weight"@,
        Role::Wv => "attn_v.weight"@,
        Role::Wo => "attn_output.weight"@,
        Role::InProj => "shortconv.in_proj.weight"@,
        Role::OutProj => "shortconv.out_proj.weight"@,
        Role::Wqkv => "attn_qkv.weight"@,
        Role::Wgate => "attn_gate.weight"@,
        Role::SsmBeta => "ssm_beta.weight"@,
        Role::SsmAlpha => "ssm_alpha.weight"@,
        Role::SsmOut => "ssm_out.weight"@,
        Role::FfnGate => "ffn_gate.weight"@,
        Role::FfnUp => "ffn_up.weight"@,
        Role::FfnDown => "ffn_down.weight"@,
    }
}

/// Of several tensors of one name the last one counts.
pub proof fn law_the_last_tensor_of_a_name_counts(
    tensors: Seq<TensorView>,
    name: Seq<char>,
    k: int,
)
    requires
        0 <= k < tensors.len(),
        forall|j: int| k < j < tensors.len() ==> (#[trigger] tensors[j]).name != name,
    ensures
        tensors[k].name == name ==> last_named(tensors, name) == Some(tensors[k]),
        k == 0 && tensors[0].name != name ==> last_named(tensors, name) is None,
    decreases tensors.len(),
{
    let rest = tensors.drop_last();
    if k == tensors.len() - 1 {
        if k == 0 {
            assert(last_named(rest, name) is None);
        }
    } else {
        assert(tensors[tensors.len() - 1].name != name);
        assert forall|j: int| k < j < rest.len() implies (#[trigger] rest[j]).name != name by {
            assert(tensors[j].name != name);
        }
        law_the_last_tensor_of_a_name_counts(rest, name, k);
        assert(rest[k] == tensors[k]);
    }
}

proof fn lemma_named(tensors: Seq<TensorView>, name: Seq<char>)
    ensures
        last_named(tensors, name) is Some <==> exists|k: int|
            0 <= k < tensors.len() && #[trigger] tensors[k].name == name,
    decreases tensors.len(),
{
    if tensors.len() > 0 {
        let rest = tensors.drop_last();
        lemma_named(rest, name);
        if tensors.last().name == name {
            assert(tensors[tensors.len() - 1].name == name);
        } else if last_named(rest, name) is Some {
            let k = choose|k: int| 0 <= k < rest.len() && #[trigger] rest[k].name == name;
            assert(tensors[k].name == name);
        } else if exists|k: int| 0 <= k < tensors.len() && #[trigger] tensors[k].name == name {
            let k = choose|k: int| 0 <= k < tensors.len() && #[trigger] tensors[k].name == name;
            assert(rest[k].name == name);
        }
    }
}

/// A layer is a short-conv layer where the file has the kernel of one for it, else a Gated
/// DeltaNet layer where it has decays for it, else an attention layer; that one has a gate
/// where the projection of its queries has twice as many rows as all heads together are
/// wide.
pub proof fn law_tensors_tell_the_kind_of_a_layer(
    model: LlamaModel,
    f: FileView,
    data: Seq<u8>,
    i: int,
)
    requires
        model.is_model_of(f, data),
        0 <= i < model.layers@.len(),
    ensures
        ({
            let kind = model.layers@[i].mixer.spec_kind();
            let conv = there_is(f, of_layer(i, "shortconv.conv.weight"@));
            let delta = there_is(f, of_layer(i, "ssm_alpha.weight"@));
            &&& kind == MixerKind::ShortConv <==> conv
            &&& kind == MixerKind::GatedDeltaNet <==> !conv && delta
            &&& (kind == MixerKind::Attention || kind == MixerKind::GatedAttention)
                ==> there_is(f, of_layer(i, "attn_q.weight"@)) && (kind
                == MixerKind::GatedAttention <==> product(
                last_named(f.tensors, of_layer(i, "attn_q.weight"@))->0.dims.skip(1),
            ) == 2 * (model.cfg.head_count * model.cfg.head_dim))
        }),
{
    lemma_named(f.tensors, of_layer(i, "shortconv.conv.weight"@));
    lemma_named(f.tensors, of_layer(i, "ssm_alpha.weight"@));
    lemma_named(f.tensors, of_layer(i, "attn_q.weight"@));
    assert(blk(i as nat, "attn_q.weight"@) == of_layer(
        i,
        "attn_q.weight"@,
    ));
    assert(blk(i as nat, "ssm_alpha.weight"@) == of_layer(
        i,
        "ssm_alpha.weight"@,
    ));
    assert(blk(i as nat, "shortconv.conv.weight"@) == of_layer(
        i,
        "shortconv.conv.weight"@,
    ));
}

/// What a layer multiplies with is the tensor of its own number that is called after its
/// role, and it has those that its kind needs. The last projection is that of the file, or
/// the embedding table where it has none.
pub proof fn law_matrices_are_called_after_their_role(
    model: LlamaModel,
    f: FileView,
    data: Seq<u8>,
    i: usize,
    role: Role,
)
    requires
        model.is_model_of(f, data),
        i < model.layers@.len(),
    ensures
        ({
            let kind = model.layers@[i as int].mixer.spec_kind();
            let name = model.spec_matrix_name(Matrix::Layer(i, role));
            &&& name matches Some(s) ==> s == of_layer(i as int, suffix(role))
            &&& name is Some <==> match role {
                Role::Wq | Role::Wk | Role::Wv | Role::Wo => kind == MixerKind::Attention || kind
                    == MixerKind::GatedAttention,
                Role::InProj | Role::OutProj => kind == MixerKind::ShortConv,
                Role::Wqkv | Role::Wgate | Role::SsmBeta | Role::SsmAlpha | Role::SsmOut => kind
                    == MixerKind::GatedDeltaNet,
                _ => true,
            }
        }),
        model.spec_matrix_name(Matrix::LmHead) == Some(
            if there_is(f, "output.weight"@) {
                "output.weight"@
            } else {
                "token_embd.weight"@
            },
        ),
        model.token_embd@ == "token_embd.weight"@,
{
    lemma_named(f.tensors, "output.weight"@);
    let l = model.layers@[i as int];
    assert(is_layer(
        l,
        f.tensors,
        data,
        query_width(model.cfg@),
        i as nat,
    ));
}

/// The first row of a tensor of a file.
pub open spec fn first_row_of(f: FileView, data: Seq<u8>, name: Seq<char>, row: Row) -> bool {
    last_named(f.tensors, name) matches Some(t) && row.elements() == elements_of(
        t.ggml_type,
        data.skip(t.byte_offset as int),
        t.dims[0] as nat,
    )
}

/// All of a tensor of a file.
pub open spec fn all_of(f: FileView, data: Seq<u8>, name: Seq<char>, row: Row) -> bool {
    last_named(f.tensors, name) matches Some(t) && row.elements() == elements_of(
        t.ggml_type,
        data.skip(t.byte_offset as int),
        product(t.dims),
    )
}

/// The weights of the norms of the residual stream are those of the file: before a mixer
/// `attn_norm` of the layer, before a feed-forward block `ffn_norm`, or
/// `post_attention_norm` where there is none, and before the last projection
/// `output_norm`, or `token_embd_norm` where there is none.
pub proof fn law_norms_are_those_of_the_file(
    model: LlamaModel,
    f: FileView,
    data: Seq<u8>,
    i: usize,
)
    requires
        model.is_model_of(f, data),
        i < model.layers@.len(),
    ensures
        model.spec_norm_weights(NormRef::Attn(i)) matches Some(row) && first_row_of(
            f,
            data,
            of_layer(i as int, "attn_norm.weight"@),
            row,
        ),
        model.spec_norm_weights(NormRef::Ffn(i)) matches Some(row) && first_row_of(
            f,
            data,
            of_layer(
                i as int,
                if there_is(f, of_layer(i as int, "ffn_norm.weight"@)) {
                    "ffn_norm.weight"@
                } else {
                    "post_attention_norm.weight"@
                },
            ),
            row,
        ),
        model.spec_norm_weights(NormRef::Output) matches Some(row) && first_row_of(
            f,
            data,
            if there_is(f, "output_norm.weight"@) {
                "output_norm.weight"@
            } else {
                "token_embd_norm.weight"@
            },
            row,
        ),
{
    lemma_named(f.tensors, of_layer(i as int, "ffn_norm.weight"@));
    lemma_named(f.tensors, "output_norm.weight"@);
    assert(blk(i as nat, "ffn_norm.weight"@) == of_layer(
        i as int,
        "ffn_norm.weight"@,
    ));
}

/// The small tensors of a layer are those of the file: the kernels of convolutions as a
/// whole, decays, their biases and the weights of norms by their first row.
pub proof fn law_small_tensors_are_those_of_the_file(
    model: LlamaModel,
    f: FileView,
    data: Seq<u8>,
    i: int,
)
    requires
        model.is_model_of(f, data),
        0 <= i < model.layers@.len(),
    ensures
        match model.layers@[i].mixer {
            Mixer::ShortConv(c) => all_of(
                f,
                data,
                of_layer(i, "shortconv.conv.weight"@),
                c.conv_weight,
            ),
            Mixer::GatedDeltaNet(g) => {
                &&& all_of(f, data, of_layer(i, "ssm_conv1d.weight"@), g.conv_weight)
                &&& first_row_of(f, data, of_layer(i, "ssm_a"@), g.ssm_a)
                &&& first_row_of(f, data, of_layer(i, "ssm_dt.bias"@), g.ssm_dt_bias)
                &&& first_row_of(f, data, of_layer(i, "ssm_norm.weight"@), g.ssm_norm)
            },
            _ => true,
        },
{
}

/// Queries and keys are normed with the weights of their own layer and kind: an attention
/// layer without a gate norms them where the file has such weights, one with a gate always.
pub proof fn law_queries_and_keys_have_their_own_norms(
    model: LlamaModel,
    f: FileView,
    data: Seq<u8>,
    i: usize,
    queries: bool,
)
    requires
        model.is_model_of(f, data),
        i < model.layers@.len(),
    ensures
        ({
            let kind = model.layers@[i as int].mixer.spec_kind();
            let own = of_layer(
                i as int,
                if queries {
                    "attn_q_norm.weight"@
                } else {
                    "attn_k_norm.weight"@
                },
            );
            let name = head_norm_name(model, i, queries);
            let s = shape_of(model.layers@[i as int]);
            &&& name matches Some(n) ==> n == own
            &&& name is Some <==> kind == MixerKind::GatedAttention || (kind
                == MixerKind::Attention && there_is(f, own))
            &&& (if queries {
                s.q_norm
            } else {
                s.k_norm
            }) == name is Some
            &&& s.kind == kind
        }),
{
    lemma_named(f.tensors, of_layer(i as int, "attn_q_norm.weight"@));
    lemma_named(f.tensors, of_layer(i as int, "attn_k_norm.weight"@));
    assert(blk(i as nat, "attn_q_norm.weight"@) == of_layer(
        i as int,
        "attn_q_norm.weight"@,
    ));
    assert(blk(i as nat, "attn_k_norm.weight"@) == of_layer(
        i as int,
        "attn_k_norm.weight"@,
    ));
}

// ── The order of the steps ──────────────────────────────────────────────────

/// A product with a matrix of a layer.
pub open spec fn through(i: usize, role: Role, from: Buffer, to: Buffer) -> Op {
    Op::MatMul(Matrix::Layer(i, role), from, to)
}

/// Every layer ends with its feed-forward block: the residual stream takes in what the
/// mixer gave, is normed, goes through two projections, their combination and a third
/// projection, and takes in what that gave.
pub open spec fn second_half(i: usize) -> Seq<Op> {
    seq![
        Op::AddResidual,
        Op::Norm(NormRef::Ffn(i)),
        through(i, Role::FfnGate, Buffer::Xn, Buffer::Gate),
        through(i, Role::FfnUp, Buffer::Xn, Buffer::Up),
        Op::SiluMul(i),
        through(i, Role::FfnDown, Buffer::FfnAct, Buffer::Proj),
        Op::AddResidual,
    ]
}

/// The steps of a layer without attention: the residual stream is normed, goes through the
/// mixer, and then through the feed-forward block.
pub proof fn law_steps_of_a_layer_without_attention(i: usize, s: LayerShape)
    ensures
        s.kind == MixerKind::ShortConv ==> layer(i as int, s) == seq![
            Op::Norm(NormRef::Attn(i)),
            through(i, Role::InProj, Buffer::Xn, Buffer::Bcx),
            Op::ShortConv(i),
            through(i, Role::OutProj, Buffer::ConvOut, Buffer::Proj),
        ] + second_half(i),
        s.kind == MixerKind::GatedDeltaNet ==> layer(i as int, s) == seq![
            Op::Norm(NormRef::Attn(i)),
            through(i, Role::Wqkv, Buffer::Xn, Buffer::GdnQkv),
            through(i, Role::Wgate, Buffer::Xn, Buffer::GdnZ),
            through(i, Role::SsmBeta, Buffer::Xn, Buffer::GdnBeta),
            through(i, Role::SsmAlpha, Buffer::Xn, Buffer::GdnAlpha),
            Op::GateDecay(i),
            Op::GdnConv(i),
            Op::L2Norm,
            Op::Recur(i),
            Op::GatedNorm(i),
            through(i, Role::SsmOut, Buffer::GdnOut, Buffer::Proj),
        ] + second_half(i),
{
    if s.kind == MixerKind::ShortConv {
        assert(layer(i as int, s) =~= seq![
            Op::Norm(NormRef::Attn(i)),
            through(i, Role::InProj, Buffer::Xn, Buffer::Bcx),
            Op::ShortConv(i),
            through(i, Role::OutProj, Buffer::ConvOut, Buffer::Proj),
        ] + second_half(i));
    }
    if s.kind == MixerKind::GatedDeltaNet {
        assert(layer(i as int, s) =~= seq![
            Op::Norm(NormRef::Attn(i)),
            through(i, Role::Wqkv, Buffer::Xn, Buffer::GdnQkv),
            through(i, Role::Wgate, Buffer::Xn, Buffer::GdnZ),
            through(i, Role::SsmBeta, Buffer::Xn, Buffer::GdnBeta),
            through(i, Role::SsmAlpha, Buffer::Xn, Buffer::GdnAlpha),
            Op::GateDecay(i),
            Op::GdnConv(i),
            Op::L2Norm,
            Op::Recur(i),
            Op::GatedNorm(i),
            through(i, Role::SsmOut, Buffer::GdnOut, Buffer::Proj),
        ] + second_half(i));
    }
}

/// An operation where it is called for.
pub open spec fn where_called_for(yes: bool, op: Op) -> Seq<Op> {
    if yes {
        seq![op]
    } else {
        Seq::empty()
    }
}

/// The steps of an attention layer: the residual stream is normed and projected to
/// queries, keys and values; queries and keys are normed where they have weights for
/// that, and rotated; key and value go into the cache before attention sees it; what
/// attention gives is projected. With a gate, the projection of the queries holds the
/// gates too, a part of each head is rotated, and what attention gives is gated.
pub proof fn law_steps_of_an_attention_layer(i: usize, s: LayerShape)
    requires
        s.kind == MixerKind::Attention || s.kind == MixerKind::GatedAttention,
    ensures
        ({
            let gate = s.kind == MixerKind::GatedAttention;
            layer(i as int, s) == seq![
                Op::Norm(NormRef::Attn(i)),
                through(
                    i,
                    Role::Wq,
                    Buffer::Xn,
                    if gate {
                        Buffer::QgRaw
                    } else {
                        Buffer::Q
                    },
                ),
                through(i, Role::Wk, Buffer::Xn, Buffer::K),
                through(i, Role::Wv, Buffer::Xn, Buffer::V),
            ] + where_called_for(gate, Op::SplitQg) + where_called_for(s.q_norm, Op::NormQ(i))
                + where_called_for(s.k_norm, Op::NormK(i)) + seq![
                Op::RotateQ(gate),
                Op::RotateK(gate),
                Op::CacheWrite(i),
                Op::Attend(i),
            ] + where_called_for(gate, Op::GateAttn) + seq![
                through(i, Role::Wo, Buffer::AttnOut, Buffer::Proj),
            ] + second_half(i)
        }),
{
    let gate = s.kind == MixerKind::GatedAttention;
    assert(layer(i as int, s) =~= seq![
        Op::Norm(NormRef::Attn(i)),
        through(
            i,
            Role::Wq,
            Buffer::Xn,
            if gate {
                Buffer::QgRaw
            } else {
                Buffer::Q
            },
        ),
        through(i, Role::Wk, Buffer::Xn, Buffer::K),
        through(i, Role::Wv, Buffer::Xn, Buffer::V),
    ] + where_called_for(gate, Op::SplitQg) + where_called_for(s.q_norm, Op::NormQ(i))
        + where_called_for(s.k_norm, Op::NormK(i)) + seq![
        Op::RotateQ(gate),
        Op::RotateK(gate),
        Op::CacheWrite(i),
        Op::Attend(i),
    ] + where_called_for(gate, Op::GateAttn) + seq![
        through(i, Role::Wo, Buffer::AttnOut, Buffer::Proj),
    ] + second_half(i));
}

/// A pass begins with the embedding of its token, goes through all layers in turn, and ends
/// with the norm of the residual stream and its projection to the vocabulary.
pub proof fn law_layers_follow_each_other(model: LlamaModel, i: int)
    requires
        0 <= i < model.layers@.len(),
    ensures
        ({
            let shapes = shapes_of(model.layers@);
            let n = shapes.len() as int;
            &&& n == model.layers@.len()
            &&& forward(shapes) == seq![Op::Embed] + first_layers(shapes, n) + seq![
                Op::Norm(NormRef::Output),
                Op::MatMul(Matrix::LmHead, Buffer::Xn, Buffer::Logits),
            ]
            &&& first_layers(shapes, 0) == Seq::<Op>::empty()
            &&& first_layers(shapes, i + 1) == first_layers(shapes, i) + layer(
                i,
                shape_of(model.layers@[i]),
            )
        }),
{
}

} // verus!
