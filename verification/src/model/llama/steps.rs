//! Building the programs of a forward pass.

use vstd::prelude::*;
use vstd::string::*;

use crate::model::llama::load::LlamaModel;
use crate::model::llama::program::{
    attend, conv_mixer, feed_forward, first_launched, first_layers, forward,
    fused_norms_and_rotations, gdn_mixer, launched_forward, launched_layer, launched_mixer, layer,
    mixer, norms_then_rotations, ones, product_of, project, shape_of, shapes_of, Buffer, Launch,
    LayerShape, Matrix, NormRef, Op, Role,
};
use crate::model::llama::types::{LayerWeights, Mixer, MixerKind};
use crate::quant::Row;

verus! {

fn layer_shape(l: &LayerWeights) -> (s: LayerShape)
    ensures
        s == shape_of(*l),
{
    match &l.mixer {
        Mixer::Attention(a) => LayerShape {
            kind: MixerKind::Attention,
            q_norm: a.q_norm.is_some(),
            k_norm: a.k_norm.is_some(),
        },
        Mixer::GatedAttention(_) => LayerShape {
            kind: MixerKind::GatedAttention,
            q_norm: true,
            k_norm: true,
        },
        Mixer::ShortConv(_) => LayerShape {
            kind: MixerKind::ShortConv,
            q_norm: false,
            k_norm: false,
        },
        Mixer::GatedDeltaNet(_) => LayerShape {
            kind: MixerKind::GatedDeltaNet,
            q_norm: false,
            k_norm: false,
        },
    }
}

fn push_product(ops: &mut Vec<Op>, i: usize, role: Role, from: Buffer, to: Buffer)
    ensures
        final(ops)@ == old(ops)@.push(product_of(i as int, role, from, to)),
{
    ops.push(Op::MatMul(Matrix::Layer(i, role), from, to));
}

fn push_projections(ops: &mut Vec<Op>, i: usize, kind: MixerKind)
    ensures
        final(ops)@ == old(ops)@ + project(i as int, kind),
{
    let gated: bool = kind == MixerKind::GatedAttention;
    let queries = if gated {
        Buffer::QgRaw
    } else {
        Buffer::Q
    };
    push_product(ops, i, Role::Wq, Buffer::Xn, queries);
    push_product(ops, i, Role::Wk, Buffer::Xn, Buffer::K);
    push_product(ops, i, Role::Wv, Buffer::Xn, Buffer::V);
    if gated {
        ops.push(Op::SplitQg);
    }
    proof {
        assert(ops@ =~= old(ops)@ + project(i as int, kind));
    }
}

fn push_attend(ops: &mut Vec<Op>, i: usize, kind: MixerKind)
    ensures
        final(ops)@ == old(ops)@ + attend(i as int, kind),
{
    ops.push(Op::CacheWrite(i));
    ops.push(Op::Attend(i));
    if kind == MixerKind::GatedAttention {
        ops.push(Op::GateAttn);
    }
    push_product(ops, i, Role::Wo, Buffer::AttnOut, Buffer::Proj);
    proof {
        assert(ops@ =~= old(ops)@ + attend(i as int, kind));
    }
}

fn push_norms_then_rotations(ops: &mut Vec<Op>, i: usize, s: LayerShape)
    ensures
        final(ops)@ == old(ops)@ + norms_then_rotations(i as int, s),
{
    let partial: bool = s.kind == MixerKind::GatedAttention;
    if s.q_norm {
        ops.push(Op::NormQ(i));
    }
    if s.k_norm {
        ops.push(Op::NormK(i));
    }
    ops.push(Op::RotateQ(partial));
    ops.push(Op::RotateK(partial));
    proof {
        assert(ops@ =~= old(ops)@ + norms_then_rotations(i as int, s));
    }
}

fn push_conv_mixer(ops: &mut Vec<Op>, i: usize)
    ensures
        final(ops)@ == old(ops)@ + conv_mixer(i as int),
{
    push_product(ops, i, Role::InProj, Buffer::Xn, Buffer::Bcx);
    ops.push(Op::ShortConv(i));
    push_product(ops, i, Role::OutProj, Buffer::ConvOut, Buffer::Proj);
    proof {
        assert(ops@ =~= old(ops)@ + conv_mixer(i as int));
    }
}

fn push_gdn_mixer(ops: &mut Vec<Op>, i: usize)
    ensures
        final(ops)@ == old(ops)@ + gdn_mixer(i as int),
{
    push_product(ops, i, Role::Wqkv, Buffer::Xn, Buffer::GdnQkv);
    push_product(ops, i, Role::Wgate, Buffer::Xn, Buffer::GdnZ);
    push_product(ops, i, Role::SsmBeta, Buffer::Xn, Buffer::GdnBeta);
    push_product(ops, i, Role::SsmAlpha, Buffer::Xn, Buffer::GdnAlpha);
    ops.push(Op::GateDecay(i));
    ops.push(Op::GdnConv(i));
    ops.push(Op::L2Norm);
    ops.push(Op::Recur(i));
    ops.push(Op::GatedNorm(i));
    push_product(ops, i, Role::SsmOut, Buffer::GdnOut, Buffer::Proj);
    proof {
        assert(ops@ =~= old(ops)@ + gdn_mixer(i as int));
    }
}

fn push_feed_forward(ops: &mut Vec<Op>, i: usize)
    ensures
        final(ops)@ == old(ops)@ + feed_forward(i as int),
{
    push_product(ops, i, Role::FfnGate, Buffer::Xn, Buffer::Gate);
    push_product(ops, i, Role::FfnUp, Buffer::Xn, Buffer::Up);
    ops.push(Op::SiluMul(i));
    push_product(ops, i, Role::FfnDown, Buffer::FfnAct, Buffer::Proj);
    proof {
        assert(ops@ =~= old(ops)@ + feed_forward(i as int));
    }
}

fn push_mixer(ops: &mut Vec<Op>, i: usize, s: LayerShape)
    ensures
        final(ops)@ == old(ops)@ + mixer(i as int, s),
{
    match s.kind {
        MixerKind::ShortConv => {
            push_conv_mixer(ops, i);
        },
        MixerKind::GatedDeltaNet => {
            push_gdn_mixer(ops, i);
        },
        _ => {
            push_projections(ops, i, s.kind);
            push_norms_then_rotations(ops, i, s);
            push_attend(ops, i, s.kind);
            proof {
                assert(ops@ =~= old(ops)@ + mixer(i as int, s));
            }
        },
    }
}

/// The operations of a forward pass, in the order in which the CPU runs them.
pub fn forward_steps(layers: &[LayerWeights]) -> (ops: Vec<Op>)
    ensures
        ops@ == forward(shapes_of(layers@)),
{
    let ghost shapes = shapes_of(layers@);
    let mut ops: Vec<Op> = Vec::new();
    ops.push(Op::Embed);
    let mut i: usize = 0;
    proof {
        assert(ops@ =~= seq![Op::Embed] + first_layers(shapes, 0));
    }
    while i < layers.len()
        invariant
            i <= layers@.len(),
            shapes == shapes_of(layers@),
            ops@ == seq![Op::Embed] + first_layers(shapes, i as int),
        decreases layers@.len() - i,
    {
        let s = layer_shape(&layers[i]);
        let ghost before = ops@;
        ops.push(Op::Norm(NormRef::Attn(i)));
        push_mixer(&mut ops, i, s);
        ops.push(Op::AddResidual);
        ops.push(Op::Norm(NormRef::Ffn(i)));
        push_feed_forward(&mut ops, i);
        ops.push(Op::AddResidual);
        proof {
            assert(s == shapes[i as int]);
            assert(ops@ =~= before + layer(i as int, s));
            assert(ops@ =~= seq![Op::Embed] + first_layers(shapes, i + 1));
        }
        i += 1;
    }
    ops.push(Op::Norm(NormRef::Output));
    ops.push(Op::MatMul(Matrix::LmHead, Buffer::Xn, Buffer::Logits));
    proof {
        assert(ops@ =~= forward(shapes));
    }
    ops
}

fn push_ones(launches: &mut Vec<Launch>, ops: &Vec<Op>)
    ensures
        final(launches)@ == old(launches)@ + ones(ops@),
{
    let mut k: usize = 0;
    proof {
        assert(launches@ =~= old(launches)@ + ones(ops@.take(0)));
    }
    while k < ops.len()
        invariant
            k <= ops@.len(),
            launches@ == old(launches)@ + ones(ops@.take(k as int)),
        decreases ops@.len() - k,
    {
        launches.push(Launch::One(ops[k]));
        proof {
            assert(launches@ =~= old(launches)@ + ones(ops@.take(k + 1)));
        }
        k += 1;
    }
    proof {
        assert(ops@.take(k as int) =~= ops@);
    }
}

fn push_launched_mixer(launches: &mut Vec<Launch>, i: usize, s: LayerShape)
    ensures
        final(launches)@ == old(launches)@ + launched_mixer(i as int, s),
{
    let ghost before = launches@;
    let mut ops: Vec<Op> = Vec::new();
    match s.kind {
        MixerKind::ShortConv => {
            push_conv_mixer(&mut ops, i);
            push_ones(launches, &ops);
            proof {
                assert(ops@ =~= conv_mixer(i as int));
            }
        },
        MixerKind::GatedDeltaNet => {
            push_gdn_mixer(&mut ops, i);
            push_ones(launches, &ops);
            proof {
                assert(ops@ =~= gdn_mixer(i as int));
            }
        },
        _ => {
            push_projections(&mut ops, i, s.kind);
            push_ones(launches, &ops);
            proof {
                assert(ops@ =~= project(i as int, s.kind));
            }
            let partial: bool = s.kind == MixerKind::GatedAttention;
            launches.push(
                if s.q_norm {
                    Launch::NormRotateQ(i, partial)
                } else {
                    Launch::One(Op::RotateQ(partial))
                },
            );
            launches.push(
                if s.k_norm {
                    Launch::NormRotateK(i, partial)
                } else {
                    Launch::One(Op::RotateK(partial))
                },
            );
            proof {
                assert(launches@ =~= before + ones(project(i as int, s.kind))
                    + fused_norms_and_rotations(i as int, s));
            }
            let mut rest: Vec<Op> = Vec::new();
            push_attend(&mut rest, i, s.kind);
            push_ones(launches, &rest);
            proof {
                assert(rest@ =~= attend(i as int, s.kind));
                assert(launches@ =~= before + launched_mixer(i as int, s));
            }
        },
    }
}

/// The launches of a forward pass on the GPU, in order.
pub fn launched_steps(layers: &[LayerWeights]) -> (launches: Vec<Launch>)
    requires
        0 < layers@.len(),
    ensures
        launches@ == launched_forward(shapes_of(layers@)),
{
    let ghost shapes = shapes_of(layers@);
    let n: usize = layers.len();
    let mut launches: Vec<Launch> = Vec::new();
    launches.push(Launch::One(Op::Embed));
    launches.push(Launch::One(Op::Norm(NormRef::Attn(0))));
    let ghost prologue = launches@;
    let mut i: usize = 0;
    proof {
        assert(launches@ =~= prologue + first_launched(shapes, 0));
    }
    while i < n
        invariant
            i <= n,
            n == layers@.len(),
            shapes == shapes_of(layers@),
            launches@ == prologue + first_launched(shapes, i as int),
        decreases n - i,
    {
        let s = layer_shape(&layers[i]);
        let ghost before = launches@;
        push_launched_mixer(&mut launches, i, s);
        launches.push(Launch::AddNorm(NormRef::Ffn(i)));
        let mut ops: Vec<Op> = Vec::new();
        push_feed_forward(&mut ops, i);
        push_ones(&mut launches, &ops);
        // FFN residual-add fused with the next prenorm — either the next
        // layer's attn-norm or, on the last layer, the final output norm.
        let next = if i + 1 < n {
            NormRef::Attn(i + 1)
        } else {
            NormRef::Output
        };
        launches.push(Launch::AddNorm(next));
        proof {
            assert(s == shapes[i as int]);
            assert(ops@ =~= feed_forward(i as int));
            assert(launches@ =~= before + launched_layer(i as int, s, n as int));
            assert(launches@ =~= prologue + first_launched(shapes, i + 1));
        }
        i += 1;
    }
    launches.push(Launch::One(Op::MatMul(Matrix::LmHead, Buffer::Xn, Buffer::Logits)));
    proof {
        assert(launches@ =~= launched_forward(shapes));
    }
    launches
}

/// The name of the matrix that a mixer has for a role.
pub open spec fn mixer_matrix(m: Mixer, role: Role) -> Option<Seq<char>> {
    match m {
        Mixer::Attention(a) => match role {
            Role::Wq => Some(a.wq@),
            Role::Wk => Some(a.wk@),
            Role::Wv => Some(a.wv@),
            Role::Wo => Some(a.wo@),
            _ => None,
        },
        Mixer::GatedAttention(a) => match role {
            Role::Wq => Some(a.wqg@),
            Role::Wk => Some(a.wk@),
            Role::Wv => Some(a.wv@),
            Role::Wo => Some(a.wo@),
            _ => None,
        },
        Mixer::ShortConv(c) => match role {
            Role::InProj => Some(c.in_proj@),
            Role::OutProj => Some(c.out_proj@),
            _ => None,
        },
        Mixer::GatedDeltaNet(g) => match role {
            Role::Wqkv => Some(g.wqkv@),
            Role::Wgate => Some(g.wgate@),
            Role::SsmBeta => Some(g.ssm_beta@),
            Role::SsmAlpha => Some(g.ssm_alpha@),
            Role::SsmOut => Some(g.ssm_out@),
            _ => None,
        },
    }
}

/// The name of the matrix that a layer has for a role.
pub open spec fn layer_matrix(l: LayerWeights, role: Role) -> Option<Seq<char>> {
    match role {
        Role::FfnGate => Some(l.ffn_gate@),
        Role::FfnUp => Some(l.ffn_up@),
        Role::FfnDown => Some(l.ffn_down@),
        _ => mixer_matrix(l.mixer, role),
    }
}

impl<'a> LlamaModel<'a> {
    /// The name of a matrix of this model.
    pub open spec fn spec_matrix_name(&self, m: Matrix) -> Option<Seq<char>> {
        match m {
            Matrix::LmHead => Some(self.lm_head@),
            Matrix::Layer(i, role) => if i < self.layers@.len() {
                layer_matrix(self.layers@[i as int], role)
            } else {
                None
            },
        }
    }

    /// The name of a matrix of this model.
    pub fn matrix_name(&self, m: Matrix) -> (r: Option<&str>)
        ensures
            match r {
                Some(s) => self.spec_matrix_name(m) == Some(s@),
                None => self.spec_matrix_name(m) is None,
            },
    {
        match m {
            Matrix::LmHead => Some(self.lm_head.as_str()),
            Matrix::Layer(i, role) => {
                if i >= self.layers.len() {
                    return None;
                }
                let l = &self.layers[i];
                match role {
                    Role::FfnGate => Some(l.ffn_gate.as_str()),
                    Role::FfnUp => Some(l.ffn_up.as_str()),
                    Role::FfnDown => Some(l.ffn_down.as_str()),
                    _ => match &l.mixer {
                        Mixer::Attention(a) => match role {
                            Role::Wq => Some(a.wq.as_str()),
                            Role::Wk => Some(a.wk.as_str()),
                            Role::Wv => Some(a.wv.as_str()),
                            Role::Wo => Some(a.wo.as_str()),
                            _ => None,
                        },
                        Mixer::GatedAttention(a) => match role {
                            Role::Wq => Some(a.wqg.as_str()),
                            Role::Wk => Some(a.wk.as_str()),
                            Role::Wv => Some(a.wv.as_str()),
                            Role::Wo => Some(a.wo.as_str()),
                            _ => None,
                        },
                        Mixer::ShortConv(c) => match role {
                            Role::InProj => Some(c.in_proj.as_str()),
                            Role::OutProj => Some(c.out_proj.as_str()),
                            _ => None,
                        },
                        Mixer::GatedDeltaNet(g) => match role {
                            Role::Wqkv => Some(g.wqkv.as_str()),
                            Role::Wgate => Some(g.wgate.as_str()),
                            Role::SsmBeta => Some(g.ssm_beta.as_str()),
                            Role::SsmAlpha => Some(g.ssm_alpha.as_str()),
                            Role::SsmOut => Some(g.ssm_out.as_str()),
                            _ => None,
                        },
                    },
                }
            },
        }
    }

    /// The weights of a norm of the residual stream.
    pub open spec fn spec_norm_weights(&self, n: NormRef) -> Option<Row> {
        match n {
            NormRef::Attn(i) => if i < self.layers@.len() {
                Some(self.layers@[i as int].attn_norm)
            } else {
                None
            },
            NormRef::Ffn(i) => if i < self.layers@.len() {
                Some(self.layers@[i as int].ffn_norm)
            } else {
                None
            },
            NormRef::Output => Some(self.output_norm),
        }
    }

    /// The weights of a norm of the residual stream.
    pub fn norm_weights(&self, n: NormRef) -> (r: Option<&Row>)
        ensures
            match r {
                Some(row) => self.spec_norm_weights(n) == Some(*row),
                None => self.spec_norm_weights(n) is None,
            },
    {
        match n {
            NormRef::Attn(i) => if i < self.layers.len() {
                Some(&self.layers[i].attn_norm)
            } else {
                None
            },
            NormRef::Ffn(i) => if i < self.layers.len() {
                Some(&self.layers[i].ffn_norm)
            } else {
                None
            },
            NormRef::Output => Some(&self.output_norm),
        }
    }
}

/// Whether what an operation names is there: its matrix, or the weights of its
/// norm.
pub open spec fn names_exist(m: LlamaModel, op: Op) -> bool {
    match op {
        Op::MatMul(matrix, _, _) => m.spec_matrix_name(matrix) is Some,
        Op::Norm(n) => m.spec_norm_weights(n) is Some,
        _ => true,
    }
}

/// Every operation of the forward pass of a model finds the matrix or the norm
/// that it names.
pub proof fn law_every_step_finds_its_weights(m: LlamaModel, k: int)
    requires
        0 <= k < forward(shapes_of(m.layers@)).len(),
        m.layers@.len() <= usize::MAX,
    ensures
        names_exist(m, forward(shapes_of(m.layers@))[k]),
{
    let shapes = shapes_of(m.layers@);
    let n = shapes.len() as int;
    lemma_layers_find_weights(m, n);
    let body = first_layers(shapes, n);
    assert(0 <= k - 1 < body.len() ==> forward(shapes)[k] == body[k - 1]);
}

proof fn lemma_layers_find_weights(m: LlamaModel, n: int)
    requires
        0 <= n <= m.layers@.len() <= usize::MAX,
    ensures
        forall|k: int|
            0 <= k < first_layers(shapes_of(m.layers@), n).len() ==> names_exist(
                m,
                #[trigger] first_layers(shapes_of(m.layers@), n)[k],
            ),
    decreases n,
{
    let shapes = shapes_of(m.layers@);
    if n > 0 {
        lemma_layers_find_weights(m, n - 1);
        let before = first_layers(shapes, n - 1);
        let i = n - 1;
        let s = shapes[i];
        let ops = layer(i, s);
        let l = m.layers@[i];
        assert((i as usize) as int == i);
        assert(s == shape_of(l));
        assert forall|k: int| 0 <= k < ops.len() implies names_exist(m, #[trigger] ops[k]) by {
            lemma_mixer_finds_weights(m, i);
            let mx = mixer(i, s);
            let front = seq![Op::Norm(NormRef::Attn(i as usize))];
            let mid = seq![Op::AddResidual, Op::Norm(NormRef::Ffn(i as usize))];
            if 1 <= k < 1 + mx.len() {
                assert(ops[k] == mx[k - 1]);
            }
        }
        assert forall|k: int| 0 <= k < first_layers(shapes, n).len() implies names_exist(
            m,
            #[trigger] first_layers(shapes, n)[k],
        ) by {
            if k < before.len() {
                assert(first_layers(shapes, n)[k] == before[k]);
            } else {
                assert(first_layers(shapes, n)[k] == ops[k - before.len()]);
            }
        }
    }
}

proof fn lemma_mixer_finds_weights(m: LlamaModel, i: int)
    requires
        0 <= i < m.layers@.len() <= usize::MAX,
    ensures
        forall|k: int|
            0 <= k < mixer(i, shape_of(m.layers@[i])).len() ==> names_exist(
                m,
                #[trigger] mixer(i, shape_of(m.layers@[i]))[k],
            ),
{
    let s = shape_of(m.layers@[i]);
    let ops = mixer(i, s);
    assert((i as usize) as int == i);
    match s.kind {
        MixerKind::ShortConv => {},
        MixerKind::GatedDeltaNet => {},
        _ => {
            let p = project(i, s.kind);
            let q = norms_then_rotations(i, s);
            let t = attend(i, s.kind);
            assert forall|k: int| 0 <= k < ops.len() implies names_exist(m, #[trigger] ops[k]) by {
                if k < p.len() {
                    assert(ops[k] == p[k]);
                } else if k < p.len() + q.len() {
                    assert(ops[k] == q[k - p.len()]);
                } else {
                    assert(ops[k] == t[k - p.len() - q.len()]);
                }
            }
        },
    }
}

} // verus!
