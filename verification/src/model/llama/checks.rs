//! What can be foreseen of a forward pass for a model, a state and a cache: whether it is
//! defined, and whether it succeeds.

use vstd::prelude::*;

use crate::calc::{Calc, Math};
use crate::model::kv_cache::KvCache;
use crate::model::llama::delta::{is_consistent, state_len};
use crate::model::llama::forward::{pass_at, Foreseen};
use crate::model::llama::load::LlamaModel;
use crate::model::llama::meaning::{
    delta_fits, gate_name, head_norm_ok, head_norm_ready, memory, numeric, pass_of,
    projection_of, projections_ready, ready, rotated_of, sizes, succeeds, tensor, up_name, Pass,
    Sizes,
};
use crate::model::llama::program::{forward, shapes_of, Buffer, Matrix, Op, Role};
use crate::model::llama::state::InferenceState;
use crate::model::llama::steps::forward_steps;
use crate::model::llama::types::{GatedDeltaNet, GdnDims, Mixer};
use crate::model::matmul::{is_multipliable, is_pair_multipliable, is_pair_ok, pair_ok};
use crate::model::weights::{count_rows, row_is_ok, rows_are_ok};
use crate::quant::row_computable;

verus! {

/// Whether `a * b` is `n`.
fn product_is(a: u64, b: u64, n: usize) -> (r: bool)
    ensures
        r == (a * b == n),
{
    proof {
        assert(0 <= a * b <= 0xFFFF_FFFF_FFFF_FFFF * 0xFFFF_FFFF_FFFF_FFFF) by (nonlinear_arith)
            requires
                0 <= a <= 0xFFFF_FFFF_FFFF_FFFF,
                0 <= b <= 0xFFFF_FFFF_FFFF_FFFF,
        ;
    }
    a as u128 * b as u128 == n as u128
}

/// Whether `a * b` is at most `n`.
fn product_at_most(a: usize, b: usize, n: usize) -> (r: bool)
    ensures
        r == (a * b <= n),
{
    proof {
        assert(0 <= a * b <= 0xFFFF_FFFF_FFFF_FFFF * 0xFFFF_FFFF_FFFF_FFFF) by (nonlinear_arith)
            requires
                0 <= a <= 0xFFFF_FFFF_FFFF_FFFF,
                0 <= b <= 0xFFFF_FFFF_FFFF_FFFF,
        ;
    }
    a as u128 * b as u128 <= n as u128
}

/// How much a buffer of the pass as a whole holds.
fn buffer_len(state: &InferenceState<u32>, b: Buffer) -> (n: usize)
    requires
        numeric(b),
    ensures
        forall|cache: KvCache| n == #[trigger] memory(*state, cache)(b).size(),
{
    match b {
        Buffer::X => state.x.len(),
        Buffer::Xn => state.xn.len(),
        Buffer::Q => state.q.len(),
        Buffer::K => state.k.len(),
        Buffer::V => state.v.len(),
        Buffer::AttnOut => state.attn_out.len(),
        Buffer::Proj => state.proj.len(),
        Buffer::Gate => state.gate.len(),
        Buffer::Up => state.up.len(),
        Buffer::FfnAct => state.ffn_act.len(),
        Buffer::Logits => state.logits.len(),
        Buffer::Bcx => state.bcx.len(),
        Buffer::Bx => state.bx.len(),
        Buffer::ConvOut => state.conv_out.len(),
        Buffer::QgRaw => state.ga_qg_raw.len(),
        Buffer::QgGate => state.ga_gate.len(),
        Buffer::GdnQkv => state.gdn_qkv.len(),
        Buffer::GdnConv => state.gdn_conv_out.len(),
        Buffer::GdnZ => state.gdn_z.len(),
        Buffer::GdnBeta => state.gdn_beta_raw.len(),
        Buffer::GdnAlpha => state.gdn_alpha_raw.len(),
        _ => state.gdn_out.len(),
    }
}

/// Whether a buffer holds numbers of the pass as a whole.
fn is_numeric(b: Buffer) -> (r: bool)
    ensures
        r == numeric(b),
{
    match b {
        Buffer::Cache(_)
        | Buffer::ConvHistory(_)
        | Buffer::GdnHistory(_)
        | Buffer::GdnState(_) => false,
        _ => true,
    }
}

/// The length of one of several vectors, or zero where there is none.
fn layer_len(buffers: &Vec<Vec<u32>>, i: usize) -> (n: usize)
    ensures
        n == crate::model::llama::meaning::of_layer(buffers@, i).size(),
{
    if i < buffers.len() {
        buffers[i].len()
    } else {
        0
    }
}

/// Whether the weights of a Gated DeltaNet layer have the lengths that go with its
/// dimensions.
fn delta_is_fit(g: &GatedDeltaNet, dims: &GdnDims) -> (r: bool)
    ensures
        r == delta_fits(*g, *dims),
{
    is_consistent(dims) && 1 <= dims.d_conv && product_at_most(
        dims.conv_dim,
        dims.d_conv,
        g.conv_weight.len(),
    ) && dims.n_v_heads <= g.ssm_a.len() && dims.n_v_heads <= g.ssm_dt_bias.len()
        && dims.head_v_dim <= g.ssm_norm.len()
}

/// Whether a state of a Gated DeltaNet layer has the length that goes with its
/// dimensions.
fn is_state_len(dims: &GdnDims, n: usize) -> (r: bool)
    ensures
        r == (state_len(*dims) == n),
{
    let ghost a = dims.n_v_heads as int;
    let ghost b = dims.head_k_dim as int;
    let ghost c = dims.head_v_dim as int;
    if n == 0 {
        proof {
            assert(a * b * c == 0 <==> a == 0 || b == 0 || c == 0) by (nonlinear_arith);
        }
        return dims.n_v_heads == 0 || dims.head_k_dim == 0 || dims.head_v_dim == 0;
    }
    match dims.n_v_heads.checked_mul(dims.head_k_dim) {
        None => {
            proof {
                assert(a * b * c == 0 || a * b * c >= a * b) by (nonlinear_arith)
                    requires
                        0 <= a,
                        0 <= b,
                        0 <= c,
                ;
            }
            false
        },
        Some(rows) => product_is(rows as u64, dims.head_v_dim as u64, n),
    }
}

impl<'a> LlamaModel<'a> {
    fn head_norm_is_ready(&self, i: usize, queries: bool) -> (r: bool)
        requires
            self.weights.wf(),
        ensures
            r == head_norm_ready(*self, i, queries),
    {
        if i >= self.layers.len() {
            return false;
        }
        let name: &str = match &self.layers[i].mixer {
            Mixer::Attention(a) => {
                let stated = if queries {
                    &a.q_norm
                } else {
                    &a.k_norm
                };
                match stated {
                    Some(name) => name.as_str(),
                    None => {
                        return false;
                    },
                }
            },
            Mixer::GatedAttention(a) => if queries {
                a.q_norm.as_str()
            } else {
                a.k_norm.as_str()
            },
            _ => {
                return false;
            },
        };
        match self.weights.get(name) {
            None => true,
            Some(t) => row_computable(t, 0) && (!row_is_ok(t, self.weights.data(), 0)
                || self.cfg.head_dim <= t.dims[0]),
        }
    }

    /// Whether the norm of queries or of keys of a layer, where it is defined, succeeds.
    fn head_norm_succeeds(&self, i: usize, queries: bool) -> (r: bool)
        requires
            self.weights.wf(),
            head_norm_ready(*self, i, queries),
        ensures
            r == head_norm_ok(*self, i, queries),
    {
        let name: &str = match &self.layers[i].mixer {
            Mixer::Attention(a) => if queries {
                a.q_norm.as_ref().unwrap().as_str()
            } else {
                a.k_norm.as_ref().unwrap().as_str()
            },
            Mixer::GatedAttention(a) => if queries {
                a.q_norm.as_str()
            } else {
                a.k_norm.as_str()
            },
            _ => {
                return false;
            },
        };
        match self.weights.get(name) {
            None => false,
            Some(t) => row_is_ok(t, self.weights.data(), 0),
        }
    }

    /// Whether the two projections of a feed-forward block are defined.
    fn projections_are_ready(&self, i: usize, from: usize, to: usize, combined: usize) -> (r: bool)
        requires
            self.weights.wf(),
        ensures
            r == (i < self.layers@.len() && projections_ready(
                *self,
                i,
                from as nat,
                to as nat,
                combined as nat,
            )),
    {
        if i >= self.layers.len() {
            return false;
        }
        let l = &self.layers[i];
        match self.weights.get(l.ffn_gate.as_str()) {
            None => true,
            Some(gate) => match self.weights.get(l.ffn_up.as_str()) {
                None => true,
                Some(up) => gate.dims.len() >= 2 && gate.dims[1] <= to as u64 && gate.dims[1]
                    <= combined as u64 && is_pair_multipliable(gate, up, from),
            },
        }
    }

    /// Whether the two projections of a feed-forward block, where they are defined,
    /// succeed.
    fn projections_succeed(&self, i: usize, to: usize) -> (r: bool)
        requires
            self.weights.wf(),
            i < self.layers@.len(),
            exists|from: nat, combined: nat|
                #[trigger] projections_ready(*self, i, from, to as nat, combined),
        ensures
            r == (tensor(*self, gate_name(*self, i)) matches Some(gate) && tensor(
                *self,
                up_name(*self, i),
            ) matches Some(up) && pair_ok(gate, up, self.weights.bytes().len())),
    {
        let l = &self.layers[i];
        match self.weights.get(l.ffn_gate.as_str()) {
            None => false,
            Some(gate) => match self.weights.get(l.ffn_up.as_str()) {
                None => false,
                Some(up) => is_pair_ok(gate, up, self.weights.data()),
            },
        }
    }

    /// Whether the combination of the two projections of a feed-forward block is
    /// defined.
    fn combine_is_ready(&self, i: usize, state: &InferenceState<u32>) -> (r: bool)
        requires
            self.weights.wf(),
            self.cfg.head_count <= usize::MAX,
            self.cfg.head_count_kv <= usize::MAX,
            self.cfg.head_dim <= usize::MAX,
            self.cfg.embedding_length <= usize::MAX,
        ensures
            forall|p: Pass, cache: KvCache|
                r == #[trigger] ready(*self, p, sizes(memory(*state, cache)), Op::SiluMul(i)),
    {
        proof {
            reveal(ready);
        }
        if i >= self.layers.len() {
            return false;
        }
        match self.weights.get(self.layers[i].ffn_gate.as_str()) {
            None => false,
            Some(gate) => gate.dims.len() >= 2 && gate.dims[1] <= state.gate.len() as u64
                && gate.dims[1] <= state.up.len() as u64 && gate.dims[1]
                <= state.ffn_act.len() as u64,
        }
    }

    /// Whether the embedding of a token can be looked up, or that fails with an
    /// error.
    fn embed_is_ready(&self, token: u32, state: &InferenceState<u32>) -> (r: bool)
        requires
            self.weights.wf(),
            self.cfg.head_count <= usize::MAX,
            self.cfg.head_count_kv <= usize::MAX,
            self.cfg.head_dim <= usize::MAX,
            self.cfg.embedding_length <= usize::MAX,
        ensures
            forall|p: Pass, cache: KvCache|
                p.token == token ==> r == #[trigger] ready(
                    *self,
                    p,
                    sizes(memory(*state, cache)),
                    Op::Embed,
                ),
    {
        proof {
            reveal(ready);
        }
        let n: usize = state.x.len();
        proof {
            assert forall|cache: KvCache| #[trigger] sizes(memory(*state, cache))(Buffer::X)
                == n by {}
        }
        match self.weights.get(self.token_embd.as_str()) {
            None => true,
            Some(t) => row_computable(t, token as usize) && (!row_is_ok(
                t,
                self.weights.data(),
                token as usize,
            ) || t.dims[0] == n as u64),
        }
    }

    fn rotation_is_ready(&self, partial: bool) -> (r: bool)
        requires
            self.cfg.head_dim <= usize::MAX,
        ensures
            r == (2 * (rotated_of(*self, partial) as int / 2) <= self.cfg.head_dim),
    {
        let n_rot: usize = if partial {
            self.n_rot
        } else {
            self.cfg.head_dim as usize
        };
        2 * (n_rot / 2) as u64 <= self.cfg.head_dim
    }

    fn attend_is_ready(
        &self,
        i: usize,
        token: u32,
        pos: usize,
        state: &InferenceState<u32>,
        cache: &KvCache,
    ) -> (r: bool)
        requires
            self.weights.wf(),
            cache.wf(),
            self.cfg.head_count <= usize::MAX,
            self.cfg.head_count_kv <= usize::MAX,
            self.cfg.head_dim <= usize::MAX,
            self.cfg.embedding_length <= usize::MAX,
        ensures
            forall|m: Math|
                r == #[trigger] ready(
                    *self,
                    pass_of(m, token, pos, *cache),
                    sizes(memory(*state, *cache)),
                    Op::Attend(i),
                ),
    {
        proof {
            reveal(ready);
        }
        let c = &self.cfg;
        if c.head_count_kv == 0 {
            return false;
        }
        let group: u64 = c.gqa_group_size();
        let ghost kv = c.head_count_kv as int;
        proof {
            vstd::arithmetic::div_mod::lemma_fundamental_div_mod(c.head_count as int, kv);
            assert(kv * group <= c.head_count);
        }
        i < cache.n_layers() && pos < cache.max_seq_len() && (pos as u64) < c.context_length
            && product_is(c.head_count_kv, c.head_dim, cache.head_dim_kv()) && product_is(
            c.head_count,
            c.head_dim,
            state.q.len(),
        ) && product_is(c.head_count, c.head_dim, state.attn_out.len()) && (c.head_count == 0 || 0
            < group) && c.head_count <= c.head_count_kv * group
    }

    fn short_conv_is_ready(&self, i: usize, state: &InferenceState<u32>) -> (r: bool)
        requires
            self.cfg.head_count <= usize::MAX,
            self.cfg.head_count_kv <= usize::MAX,
            self.cfg.head_dim <= usize::MAX,
            self.cfg.embedding_length <= usize::MAX,
        ensures
            forall|p: Pass, cache: KvCache|
                r == #[trigger] ready(*self, p, sizes(memory(*state, cache)), Op::ShortConv(i)),
    {
        proof {
            reveal(ready);
        }
        if i >= self.layers.len() || self.l_cache == 0 {
            return false;
        }
        let d: usize = self.cfg.embedding_length as usize;
        match &self.layers[i].mixer {
            Mixer::ShortConv(c) => product_at_most(d, self.l_cache, c.conv_weight.len())
                && product_is(
                (self.l_cache - 1) as u64,
                d as u64,
                layer_len(&state.conv_state, i),
            ) && state.bcx.len() as u128 == 3 * d as u128 && state.bx.len() == d
                && state.conv_out.len() == d,
            _ => false,
        }
    }

    fn delta_is_ready(&self, op: Op, i: usize, state: &InferenceState<u32>) -> (r: bool)
        requires
            op == Op::GateDecay(i) || op == Op::GdnConv(i) || op == Op::GatedNorm(i),
            self.cfg.head_count <= usize::MAX,
            self.cfg.head_count_kv <= usize::MAX,
            self.cfg.head_dim <= usize::MAX,
            self.cfg.embedding_length <= usize::MAX,
        ensures
            forall|p: Pass, cache: KvCache|
                r == #[trigger] ready(*self, p, sizes(memory(*state, cache)), op),
    {
        proof {
            reveal(ready);
        }
        if i >= self.layers.len() {
            return false;
        }
        let dims = match self.gdn_dims {
            Some(dims) => dims,
            None => {
                return false;
            },
        };
        let g = match &self.layers[i].mixer {
            Mixer::GatedDeltaNet(g) => g,
            _ => {
                return false;
            },
        };
        if !delta_is_fit(g, &dims) {
            return false;
        }
        match op {
            Op::GateDecay(_) => state.gdn_beta_raw.len() == dims.n_v_heads
                && state.gdn_alpha_raw.len() == dims.n_v_heads,
            Op::GdnConv(_) => product_is(
                (dims.d_conv - 1) as u64,
                dims.conv_dim as u64,
                layer_len(&state.gdn_conv_state, i),
            ) && state.gdn_qkv.len() == dims.conv_dim && state.gdn_conv_out.len() == dims.conv_dim,
            _ => state.gdn_out.len() == dims.value_dim && state.gdn_z.len() == dims.value_dim,
        }
    }

    fn recurrence_is_ready(&self, op: Op, state: &InferenceState<u32>) -> (r: bool)
        requires
            op == Op::L2Norm || op is Recur,
            self.cfg.head_count <= usize::MAX,
            self.cfg.head_count_kv <= usize::MAX,
            self.cfg.head_dim <= usize::MAX,
            self.cfg.embedding_length <= usize::MAX,
        ensures
            forall|p: Pass, cache: KvCache|
                r == #[trigger] ready(*self, p, sizes(memory(*state, cache)), op),
    {
        proof {
            reveal(ready);
        }
        let dims = match self.gdn_dims {
            Some(dims) => dims,
            None => {
                return false;
            },
        };
        let keys: bool = is_consistent(&dims) && state.gdn_conv_out.len() == dims.conv_dim;
        match op {
            Op::Recur(i) => keys && i < self.layers.len() && state.gdn_beta_raw.len()
                == dims.n_v_heads && state.gdn_alpha_raw.len() == dims.n_v_heads && is_state_len(
                &dims,
                layer_len(&state.gdn_recurrent_state, i),
            ) && state.gdn_out.len() == dims.value_dim,
            _ => keys,
        }
    }

    /// Whether an operation is defined for a token at a position.
    pub fn is_ready(
        &self,
        op: Op,
        token: u32,
        pos: usize,
        state: &InferenceState<u32>,
        cache: &KvCache,
    ) -> (r: bool)
        requires
            self.weights.wf(),
            cache.wf(),
        ensures
            forall|m: Math|
                r == #[trigger] ready(
                    *self,
                    pass_of(m, token, pos, *cache),
                    sizes(memory(*state, *cache)),
                    op,
                ),
    {
        proof {
            reveal(ready);
        }
        let c = &self.cfg;
        if c.head_count > usize::MAX as u64 || c.head_count_kv > usize::MAX as u64 || c.head_dim
            > usize::MAX as u64 || c.embedding_length > usize::MAX as u64 {
            return false;
        }
        match op {
            Op::Embed => self.embed_is_ready(token, state),
            Op::Norm(norm) => self.norm_weights(norm).is_some(),
            Op::MatMul(matrix, from, to) => {
                if !is_numeric(from) || !is_numeric(to) || from == to {
                    return false;
                }
                let n: usize = buffer_len(state, from);
                let room: usize = buffer_len(state, to);
                proof {
                    let mem = memory(*state, *cache);
                    assert(sizes(mem)(from) == mem(from).size());
                    assert(sizes(mem)(to) == mem(to).size());
                    assert(sizes(mem)(Buffer::FfnAct) == state.ffn_act@.len());
                }
                match matrix {
                    Matrix::Layer(i, Role::FfnGate) => self.projections_are_ready(
                        i,
                        n,
                        room,
                        state.ffn_act.len(),
                    ),
                    Matrix::Layer(i, Role::FfnUp) => self.projections_are_ready(
                        i,
                        n,
                        room,
                        state.ffn_act.len(),
                    ),
                    _ => match self.matrix_name(matrix) {
                        None => false,
                        Some(name) => match self.weights.get(name) {
                            None => true,
                            Some(t) => is_multipliable(t, n) && match count_rows(t) {
                                Some(rows) => rows <= room,
                                None => false,
                            },
                        },
                    },
                }
            },
            Op::NormQ(i) => self.head_norm_is_ready(i, true) && (!self.head_norm_succeeds(i, true)
                || product_is(c.head_count, c.head_dim, state.q.len())),
            Op::NormK(i) => self.head_norm_is_ready(i, false) && (!self.head_norm_succeeds(i, false)
                || product_is(c.head_count_kv, c.head_dim, state.k.len())),
            Op::RotateQ(partial) => product_is(c.head_count, c.head_dim, state.q.len())
                && self.rotation_is_ready(partial),
            Op::RotateK(partial) => product_is(c.head_count_kv, c.head_dim, state.k.len())
                && self.rotation_is_ready(partial),
            Op::CacheWrite(i) => i < cache.n_layers() && pos < cache.max_seq_len()
                && state.k.len() == cache.head_dim_kv() && state.v.len() == cache.head_dim_kv(),
            Op::Attend(i) => {
                let r: bool = self.attend_is_ready(i, token, pos, state, cache);
                proof {
                    assert forall|m: Math|
                        r == #[trigger] ready(
                            *self,
                            pass_of(m, token, pos, *cache),
                            sizes(memory(*state, *cache)),
                            op,
                        ) by {
                        let n = sizes(memory(*state, *cache));
                        assert(r == ready(
                            *self,
                            pass_of(m, token, pos, *cache),
                            n,
                            Op::Attend(i),
                        ));
                    }
                }
                r
            },
            Op::SplitQg => {
                let n: usize = state.q.len();
                product_is(c.head_count, c.head_dim, n) && state.ga_gate.len() == n
                    && state.ga_qg_raw.len() as u128 == 2 * n as u128
            },
            Op::GateAttn => state.attn_out.len() <= state.ga_gate.len(),
            Op::ShortConv(i) => self.short_conv_is_ready(i, state),
            Op::GateDecay(i) => self.delta_is_ready(op, i, state),
            Op::GdnConv(i) => self.delta_is_ready(op, i, state),
            Op::L2Norm => self.recurrence_is_ready(op, state),
            Op::Recur(_) => self.recurrence_is_ready(op, state),
            Op::GatedNorm(i) => self.delta_is_ready(op, i, state),
            Op::SiluMul(i) => self.combine_is_ready(i, state),
            Op::AddResidual => state.x.len() <= state.proj.len(),
        }
    }

    /// Whether an operation succeeds for a token.
    fn will_succeed(
        &self,
        op: Op,
        token: u32,
        pos: usize,
        state: &InferenceState<u32>,
        cache: &KvCache,
    ) -> (r: bool)
        requires
            self.weights.wf(),
            exists|m: Math|
                #[trigger] ready(
                    *self,
                    pass_of(m, token, pos, *cache),
                    sizes(memory(*state, *cache)),
                    op,
                ),
        ensures
            forall|m: Math|
                r == #[trigger] succeeds(*self, pass_of(m, token, pos, *cache), op),
    {
        proof {
            reveal(ready);
            reveal(succeeds);
        }
        let data = self.weights.data();
        match op {
            Op::Embed => match self.weights.get(self.token_embd.as_str()) {
                None => false,
                Some(t) => row_is_ok(t, data, token as usize),
            },
            Op::MatMul(matrix, from, to) => {
                let room: usize = buffer_len(state, to);
                proof {
                    let n = sizes(memory(*state, *cache));
                    assert(n(to) == memory(*state, *cache)(to).size());
                    if let Some(i) = projection_of(matrix) {
                        assert(projections_ready(*self, i, n(from), n(to), n(Buffer::FfnAct)));
                    }
                }
                match matrix {
                    Matrix::Layer(i, Role::FfnGate) => self.projections_succeed(i, room),
                    Matrix::Layer(i, Role::FfnUp) => self.projections_succeed(i, room),
                    _ => match self.weights.get(self.matrix_name(matrix).unwrap()) {
                        None => false,
                        Some(t) => rows_are_ok(t, data, count_rows(t).unwrap()),
                    },
                }
            },
            Op::NormQ(i) => self.head_norm_succeeds(i, true),
            Op::NormK(i) => self.head_norm_succeeds(i, false),
            _ => true,
        }
    }

    /// What can be foreseen of the pass for a token at a position.
    pub fn foresee(
        &self,
        token: u32,
        pos: usize,
        state: &InferenceState<u32>,
        cache: &KvCache,
    ) -> (f: Foreseen)
        requires
            self.weights.wf(),
            cache.wf(),
        ensures
            forall|m: Math|
                #[trigger] self.foreseen(
                    pass_of(m, token, pos, *cache),
                    sizes(memory(*state, *cache)),
                    f,
                ),
    {
        let steps = forward_steps(self.layers.as_slice());
        let ghost ops = forward(shapes_of(self.layers@));
        let ghost n = sizes(memory(*state, *cache));
        let mut k: usize = 0;
        while k < steps.len()
            invariant
                k <= steps@.len(),
                steps@ == ops,
                ops == forward(shapes_of(self.layers@)),
                n == sizes(memory(*state, *cache)),
                self.weights.wf(),
                cache.wf(),
                forall|m: Math, j: int|
                    0 <= j < k ==> #[trigger] ready(
                        *self,
                        pass_of(m, token, pos, *cache),
                        n,
                        ops[j],
                    ),
                forall|m: Math, j: int|
                    0 <= j < k ==> #[trigger] succeeds(
                        *self,
                        pass_of(m, token, pos, *cache),
                        ops[j],
                    ),
            decreases steps@.len() - k,
        {
            let op = steps[k];
            if !self.is_ready(op, token, pos, state, cache) {
                proof {
                    assert forall|m: Math| #[trigger] self.foreseen(
                        pass_of(m, token, pos, *cache),
                        n,
                        Foreseen::Undefined,
                    ) by {
                        let p = pass_of(m, token, pos, *cache);
                        self.lemma_comes_to(p, k as int, ops);
                        assert(!ready(*self, p, n, ops[k as int]));
                    }
                }
                return Foreseen::Undefined;
            }
            proof {
                let m = |c: Calc| 0u32;
                assert(ready(*self, pass_of(m, token, pos, *cache), n, op));
            }
            if !self.will_succeed(op, token, pos, state, cache) {
                proof {
                    assert forall|m: Math| #[trigger] self.foreseen(
                        pass_of(m, token, pos, *cache),
                        n,
                        Foreseen::Fails,
                    ) by {
                        let p = pass_of(m, token, pos, *cache);
                        assert(!succeeds(*self, p, ops[k as int]));
                        assert forall|j: int|
                            0 <= j < ops.len() && self.comes_to(p, j) implies ready(
                            *self,
                            p,
                            n,
                            #[trigger] ops[j],
                        ) by {
                            if j < k {
                                assert(ready(*self, p, n, ops[j]));
                            } else if j == k {
                                assert(ready(*self, p, n, op));
                            } else {
                                assert(succeeds(*self, p, ops[k as int]));
                            }
                        }
                    }
                }
                return Foreseen::Fails;
            }
            proof {
                assert forall|m: Math, j: int| 0 <= j < k + 1 implies #[trigger] ready(
                    *self,
                    pass_of(m, token, pos, *cache),
                    n,
                    ops[j],
                ) by {
                    if j == k {
                        assert(ready(*self, pass_of(m, token, pos, *cache), n, op));
                    }
                }
                assert forall|m: Math, j: int| 0 <= j < k + 1 implies #[trigger] succeeds(
                    *self,
                    pass_of(m, token, pos, *cache),
                    ops[j],
                ) by {
                    if j == k {
                        assert(succeeds(*self, pass_of(m, token, pos, *cache), op));
                    }
                }
            }
            k += 1;
        }
        proof {
            assert forall|m: Math| #[trigger] self.foreseen(
                pass_of(m, token, pos, *cache),
                n,
                Foreseen::Succeeds,
            ) by {
                let p = pass_of(m, token, pos, *cache);
                assert forall|j: int| 0 <= j < ops.len() implies ready(
                    *self,
                    p,
                    n,
                    #[trigger] ops[j],
                ) && succeeds(*self, p, ops[j]) by {
                    assert(ready(*self, p, n, ops[j]));
                    assert(succeeds(*self, p, ops[j]));
                }
            }
        }
        Foreseen::Succeeds
    }

    /// Whether the pass for a token at a position is defined.
    pub fn is_pass_ready(
        &self,
        token: u32,
        pos: usize,
        state: &InferenceState<u32>,
        cache: &KvCache,
    ) -> (r: bool)
        requires
            self.weights.wf(),
            cache.wf(),
        ensures
            forall|m: Math|
                r == #[trigger] self.pass_ready(
                    pass_of(m, token, pos, *cache),
                    sizes(memory(*state, *cache)),
                ),
    {
        let f = self.foresee(token, pos, state, cache);
        proof {
            assert forall|m: Math| (f != Foreseen::Undefined) == #[trigger] self.pass_ready(
                pass_of(m, token, pos, *cache),
                sizes(memory(*state, *cache)),
            ) by {
                assert(self.foreseen(
                    pass_of(m, token, pos, *cache),
                    sizes(memory(*state, *cache)),
                    f,
                ));
            }
        }
        f != Foreseen::Undefined
    }

    /// Whether a batch of passes is defined.
    pub fn is_batch_ready(
        &self,
        tokens: &[u32],
        pos: usize,
        state: &InferenceState<u32>,
        cache: &KvCache,
    ) -> (r: bool)
        requires
            self.weights.wf(),
            cache.wf(),
            pos + tokens@.len() <= usize::MAX,
        ensures
            forall|m: Math|
                r == #[trigger] self.batch_ready(
                    m,
                    tokens@,
                    pos,
                    *cache,
                    sizes(memory(*state, *cache)),
                ),
    {
        let ghost n = sizes(memory(*state, *cache));
        let count: usize = tokens.len();
        let mut i: usize = 0;
        while i < count
            invariant
                i <= count,
                count == tokens@.len(),
                pos + count <= usize::MAX,
                n == sizes(memory(*state, *cache)),
                self.weights.wf(),
                cache.wf(),
                forall|m: Math, j: int|
                    0 <= j < i ==> #[trigger] self.foreseen(
                        pass_at(m, tokens@, pos, *cache, j),
                        n,
                        Foreseen::Succeeds,
                    ),
            decreases count - i,
        {
            let f = self.foresee(tokens[i], pos + i, state, cache);
            proof {
                assert forall|m: Math| #[trigger] self.foreseen(
                    pass_at(m, tokens@, pos, *cache, i as int),
                    n,
                    f,
                ) by {
                    assert(self.foreseen(
                        pass_of(m, tokens@[i as int], (pos + i) as usize, *cache),
                        n,
                        f,
                    ));
                }
            }
            if f != Foreseen::Succeeds {
                proof {
                    assert forall|m: Math| (f == Foreseen::Fails) == #[trigger] self.batch_ready(
                        m,
                        tokens@,
                        pos,
                        *cache,
                        n,
                    ) by {
                        self.lemma_batch_ready(m, tokens@, pos, *cache, n, i as int, f);
                    }
                }
                return f == Foreseen::Fails;
            }
            i += 1;
        }
        proof {
            assert forall|m: Math| #[trigger] self.batch_ready(m, tokens@, pos, *cache, n) by {
                assert forall|j: int| 0 <= j < count implies #[trigger] self.pass_ready(
                    pass_at(m, tokens@, pos, *cache, j),
                    n,
                ) by {
                    assert(self.foreseen(
                        pass_at(m, tokens@, pos, *cache, j),
                        n,
                        Foreseen::Succeeds,
                    ));
                }
            }
        }
        true
    }

    /// A batch is defined up to the first pass of which it is not foreseen that it
    /// succeeds, and there it is decided.
    proof fn lemma_batch_ready(
        &self,
        m: Math,
        tokens: Seq<u32>,
        pos: usize,
        cache: KvCache,
        n: Sizes,
        i: int,
        f: Foreseen,
    )
        requires
            0 <= i < tokens.len(),
            f != Foreseen::Succeeds,
            forall|j: int|
                0 <= j < i ==> #[trigger] self.foreseen(
                    pass_at(m, tokens, pos, cache, j),
                    n,
                    Foreseen::Succeeds,
                ),
            self.foreseen(pass_at(m, tokens, pos, cache, i), n, f),
        ensures
            (f == Foreseen::Fails) == self.batch_ready(m, tokens, pos, cache, n),
    {
        assert(self.batch_comes_to(m, tokens, pos, cache, i)) by {
            assert forall|j: int| 0 <= j < i implies #[trigger] self.pass_succeeds(
                pass_at(m, tokens, pos, cache, j),
            ) by {
                assert(self.foreseen(
                    pass_at(m, tokens, pos, cache, j),
                    n,
                    Foreseen::Succeeds,
                ));
            }
        }
        if f == Foreseen::Fails {
            assert forall|j: int|
                0 <= j < tokens.len() && self.batch_comes_to(m, tokens, pos, cache, j)
                implies #[trigger] self.pass_ready(pass_at(m, tokens, pos, cache, j), n) by {
                if j < i {
                    assert(self.foreseen(
                        pass_at(m, tokens, pos, cache, j),
                        n,
                        Foreseen::Succeeds,
                    ));
                } else if j > i {
                    assert(self.pass_succeeds(pass_at(m, tokens, pos, cache, i)));
                }
            }
        }
    }

    proof fn lemma_comes_to(&self, p: Pass, k: int, ops: Seq<Op>)
        requires
            ops == forward(shapes_of(self.layers@)),
            forall|j: int| 0 <= j < k ==> #[trigger] succeeds(*self, p, ops[j]),
        ensures
            self.comes_to(p, k),
    {
        assert forall|j: int| 0 <= j < k implies succeeds(*self, p, #[trigger] ops[j]) by {
            assert(succeeds(*self, p, ops[j]));
        }
    }
}

} // verus!
