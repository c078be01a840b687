//! The forward pass on the CPU.

use vstd::prelude::*;

use crate::calc::{computes, make_number, math, values, Calc, Math};
use crate::error::{GgufError, Result};
use crate::model::kv_cache::{holds_vector, KvCache};
use crate::model::llama::compute::{
    add_vector, attend_vectors, combine_vectors, decay_vector, gate_heads, gate_vector, norm_heads,
    norm_keys, norm_vector, pack_vector, read_values, recur_vectors, rotate_vector,
    short_conv_vectors, silu_conv_vectors, split_vector, views, write_gate_vector,
};
use crate::model::llama::load::LlamaModel;
use crate::model::llama::meaning::{
    conv_of, delta_of, effect, fails_with, head_norm_name, meaning, memory, numeric, pass_of,
    ready, recalled, row_values, sizes, succeeds, tensor, unpacked, Contents, Pass, Sizes,
};
use crate::model::llama::program::{
    after, forward, run, shapes_of, Buffer, Matrix, Memory, NormRef, Op, Role,
};
use crate::model::llama::state::InferenceState;
use crate::model::llama::steps::forward_steps;
use crate::model::llama::types::{GatedDeltaNet, Mixer, ShortConv};
use crate::quant::{law_decoded_row_holds_the_values, Row};

verus! {

/// A buffer of the pass as a whole.
pub fn buffer_mut(state: &mut InferenceState<u32>, b: Buffer) -> (v: &mut Vec<u32>)
    requires
        numeric(b),
    ensures
        forall|cache: KvCache| #[trigger]
            memory(*old(state), cache)(b) == Contents::Numbers(v@),
        forall|cache: KvCache, c: Buffer|
            (#[trigger] memory(*final(state), cache)(c)) == if c == b {
                Contents::Numbers(final(v)@)
            } else {
                memory(*old(state), cache)(c)
            },
{
    match b {
        Buffer::X => &mut state.x,
        Buffer::Xn => &mut state.xn,
        Buffer::Q => &mut state.q,
        Buffer::K => &mut state.k,
        Buffer::V => &mut state.v,
        Buffer::AttnOut => &mut state.attn_out,
        Buffer::Proj => &mut state.proj,
        Buffer::Gate => &mut state.gate,
        Buffer::Up => &mut state.up,
        Buffer::FfnAct => &mut state.ffn_act,
        Buffer::Logits => &mut state.logits,
        Buffer::Bcx => &mut state.bcx,
        Buffer::Bx => &mut state.bx,
        Buffer::ConvOut => &mut state.conv_out,
        Buffer::QgRaw => &mut state.ga_qg_raw,
        Buffer::QgGate => &mut state.ga_gate,
        Buffer::GdnQkv => &mut state.gdn_qkv,
        Buffer::GdnConv => &mut state.gdn_conv_out,
        Buffer::GdnZ => &mut state.gdn_z,
        Buffer::GdnBeta => &mut state.gdn_beta_raw,
        Buffer::GdnAlpha => &mut state.gdn_alpha_raw,
        _ => &mut state.gdn_out,
    }
}

/// Whether `now` is the memory after an operation, with as much in every buffer as
/// before.
pub open spec fn done(
    model: LlamaModel,
    p: Pass,
    op: Op,
    before: Memory<Contents>,
    now: Memory<Contents>,
) -> bool {
    &&& now == after(meaning(model, p), before, op)
    &&& sizes(now) == sizes(before)
}

proof fn lemma_done(
    model: LlamaModel,
    p: Pass,
    op: Op,
    before: Memory<Contents>,
    now: Memory<Contents>,
)
    requires
        forall|b: Buffer| #[trigger]
            now(b) == if op.writes(b) {
                effect(model, p, op, b, op.reads().map_values(before))
            } else {
                before(b)
            },
        forall|b: Buffer| op.writes(b) ==> (#[trigger] now(b)).size() == before(b).size(),
    ensures
        done(model, p, op, before, now),
{
    assert(now =~= after(meaning(model, p), before, op));
    assert(sizes(now) =~= sizes(before));
}

impl<'a> LlamaModel<'a> {
    /// Whether an operation can be run.
    spec fn can_run(
        &self,
        op: Op,
        token: u32,
        pos: usize,
        state: InferenceState<u32>,
        cache: KvCache,
        m: Math,
    ) -> bool {
        &&& self.weights.wf()
        &&& cache.wf()
        &&& ready(*self, pass_of(m, token, pos, cache), sizes(memory(state, cache)), op)
    }

    /// Embedding lookup → residual stream.
    fn embed<F: Fn(Calc) -> u32>(
        &self,
        token: u32,
        pos: usize,
        state: &mut InferenceState<u32>,
        cache: &KvCache,
        calc: &F,
    ) -> (r: Result<()>)
        requires
            computes(*calc),
            self.can_run(Op::Embed, token, pos, *old(state), *cache, math(*calc)),
        ensures
            ({
                let p = pass_of(math(*calc), token, pos, *cache);
                let before = memory(*old(state), *cache);
                let now = memory(*final(state), *cache);
                match r {
                    Ok(()) => succeeds(*self, p, Op::Embed) && done(
                        *self,
                        p,
                        Op::Embed,
                        before,
                        now,
                    ),
                    Err(e) => {
                        &&& !succeeds(*self, p, Op::Embed)
                        &&& fails_with(*self, p, Op::Embed, e)
                        &&& *final(state) == *old(state)
                    },
                }
            }),
    {
        let ghost p = pass_of(math(*calc), token, pos, *cache);
        let ghost before = memory(*state, *cache);
        proof {
            reveal(ready);
            reveal(effect);
            reveal(succeeds);
            reveal(fails_with);
        }
        let row = self.weights.dequant_row(self.token_embd.as_str(), token as usize)?;
        let embd = read_values(&row, calc);
        let ghost t = tensor(*self, self.token_embd@)->0;
        proof {
            law_decoded_row_holds_the_values(
                t.ggml_type,
                self.weights.bytes().skip(t.row_offset(token as nat) as int),
                t.row_len(),
                row,
            );
            assert(before(Buffer::X).size() == sizes(before)(Buffer::X));
        }
        state.x = embd;
        proof {
            lemma_done(*self, p, Op::Embed, before, memory(*state, *cache));
        }
        Ok(())
    }

    /// RMS norm of the residual stream.
    fn norm<F: Fn(Calc) -> u32>(
        &self,
        norm: NormRef,
        token: u32,
        pos: usize,
        state: &mut InferenceState<u32>,
        cache: &KvCache,
        calc: &F,
    )
        requires
            computes(*calc),
            self.can_run(Op::Norm(norm), token, pos, *old(state), *cache, math(*calc)),
        ensures
            done(
                *self,
                pass_of(math(*calc), token, pos, *cache),
                Op::Norm(norm),
                memory(*old(state), *cache),
                memory(*final(state), *cache),
            ),
    {
        let ghost p = pass_of(math(*calc), token, pos, *cache);
        let ghost before = memory(*state, *cache);
        proof {
            reveal(ready);
            reveal(effect);
            reveal(succeeds);
            reveal(fails_with);
        }
        let w = read_values(self.norm_weights(norm).unwrap(), calc);
        let eps: u32 = make_number(calc, self.cfg.layer_norm_rms_epsilon);
        norm_vector(state.x.as_slice(), w.as_slice(), &mut state.xn, eps, calc);
        proof {
            lemma_done(*self, p, Op::Norm(norm), before, memory(*state, *cache));
        }
    }

    /// Matrix-vector product.
    fn multiply<F: Fn(Calc) -> u32 + Sync>(
        &self,
        matrix: Matrix,
        from: Buffer,
        to: Buffer,
        token: u32,
        pos: usize,
        state: &mut InferenceState<u32>,
        cache: &KvCache,
        calc: &F,
    ) -> (r: Result<()>)
        requires
            computes(*calc),
            self.can_run(Op::MatMul(matrix, from, to), token, pos, *old(state), *cache, math(*calc)),
        ensures
            ({
                let op = Op::MatMul(matrix, from, to);
                let p = pass_of(math(*calc), token, pos, *cache);
                let before = memory(*old(state), *cache);
                let now = memory(*final(state), *cache);
                match r {
                    Ok(()) => succeeds(*self, p, op) && done(*self, p, op, before, now),
                    Err(e) => {
                        &&& !succeeds(*self, p, op)
                        &&& fails_with(*self, p, op, e)
                        &&& now == before
                    },
                }
            }),
    {
        let ghost op = Op::MatMul(matrix, from, to);
        let ghost p = pass_of(math(*calc), token, pos, *cache);
        let ghost before = memory(*state, *cache);
        proof {
            reveal(ready);
            reveal(effect);
            reveal(succeeds);
            reveal(fails_with);
        }
        let name = self.matrix_name(matrix).unwrap();
        proof {
            assert(before(from).size() == sizes(before)(from));
            assert(before(to).size() == sizes(before)(to));
        }
        let mut x: Vec<u32> = Vec::new();
        std::mem::swap(&mut x, buffer_mut(state, from));
        let ghost emptied = memory(*state, *cache);
        proof {
            assert(before(from) == Contents::Numbers(x@));
            assert(emptied(to) == before(to));
        }
        let r = match matrix {
            Matrix::Layer(i, Role::FfnGate) => self.weights.project_into(
                name,
                self.layers[i].ffn_up.as_str(),
                true,
                x.as_slice(),
                buffer_mut(state, to),
                calc,
            ),
            Matrix::Layer(i, Role::FfnUp) => self.weights.project_into(
                self.layers[i].ffn_gate.as_str(),
                name,
                false,
                x.as_slice(),
                buffer_mut(state, to),
                calc,
            ),
            _ => self.weights.multiply_into(
                name,
                x.as_slice(),
                buffer_mut(state, to),
                true,
                calc,
            ),
        };
        let ghost multiplied = memory(*state, *cache);
        std::mem::swap(&mut x, buffer_mut(state, from));
        proof {
            let now = memory(*state, *cache);
            assert(now(from) == before(from));
            assert(now(to) == multiplied(to));
            if r is Ok {
                lemma_done(*self, p, op, before, now);
            } else {
                assert(now =~= before);
            }
        }
        r
    }

    /// The weights of the per-head norm of queries or keys of a layer.
    fn head_norm<F: Fn(Calc) -> u32>(&self, i: usize, queries: bool, calc: &F) -> (r: Result<
        Vec<u32>,
    >)
        requires
            computes(*calc),
            self.weights.wf(),
            crate::model::llama::meaning::head_norm_ready(*self, i, queries),
        ensures
            ({
                let name = head_norm_name(*self, i, queries)->0;
                let len = self.weights.bytes().len();
                match r {
                    Ok(w) => tensor(*self, name) matches Some(t)
                        && crate::model::weights::row_ok(t, len, 0) && w@ == row_values(
                        math(*calc),
                        *self,
                        t,
                        0,
                    ),
                    Err(e) => {
                        &&& !(tensor(*self, name) matches Some(t)
                            && crate::model::weights::row_ok(t, len, 0))
                        &&& crate::model::llama::meaning::row_fails(*self, name, 0, e)
                    },
                }
            }),
    {
        let name: &str = match &self.layers[i].mixer {
            Mixer::Attention(a) => if queries {
                a.q_norm.as_ref().unwrap().as_str()
            } else {
                a.k_norm.as_ref().unwrap().as_str()
            },
            Mixer::GatedAttention(a) => if queries {
                a.q_norm.as_str()
            } else {
                a.k_norm.as_str()
            },
            _ => "",
        };
        proof {
            assert(name@ == head_norm_name(*self, i, queries)->0);
        }
        let row = self.weights.dequant_1d(name)?;
        proof {
            let t = tensor(*self, name@)->0;
            law_decoded_row_holds_the_values(
                t.ggml_type,
                self.weights.bytes().skip(t.row_offset(0) as int),
                t.row_len(),
                row,
            );
        }
        Ok(read_values(&row, calc))
    }

    /// Per-head RMS norm of the queries of a layer.
    fn norm_q<F: Fn(Calc) -> u32>(
        &self,
        i: usize,
        token: u32,
        pos: usize,
        state: &mut InferenceState<u32>,
        cache: &KvCache,
        calc: &F,
    ) -> (r: Result<()>)
        requires
            computes(*calc),
            self.can_run(Op::NormQ(i), token, pos, *old(state), *cache, math(*calc)),
        ensures
            ({
                let p = pass_of(math(*calc), token, pos, *cache);
                let before = memory(*old(state), *cache);
                let now = memory(*final(state), *cache);
                match r {
                    Ok(()) => succeeds(*self, p, Op::NormQ(i)) && done(
                        *self,
                        p,
                        Op::NormQ(i),
                        before,
                        now,
                    ),
                    Err(e) => {
                        &&& !succeeds(*self, p, Op::NormQ(i))
                        &&& fails_with(*self, p, Op::NormQ(i), e)
                        &&& *final(state) == *old(state)
                    },
                }
            }),
    {
        let ghost p = pass_of(math(*calc), token, pos, *cache);
        let ghost before = memory(*state, *cache);
        proof {
            reveal(ready);
            reveal(effect);
            reveal(succeeds);
            reveal(fails_with);
        }
        let w = self.head_norm(i, true, calc)?;
        let eps: u32 = make_number(calc, self.cfg.layer_norm_rms_epsilon);
        proof {
            assert(before(Buffer::Q).size() == sizes(before)(Buffer::Q));
        }
        norm_heads(
            &mut state.q,
            w.as_slice(),
            self.cfg.head_count as usize,
            self.cfg.head_dim as usize,
            eps,
            calc,
        );
        proof {
            lemma_done(*self, p, Op::NormQ(i), before, memory(*state, *cache));
        }
        Ok(())
    }

    /// Per-head RMS norm of the keys of a layer.
    fn norm_k<F: Fn(Calc) -> u32>(
        &self,
        i: usize,
        token: u32,
        pos: usize,
        state: &mut InferenceState<u32>,
        cache: &KvCache,
        calc: &F,
    ) -> (r: Result<()>)
        requires
            computes(*calc),
            self.can_run(Op::NormK(i), token, pos, *old(state), *cache, math(*calc)),
        ensures
            ({
                let p = pass_of(math(*calc), token, pos, *cache);
                let before = memory(*old(state), *cache);
                let now = memory(*final(state), *cache);
                match r {
                    Ok(()) => succeeds(*self, p, Op::NormK(i)) && done(
                        *self,
                        p,
                        Op::NormK(i),
                        before,
                        now,
                    ),
                    Err(e) => {
                        &&& !succeeds(*self, p, Op::NormK(i))
                        &&& fails_with(*self, p, Op::NormK(i), e)
                        &&& *final(state) == *old(state)
                    },
                }
            }),
    {
        let ghost p = pass_of(math(*calc), token, pos, *cache);
        let ghost before = memory(*state, *cache);
        proof {
            reveal(ready);
            reveal(effect);
            reveal(succeeds);
            reveal(fails_with);
        }
        let w = self.head_norm(i, false, calc)?;
        let eps: u32 = make_number(calc, self.cfg.layer_norm_rms_epsilon);
        proof {
            assert(before(Buffer::K).size() == sizes(before)(Buffer::K));
        }
        norm_heads(
            &mut state.k,
            w.as_slice(),
            self.cfg.head_count_kv as usize,
            self.cfg.head_dim as usize,
            eps,
            calc,
        );
        proof {
            lemma_done(*self, p, Op::NormK(i), before, memory(*state, *cache));
        }
        Ok(())
    }

    /// Rotary embedding of the queries.
    fn rotate_q<F: Fn(Calc) -> u32>(
        &self,
        partial: bool,
        token: u32,
        pos: usize,
        state: &mut InferenceState<u32>,
        cache: &KvCache,
        calc: &F,
    )
        requires
            computes(*calc),
            self.can_run(Op::RotateQ(partial), token, pos, *old(state), *cache, math(*calc)),
        ensures
            done(
                *self,
                pass_of(math(*calc), token, pos, *cache),
                Op::RotateQ(partial),
                memory(*old(state), *cache),
                memory(*final(state), *cache),
            ),
    {
        let ghost p = pass_of(math(*calc), token, pos, *cache);
        let ghost before = memory(*state, *cache);
        proof {
            reveal(ready);
            reveal(effect);
            reveal(succeeds);
            reveal(fails_with);
        }
        let theta: u32 = make_number(calc, self.cfg.rope_freq_base);
        let len: usize = self.cfg.head_dim as usize;
        let n_rot: usize = if partial {
            self.n_rot
        } else {
            len
        };
        proof {
            assert(before(Buffer::Q).size() == sizes(before)(Buffer::Q));
        }
        rotate_vector(&mut state.q, self.cfg.head_count as usize, len, n_rot, pos, theta, calc);
        proof {
            lemma_done(*self, p, Op::RotateQ(partial), before, memory(*state, *cache));
        }
    }

    /// Rotary embedding of the keys.
    fn rotate_k<F: Fn(Calc) -> u32>(
        &self,
        partial: bool,
        token: u32,
        pos: usize,
        state: &mut InferenceState<u32>,
        cache: &KvCache,
        calc: &F,
    )
        requires
            computes(*calc),
            self.can_run(Op::RotateK(partial), token, pos, *old(state), *cache, math(*calc)),
        ensures
            done(
                *self,
                pass_of(math(*calc), token, pos, *cache),
                Op::RotateK(partial),
                memory(*old(state), *cache),
                memory(*final(state), *cache),
            ),
    {
        let ghost p = pass_of(math(*calc), token, pos, *cache);
        let ghost before = memory(*state, *cache);
        proof {
            reveal(ready);
            reveal(effect);
            reveal(succeeds);
            reveal(fails_with);
        }
        let theta: u32 = make_number(calc, self.cfg.rope_freq_base);
        let len: usize = self.cfg.head_dim as usize;
        let n_rot: usize = if partial {
            self.n_rot
        } else {
            len
        };
        proof {
            assert(before(Buffer::K).size() == sizes(before)(Buffer::K));
        }
        rotate_vector(&mut state.k, self.cfg.head_count_kv as usize, len, n_rot, pos, theta, calc);
        proof {
            lemma_done(*self, p, Op::RotateK(partial), before, memory(*state, *cache));
        }
    }

    /// The queries and their gate are taken from the fused projection.
    fn split<F: Fn(Calc) -> u32>(
        &self,
        token: u32,
        pos: usize,
        state: &mut InferenceState<u32>,
        cache: &KvCache,
        calc: &F,
    )
        requires
            computes(*calc),
            self.can_run(Op::SplitQg, token, pos, *old(state), *cache, math(*calc)),
        ensures
            done(
                *self,
                pass_of(math(*calc), token, pos, *cache),
                Op::SplitQg,
                memory(*old(state), *cache),
                memory(*final(state), *cache),
            ),
    {
        let ghost p = pass_of(math(*calc), token, pos, *cache);
        let ghost before = memory(*state, *cache);
        proof {
            reveal(ready);
            reveal(effect);
            reveal(succeeds);
            reveal(fails_with);
        }
        proof {
            assert(before(Buffer::Q).size() == sizes(before)(Buffer::Q));
            assert(before(Buffer::QgRaw).size() == sizes(before)(Buffer::QgRaw));
            assert(before(Buffer::QgGate).size() == sizes(before)(Buffer::QgGate));
        }
        split_vector(
            state.ga_qg_raw.as_slice(),
            &mut state.q,
            &mut state.ga_gate,
            self.cfg.head_count as usize,
            self.cfg.head_dim as usize,
        );
        proof {
            lemma_done(*self, p, Op::SplitQg, before, memory(*state, *cache));
        }
    }

    /// The attention output is gated.
    fn gate<F: Fn(Calc) -> u32>(
        &self,
        token: u32,
        pos: usize,
        state: &mut InferenceState<u32>,
        cache: &KvCache,
        calc: &F,
    )
        requires
            computes(*calc),
            self.can_run(Op::GateAttn, token, pos, *old(state), *cache, math(*calc)),
        ensures
            done(
                *self,
                pass_of(math(*calc), token, pos, *cache),
                Op::GateAttn,
                memory(*old(state), *cache),
                memory(*final(state), *cache),
            ),
    {
        let ghost p = pass_of(math(*calc), token, pos, *cache);
        let ghost before = memory(*state, *cache);
        proof {
            reveal(ready);
            reveal(effect);
            reveal(succeeds);
            reveal(fails_with);
        }
        proof {
            assert(before(Buffer::AttnOut).size() == sizes(before)(Buffer::AttnOut));
            assert(before(Buffer::QgGate).size() == sizes(before)(Buffer::QgGate));
        }
        gate_vector(&mut state.attn_out, state.ga_gate.as_slice(), calc);
        proof {
            lemma_done(*self, p, Op::GateAttn, before, memory(*state, *cache));
        }
    }

    /// SwiGLU combination of the two feed-forward projections of a layer.
    fn combine<F: Fn(Calc) -> u32>(
        &self,
        i: usize,
        token: u32,
        pos: usize,
        state: &mut InferenceState<u32>,
        cache: &KvCache,
        calc: &F,
    )
        requires
            computes(*calc),
            self.can_run(Op::SiluMul(i), token, pos, *old(state), *cache, math(*calc)),
        ensures
            done(
                *self,
                pass_of(math(*calc), token, pos, *cache),
                Op::SiluMul(i),
                memory(*old(state), *cache),
                memory(*final(state), *cache),
            ),
    {
        let ghost p = pass_of(math(*calc), token, pos, *cache);
        let ghost before = memory(*state, *cache);
        proof {
            reveal(ready);
            reveal(effect);
            reveal(succeeds);
            reveal(fails_with);
        }
        proof {
            assert(before(Buffer::Gate).size() == sizes(before)(Buffer::Gate));
            assert(before(Buffer::Up).size() == sizes(before)(Buffer::Up));
            assert(before(Buffer::FfnAct).size() == sizes(before)(Buffer::FfnAct));
        }
        let gate = self.weights.get(self.layers[i].ffn_gate.as_str()).unwrap();
        proof {
            assert(state.gate@.len() == state.gate.len());
        }
        let rows: usize = gate.dims[1] as usize;
        combine_vectors(
            rows,
            state.gate.as_slice(),
            state.up.as_slice(),
            &mut state.ffn_act,
            calc,
        );
        proof {
            lemma_done(*self, p, Op::SiluMul(i), before, memory(*state, *cache));
        }
    }

    /// The projection is added to the residual stream.
    fn add_residual<F: Fn(Calc) -> u32>(
        &self,
        token: u32,
        pos: usize,
        state: &mut InferenceState<u32>,
        cache: &KvCache,
        calc: &F,
    )
        requires
            computes(*calc),
            self.can_run(Op::AddResidual, token, pos, *old(state), *cache, math(*calc)),
        ensures
            done(
                *self,
                pass_of(math(*calc), token, pos, *cache),
                Op::AddResidual,
                memory(*old(state), *cache),
                memory(*final(state), *cache),
            ),
    {
        let ghost p = pass_of(math(*calc), token, pos, *cache);
        let ghost before = memory(*state, *cache);
        proof {
            reveal(ready);
            reveal(effect);
            reveal(succeeds);
            reveal(fails_with);
        }
        proof {
            assert(before(Buffer::X).size() == sizes(before)(Buffer::X));
            assert(before(Buffer::Proj).size() == sizes(before)(Buffer::Proj));
        }
        add_vector(&mut state.x, state.proj.as_slice(), calc);
        proof {
            lemma_done(*self, p, Op::AddResidual, before, memory(*state, *cache));
        }
    }

    /// Attention over the cache of a layer.
    fn attend_cache<F: Fn(Calc) -> u32>(
        &self,
        i: usize,
        token: u32,
        pos: usize,
        state: &mut InferenceState<u32>,
        cache: &KvCache,
        calc: &F,
    )
        requires
            computes(*calc),
            self.can_run(Op::Attend(i), token, pos, *old(state), *cache, math(*calc)),
        ensures
            done(
                *self,
                pass_of(math(*calc), token, pos, *cache),
                Op::Attend(i),
                memory(*old(state), *cache),
                memory(*final(state), *cache),
            ),
    {
        let ghost p = pass_of(math(*calc), token, pos, *cache);
        let ghost before = memory(*state, *cache);
        proof {
            reveal(ready);
            reveal(effect);
            reveal(succeeds);
            reveal(fails_with);
        }
        proof {
            assert(before(Buffer::Q).size() == sizes(before)(Buffer::Q));
            assert(before(Buffer::AttnOut).size() == sizes(before)(Buffer::AttnOut));
        }
        let (ks, vs) = cache.read_up_to(i, pos);
        let keys = read_rows(&ks, calc);
        let vals = read_rows(&vs, calc);
        let heads: usize = self.cfg.head_count as usize;
        let kv_heads: usize = self.cfg.head_count_kv as usize;
        let len: usize = self.cfg.head_dim as usize;
        let group: usize = self.cfg.gqa_group_size() as usize;
        proof {
            let c = cache@;
            assert forall|t: int| 0 <= t <= pos implies (#[trigger] ks@[t]).elements() == unpacked(
                c.dtype,
                c.k_at(i as int, t),
                c.head_dim_kv,
            ) by {
                assert(holds_vector(c.dtype, c.k_at(i as int, t), c.head_dim_kv, ks@[t]));
            }
            assert forall|t: int| 0 <= t <= pos implies (#[trigger] vs@[t]).elements() == unpacked(
                c.dtype,
                c.v_at(i as int, t),
                c.head_dim_kv,
            ) by {
                assert(holds_vector(c.dtype, c.v_at(i as int, t), c.head_dim_kv, vs@[t]));
            }
            assert(views(keys@) =~= recalled(p, c.k[i as int]));
            assert(views(vals@) =~= recalled(p, c.v[i as int]));
            assert forall|t: int| 0 <= t < keys@.len() implies (#[trigger] keys@[t])@.len()
                == kv_heads * len by {
                assert(keys@[t]@ == views(keys@)[t]);
            }
            assert forall|t: int| 0 <= t < vals@.len() implies (#[trigger] vals@[t])@.len()
                == kv_heads * len by {
                assert(vals@[t]@ == views(vals@)[t]);
            }
        }
        attend_vectors(
            state.q.as_slice(),
            &keys,
            &vals,
            &mut state.attn_out,
            heads,
            kv_heads,
            group,
            len,
            calc,
        );
        proof {
            lemma_done(*self, p, Op::Attend(i), before, memory(*state, *cache));
        }
    }

    /// Gate and convolution of a short-conv layer.
    fn convolve_short<F: Fn(Calc) -> u32>(
        &self,
        i: usize,
        token: u32,
        pos: usize,
        state: &mut InferenceState<u32>,
        cache: &KvCache,
        calc: &F,
    )
        requires
            computes(*calc),
            self.can_run(Op::ShortConv(i), token, pos, *old(state), *cache, math(*calc)),
        ensures
            done(
                *self,
                pass_of(math(*calc), token, pos, *cache),
                Op::ShortConv(i),
                memory(*old(state), *cache),
                memory(*final(state), *cache),
            ),
    {
        let ghost p = pass_of(math(*calc), token, pos, *cache);
        let ghost before = memory(*state, *cache);
        proof {
            reveal(ready);
            reveal(effect);
            reveal(succeeds);
            reveal(fails_with);
        }
        proof {
            assert(before(Buffer::Bcx).size() == sizes(before)(Buffer::Bcx));
            assert(before(Buffer::Bx).size() == sizes(before)(Buffer::Bx));
            assert(before(Buffer::ConvOut).size() == sizes(before)(Buffer::ConvOut));
            assert(before(Buffer::ConvHistory(i)).size() == sizes(before)(Buffer::ConvHistory(i)));
        }
        let weight = match &self.layers[i].mixer {
            Mixer::ShortConv(c) => read_values(&c.conv_weight, calc),
            _ => Vec::new(),
        };
        proof {
            assert(weight@ == values(
                math(*calc),
                (conv_of(*self, i)->0).conv_weight.elements(),
            ));
            assert(i < state.conv_state@.len() || before(Buffer::ConvHistory(i)).size() == 0);
        }
        let d: usize = self.cfg.embedding_length as usize;
        let mut history: Vec<u32> = Vec::new();
        if i < state.conv_state.len() {
            std::mem::swap(&mut history, &mut state.conv_state[i]);
        }
        short_conv_vectors(
            &mut history,
            weight.as_slice(),
            d,
            self.l_cache,
            state.bcx.as_slice(),
            &mut state.bx,
            &mut state.conv_out,
            calc,
        );
        if i < state.conv_state.len() {
            std::mem::swap(&mut history, &mut state.conv_state[i]);
        }
        proof {
            let now = memory(*state, *cache);
            let input = crate::model::llama::meaning::gate_input(math(*calc), before(Buffer::Bcx).numbers(), d as int);
            assert(crate::model::llama::conv::advanced(Seq::<u32>::empty(), input) =~= Seq::<u32>::empty());
            assert forall|b: Buffer| #[trigger] now(b) == if Op::ShortConv(i).writes(b) {
                effect(*self, p, Op::ShortConv(i), b, Op::ShortConv(i).reads().map_values(before))
            } else {
                before(b)
            } by {}
            lemma_done(*self, p, Op::ShortConv(i), before, now);
        }
    }

    /// Write gate and decay of a Gated DeltaNet layer.
    fn gate_decay<F: Fn(Calc) -> u32>(
        &self,
        i: usize,
        token: u32,
        pos: usize,
        state: &mut InferenceState<u32>,
        cache: &KvCache,
        calc: &F,
    )
        requires
            computes(*calc),
            self.can_run(Op::GateDecay(i), token, pos, *old(state), *cache, math(*calc)),
        ensures
            done(
                *self,
                pass_of(math(*calc), token, pos, *cache),
                Op::GateDecay(i),
                memory(*old(state), *cache),
                memory(*final(state), *cache),
            ),
    {
        let ghost p = pass_of(math(*calc), token, pos, *cache);
        let ghost before = memory(*state, *cache);
        proof {
            reveal(ready);
            reveal(effect);
            reveal(succeeds);
            reveal(fails_with);
        }
        proof {
            assert(before(Buffer::GdnBeta).size() == sizes(before)(Buffer::GdnBeta));
            assert(before(Buffer::GdnAlpha).size() == sizes(before)(Buffer::GdnAlpha));
        }
        if let Mixer::GatedDeltaNet(g) = &self.layers[i].mixer {
            let bias = read_values(&g.ssm_dt_bias, calc);
            let a = read_values(&g.ssm_a, calc);
            state.gdn_beta_raw = write_gate_vector(state.gdn_beta_raw.as_slice(), calc);
            state.gdn_alpha_raw = decay_vector(
                state.gdn_alpha_raw.as_slice(),
                bias.as_slice(),
                a.as_slice(),
                calc,
            );
        }
        proof {
            lemma_done(*self, p, Op::GateDecay(i), before, memory(*state, *cache));
        }
    }

    /// Convolution of a Gated DeltaNet layer.
    fn convolve_delta<F: Fn(Calc) -> u32>(
        &self,
        i: usize,
        token: u32,
        pos: usize,
        state: &mut InferenceState<u32>,
        cache: &KvCache,
        calc: &F,
    )
        requires
            computes(*calc),
            self.can_run(Op::GdnConv(i), token, pos, *old(state), *cache, math(*calc)),
        ensures
            done(
                *self,
                pass_of(math(*calc), token, pos, *cache),
                Op::GdnConv(i),
                memory(*old(state), *cache),
                memory(*final(state), *cache),
            ),
    {
        let ghost p = pass_of(math(*calc), token, pos, *cache);
        let ghost before = memory(*state, *cache);
        proof {
            reveal(ready);
            reveal(effect);
            reveal(succeeds);
            reveal(fails_with);
        }
        proof {
            assert(before(Buffer::GdnQkv).size() == sizes(before)(Buffer::GdnQkv));
            assert(before(Buffer::GdnConv).size() == sizes(before)(Buffer::GdnConv));
            assert(before(Buffer::GdnHistory(i)).size() == sizes(before)(Buffer::GdnHistory(i)));
        }
        let dims = self.gdn_dims.unwrap();
        let weight = match &self.layers[i].mixer {
            Mixer::GatedDeltaNet(g) => read_values(&g.conv_weight, calc),
            _ => Vec::new(),
        };
        proof {
            assert(weight@ == values(
                math(*calc),
                (delta_of(*self, i)->0).conv_weight.elements(),
            ));
        }
        let mut history: Vec<u32> = Vec::new();
        if i < state.gdn_conv_state.len() {
            std::mem::swap(&mut history, &mut state.gdn_conv_state[i]);
        }
        silu_conv_vectors(
            &mut history,
            weight.as_slice(),
            &dims,
            state.gdn_qkv.as_slice(),
            &mut state.gdn_conv_out,
            calc,
        );
        if i < state.gdn_conv_state.len() {
            std::mem::swap(&mut history, &mut state.gdn_conv_state[i]);
        }
        proof {
            let now = memory(*state, *cache);
            let input = before(Buffer::GdnQkv).numbers();
            assert(crate::model::llama::conv::advanced(Seq::<u32>::empty(), input) =~= Seq::<u32>::empty());
            assert forall|b: Buffer| #[trigger] now(b) == if Op::GdnConv(i).writes(b) {
                effect(*self, p, Op::GdnConv(i), b, Op::GdnConv(i).reads().map_values(before))
            } else {
                before(b)
            } by {}
            lemma_done(*self, p, Op::GdnConv(i), before, now);
        }
    }

    /// Normalization of queries and keys of a Gated DeltaNet layer.
    fn norm_delta_keys<F: Fn(Calc) -> u32>(
        &self,
        token: u32,
        pos: usize,
        state: &mut InferenceState<u32>,
        cache: &KvCache,
        calc: &F,
    )
        requires
            computes(*calc),
            self.can_run(Op::L2Norm, token, pos, *old(state), *cache, math(*calc)),
        ensures
            done(
                *self,
                pass_of(math(*calc), token, pos, *cache),
                Op::L2Norm,
                memory(*old(state), *cache),
                memory(*final(state), *cache),
            ),
    {
        let ghost p = pass_of(math(*calc), token, pos, *cache);
        let ghost before = memory(*state, *cache);
        proof {
            reveal(ready);
            reveal(effect);
            reveal(succeeds);
            reveal(fails_with);
        }
        proof {
            assert(before(Buffer::GdnConv).size() == sizes(before)(Buffer::GdnConv));
        }
        let dims = self.gdn_dims.unwrap();
        let eps: u32 = make_number(calc, self.cfg.layer_norm_rms_epsilon);
        norm_keys(&mut state.gdn_conv_out, &dims, eps, calc);
        proof {
            lemma_done(*self, p, Op::L2Norm, before, memory(*state, *cache));
        }
    }

    /// Delta-rule recurrence of a Gated DeltaNet layer.
    fn recur<F: Fn(Calc) -> u32>(
        &self,
        i: usize,
        token: u32,
        pos: usize,
        state: &mut InferenceState<u32>,
        cache: &KvCache,
        calc: &F,
    )
        requires
            computes(*calc),
            self.can_run(Op::Recur(i), token, pos, *old(state), *cache, math(*calc)),
        ensures
            done(
                *self,
                pass_of(math(*calc), token, pos, *cache),
                Op::Recur(i),
                memory(*old(state), *cache),
                memory(*final(state), *cache),
            ),
    {
        let ghost p = pass_of(math(*calc), token, pos, *cache);
        let ghost before = memory(*state, *cache);
        proof {
            reveal(ready);
            reveal(effect);
            reveal(succeeds);
            reveal(fails_with);
        }
        proof {
            assert(before(Buffer::GdnConv).size() == sizes(before)(Buffer::GdnConv));
            assert(before(Buffer::GdnBeta).size() == sizes(before)(Buffer::GdnBeta));
            assert(before(Buffer::GdnAlpha).size() == sizes(before)(Buffer::GdnAlpha));
            assert(before(Buffer::GdnOut).size() == sizes(before)(Buffer::GdnOut));
            assert(before(Buffer::GdnState(i)).size() == sizes(before)(Buffer::GdnState(i)));
        }
        let dims = self.gdn_dims.unwrap();
        let mut memory_of_layer: Vec<u32> = Vec::new();
        if i < state.gdn_recurrent_state.len() {
            std::mem::swap(&mut memory_of_layer, &mut state.gdn_recurrent_state[i]);
        }
        recur_vectors(
            &mut memory_of_layer,
            state.gdn_conv_out.as_slice(),
            state.gdn_beta_raw.as_slice(),
            state.gdn_alpha_raw.as_slice(),
            &mut state.gdn_out,
            &dims,
            calc,
        );
        if i < state.gdn_recurrent_state.len() {
            std::mem::swap(&mut memory_of_layer, &mut state.gdn_recurrent_state[i]);
        }
        proof {
            let now = memory(*state, *cache);
            if before(Buffer::GdnState(i)).size() == 0 {
                assert(memory_of_layer@ =~= Seq::<u32>::empty());
            }
            assert forall|b: Buffer| #[trigger] now(b) == if Op::Recur(i).writes(b) {
                effect(*self, p, Op::Recur(i), b, Op::Recur(i).reads().map_values(before))
            } else {
                before(b)
            } by {}
            lemma_done(*self, p, Op::Recur(i), before, now);
        }
    }

    /// Gated norm of the output of a Gated DeltaNet layer.
    fn norm_delta_output<F: Fn(Calc) -> u32>(
        &self,
        i: usize,
        token: u32,
        pos: usize,
        state: &mut InferenceState<u32>,
        cache: &KvCache,
        calc: &F,
    )
        requires
            computes(*calc),
            self.can_run(Op::GatedNorm(i), token, pos, *old(state), *cache, math(*calc)),
        ensures
            done(
                *self,
                pass_of(math(*calc), token, pos, *cache),
                Op::GatedNorm(i),
                memory(*old(state), *cache),
                memory(*final(state), *cache),
            ),
    {
        let ghost p = pass_of(math(*calc), token, pos, *cache);
        let ghost before = memory(*state, *cache);
        proof {
            reveal(ready);
            reveal(effect);
            reveal(succeeds);
            reveal(fails_with);
        }
        proof {
            assert(before(Buffer::GdnOut).size() == sizes(before)(Buffer::GdnOut));
            assert(before(Buffer::GdnZ).size() == sizes(before)(Buffer::GdnZ));
        }
        let dims = self.gdn_dims.unwrap();
        let w = match &self.layers[i].mixer {
            Mixer::GatedDeltaNet(g) => read_values(&g.ssm_norm, calc),
            _ => Vec::new(),
        };
        proof {
            assert(w@ == values(math(*calc), (delta_of(*self, i)->0).ssm_norm.elements()));
            assert(dims.n_v_heads * dims.head_v_dim == dims.value_dim) by (nonlinear_arith)
                requires
                    dims.value_dim == dims.head_v_dim * dims.n_v_heads,
            ;
        }
        let eps: u32 = make_number(calc, self.cfg.layer_norm_rms_epsilon);
        gate_heads(
            &mut state.gdn_out,
            w.as_slice(),
            state.gdn_z.as_slice(),
            dims.n_v_heads,
            dims.head_v_dim,
            eps,
            calc,
        );
        proof {
            lemma_done(*self, p, Op::GatedNorm(i), before, memory(*state, *cache));
        }
    }

    /// The keys and values of this position go into the cache of a layer.
    fn write_cache<F: Fn(Calc) -> u32>(
        &self,
        i: usize,
        token: u32,
        pos: usize,
        state: &InferenceState<u32>,
        cache: &mut KvCache,
        calc: &F,
    )
        requires
            computes(*calc),
            self.can_run(Op::CacheWrite(i), token, pos, *state, *old(cache), math(*calc)),
        ensures
            final(cache).wf(),
            pass_of(math(*calc), token, pos, *final(cache)) == pass_of(
                math(*calc),
                token,
                pos,
                *old(cache),
            ),
            done(
                *self,
                pass_of(math(*calc), token, pos, *old(cache)),
                Op::CacheWrite(i),
                memory(*state, *old(cache)),
                memory(*state, *final(cache)),
            ),
    {
        let ghost p = pass_of(math(*calc), token, pos, *cache);
        let ghost before = memory(*state, *cache);
        proof {
            reveal(ready);
            reveal(effect);
            reveal(succeeds);
            reveal(fails_with);
        }
        proof {
            assert(before(Buffer::K).size() == sizes(before)(Buffer::K));
            assert(before(Buffer::V).size() == sizes(before)(Buffer::V));
        }
        let dtype = cache.dtype();
        let k = pack_vector(dtype, state.k.as_slice(), calc);
        let v = pack_vector(dtype, state.v.as_slice(), calc);
        proof {
            cache.lemma_layers();
        }
        cache.write(i, pos, &k, &v);
        proof {
            lemma_done(*self, p, Op::CacheWrite(i), before, memory(*state, *cache));
        }
    }
}

/// The values of rows.
fn read_rows<F: Fn(Calc) -> u32>(rows: &Vec<Row>, calc: &F) -> (out: Vec<Vec<u32>>)
    requires
        computes(*calc),
    ensures
        out@.len() == rows@.len(),
        forall|t: int|
            0 <= t < rows@.len() ==> (#[trigger] out@[t])@ == values(
                math(*calc),
                rows@[t].elements(),
            ),
{
    let mut out: Vec<Vec<u32>> = Vec::new();
    let mut t: usize = 0;
    while t < rows.len()
        invariant
            t <= rows@.len(),
            computes(*calc),
            out@.len() == t,
            forall|k: int|
                0 <= k < t ==> (#[trigger] out@[k])@ == values(math(*calc), rows@[k].elements()),
        decreases rows@.len() - t,
    {
        out.push(read_values(&rows[t], calc));
        t += 1;
    }
    out
}

impl<'a> LlamaModel<'a> {
    /// Runs one operation of a forward pass.
    pub fn step<F: Fn(Calc) -> u32 + Sync>(
        &self,
        op: Op,
        token: u32,
        pos: usize,
        state: &mut InferenceState<u32>,
        cache: &mut KvCache,
        calc: &F,
    ) -> (r: Result<()>)
        requires
            computes(*calc),
            self.weights.wf(),
            old(cache).wf(),
            ready(
                *self,
                pass_of(math(*calc), token, pos, *old(cache)),
                sizes(memory(*old(state), *old(cache))),
                op,
            ),
        ensures
            final(cache).wf(),
            pass_of(math(*calc), token, pos, *final(cache)) == pass_of(
                math(*calc),
                token,
                pos,
                *old(cache),
            ),
            ({
                let p = pass_of(math(*calc), token, pos, *old(cache));
                let before = memory(*old(state), *old(cache));
                let now = memory(*final(state), *final(cache));
                match r {
                    Ok(()) => succeeds(*self, p, op) && done(*self, p, op, before, now),
                    Err(e) => {
                        &&& !succeeds(*self, p, op)
                        &&& fails_with(*self, p, op, e)
                        &&& now == before
                    },
                }
            }),
    {
        proof {
            reveal(succeeds);
        }
        match op {
            Op::Embed => {
                return self.embed(token, pos, state, cache, calc);
            },
            Op::MatMul(matrix, from, to) => {
                return self.multiply(matrix, from, to, token, pos, state, cache, calc);
            },
            Op::NormQ(i) => {
                return self.norm_q(i, token, pos, state, cache, calc);
            },
            Op::NormK(i) => {
                return self.norm_k(i, token, pos, state, cache, calc);
            },
            Op::Norm(norm) => self.norm(norm, token, pos, state, cache, calc),
            Op::RotateQ(partial) => self.rotate_q(partial, token, pos, state, cache, calc),
            Op::RotateK(partial) => self.rotate_k(partial, token, pos, state, cache, calc),
            Op::CacheWrite(i) => self.write_cache(i, token, pos, state, cache, calc),
            Op::Attend(i) => self.attend_cache(i, token, pos, state, cache, calc),
            Op::SplitQg => self.split(token, pos, state, cache, calc),
            Op::GateAttn => self.gate(token, pos, state, cache, calc),
            Op::ShortConv(i) => self.convolve_short(i, token, pos, state, cache, calc),
            Op::GateDecay(i) => self.gate_decay(i, token, pos, state, cache, calc),
            Op::GdnConv(i) => self.convolve_delta(i, token, pos, state, cache, calc),
            Op::L2Norm => self.norm_delta_keys(token, pos, state, cache, calc),
            Op::Recur(i) => self.recur(i, token, pos, state, cache, calc),
            Op::GatedNorm(i) => self.norm_delta_output(i, token, pos, state, cache, calc),
            Op::SiluMul(i) => self.combine(i, token, pos, state, cache, calc),
            Op::AddResidual => self.add_residual(token, pos, state, cache, calc),
        }
        Ok(())
    }

    /// Whether a pass comes to its operation `k`: those before it succeed.
    pub open spec fn comes_to(&self, p: Pass, k: int) -> bool {
        forall|j: int|
            0 <= j < k ==> succeeds(*self, p, #[trigger] forward(shapes_of(self.layers@))[j])
    }

    /// Whether a pass is defined: every operation that it comes to is.
    pub open spec fn pass_ready(&self, p: Pass, n: Sizes) -> bool {
        forall|k: int|
            0 <= k < forward(shapes_of(self.layers@)).len() && self.comes_to(p, k) ==> ready(
                *self,
                p,
                n,
                #[trigger] forward(shapes_of(self.layers@))[k],
            )
    }

    /// Whether every operation of a pass succeeds.
    pub open spec fn pass_succeeds(&self, p: Pass) -> bool {
        forall|k: int|
            0 <= k < forward(shapes_of(self.layers@)).len() ==> succeeds(
                *self,
                p,
                #[trigger] forward(shapes_of(self.layers@))[k],
            )
    }

    /// The memory after a pass.
    pub open spec fn passed(&self, p: Pass, before: Memory<Contents>) -> Memory<Contents> {
        run(meaning(*self, p), before, forward(shapes_of(self.layers@)))
    }

    /// Whether a pass ends at operation `k` with the error `e`: those before it
    /// succeed, and the memory is as they leave it.
    pub open spec fn stops_at(
        &self,
        p: Pass,
        before: Memory<Contents>,
        k: int,
        e: GgufError,
        now: Memory<Contents>,
    ) -> bool {
        let ops = forward(shapes_of(self.layers@));
        &&& 0 <= k < ops.len()
        &&& forall|j: int| 0 <= j < k ==> succeeds(*self, p, #[trigger] ops[j])
        &&& !succeeds(*self, p, ops[k])
        &&& fails_with(*self, p, ops[k], e)
        &&& now == run(meaning(*self, p), before, ops.take(k))
    }

    /// Forward pass for one token against pre-allocated `state` buffers. K/V are
    /// written to the cache; returns the logits.
    pub fn run<F: Fn(Calc) -> u32 + Sync>(
        &self,
        token: u32,
        pos: usize,
        cache: &mut KvCache,
        state: &mut InferenceState<u32>,
        calc: &F,
    ) -> (r: Result<Vec<u32>>)
        requires
            computes(*calc),
            self.weights.wf(),
            old(cache).wf(),
            self.pass_ready(
                pass_of(math(*calc), token, pos, *old(cache)),
                sizes(memory(*old(state), *old(cache))),
            ),
        ensures
            final(cache).wf(),
            pass_of(math(*calc), token, pos, *final(cache)) == pass_of(
                math(*calc),
                token,
                pos,
                *old(cache),
            ),
            sizes(memory(*final(state), *final(cache))) == sizes(memory(*old(state), *old(cache))),
            ({
                let p = pass_of(math(*calc), token, pos, *old(cache));
                let before = memory(*old(state), *old(cache));
                let now = memory(*final(state), *final(cache));
                match r {
                    Ok(logits) => {
                        &&& self.pass_succeeds(p)
                        &&& now == self.passed(p, before)
                        &&& now(Buffer::Logits) == Contents::Numbers(logits@)
                    },
                    Err(e) => {
                        &&& !self.pass_succeeds(p)
                        &&& exists|k: int| #[trigger] self.stops_at(p, before, k, e, now)
                    },
                }
            }),
    {
        let steps = forward_steps(self.layers.as_slice());
        let ghost p = pass_of(math(*calc), token, pos, *cache);
        let ghost f = meaning(*self, p);
        let ghost before = memory(*state, *cache);
        let ghost n = sizes(before);
        let ghost ops = forward(shapes_of(self.layers@));
        let mut k: usize = 0;
        proof {
            assert(ops.take(0).len() == 0);
        }
        while k < steps.len()
            invariant
                k <= steps@.len(),
                steps@ == ops,
                ops == forward(shapes_of(self.layers@)),
                f == meaning(*self, p),
                computes(*calc),
                self.weights.wf(),
                cache.wf(),
                p == pass_of(math(*calc), token, pos, *old(cache)),
                p == pass_of(math(*calc), token, pos, *cache),
                before == memory(*old(state), *old(cache)),
                n == sizes(before),
                self.pass_ready(p, n),
                sizes(memory(*state, *cache)) == n,
                memory(*state, *cache) == run(f, before, ops.take(k as int)),
                forall|j: int| 0 <= j < k ==> succeeds(*self, p, #[trigger] ops[j]),
            decreases steps@.len() - k,
        {
            proof {
                assert(self.comes_to(p, k as int));
                assert(ready(*self, p, n, ops[k as int]));
                assert(ops.take(k + 1).drop_last() =~= ops.take(k as int));
                assert(ops.take(k + 1).last() == ops[k as int]);
            }
            match self.step(steps[k], token, pos, state, cache, calc) {
                Ok(()) => {},
                Err(e) => {
                    proof {
                        assert(self.stops_at(p, before, k as int, e, memory(*state, *cache)));
                    }
                    return Err(e);
                },
            }
            k += 1;
        }
        proof {
            assert(ops.take(k as int) =~= ops);
        }
        Ok(copy_numbers(state.logits.as_slice()))
    }
}

/// A copy of numbers.
fn copy_numbers(x: &[u32]) -> (out: Vec<u32>)
    ensures
        out@ == x@,
{
    let mut out: Vec<u32> = Vec::new();
    let mut i: usize = 0;
    while i < x.len()
        invariant
            i <= x@.len(),
            out@ == x@.take(i as int),
        decreases x@.len() - i,
    {
        out.push(x[i]);
        proof {
            assert(out@ =~= x@.take(i + 1));
        }
        i += 1;
    }
    proof {
        assert(out@ =~= x@);
    }
    out
}

/// Whether two caches have one shape.
pub open spec fn same_shape(a: KvCache, b: KvCache) -> bool {
    &&& a@.dtype == b@.dtype
    &&& a@.k.len() == b@.k.len()
    &&& a@.max_seq_len == b@.max_seq_len
    &&& a@.head_dim_kv == b@.head_dim_kv
}

/// The pass for token `i` of a batch.
pub open spec fn pass_at(m: Math, tokens: Seq<u32>, pos: usize, cache: KvCache, i: int) -> Pass {
    pass_of(m, tokens[i], (pos + i) as usize, cache)
}

/// What can be foreseen of a forward pass from the tensors and the sizes of the buffers.
#[derive(Debug, Clone, Copy, PartialEq, Eq, Structural)]
pub enum Foreseen {
    /// It comes to an operation that is not defined.
    Undefined,
    /// It ends with an error.
    Fails,
    /// It gives logits.
    Succeeds,
}

/// What a forward pass or a batch of them gives: nothing where it is not defined, the
/// logits, or an error.
pub enum Outcome {
    Undefined,
    Logits(Seq<u32>),
    Fails(GgufError),
}

/// The outcome that a result stands for.
pub open spec fn outcome(r: Option<Result<Vec<u32>>>) -> Outcome {
    match r {
        None => Outcome::Undefined,
        Some(Ok(logits)) => Outcome::Logits(logits@),
        Some(Err(e)) => Outcome::Fails(e),
    }
}

impl<'a> LlamaModel<'a> {
    /// Whether `f` is what can be foreseen of a pass.
    pub open spec fn foreseen(&self, p: Pass, n: Sizes, f: Foreseen) -> bool {
        match f {
            Foreseen::Undefined => !self.pass_ready(p, n),
            Foreseen::Fails => self.pass_ready(p, n) && !self.pass_succeeds(p),
            Foreseen::Succeeds => self.pass_ready(p, n) && self.pass_succeeds(p),
        }
    }

    /// Whether the pass `p` on the memory `before` gives the outcome `r` and leaves the
    /// memory `now`.
    pub open spec fn forward_gives(
        &self,
        p: Pass,
        before: Memory<Contents>,
        r: Outcome,
        now: Memory<Contents>,
    ) -> bool {
        match r {
            Outcome::Undefined => !self.pass_ready(p, sizes(before)) && now == before,
            Outcome::Logits(logits) => {
                &&& self.pass_ready(p, sizes(before))
                &&& self.pass_succeeds(p)
                &&& now == self.passed(p, before)
                &&& now(Buffer::Logits) == Contents::Numbers(logits)
            },
            Outcome::Fails(e) => {
                &&& self.pass_ready(p, sizes(before))
                &&& !self.pass_succeeds(p)
                &&& exists|k: int| #[trigger] self.stops_at(p, before, k, e, now)
            },
        }
    }

    /// Forward pass for a single token at the given position, or nothing where it comes
    /// to an operation that is not defined: a tensor does not have the shape that goes
    /// with the model, or the position lies past the end of the context or of the
    /// cache. An error on the way there is returned as such. K/V are written to the
    /// cache; returns the logits.
    pub fn forward<F: Fn(Calc) -> u32 + Sync>(
        &self,
        token: u32,
        pos: usize,
        cache: &mut KvCache,
        state: &mut InferenceState<u32>,
        calc: &F,
    ) -> (r: Option<Result<Vec<u32>>>)
        requires
            computes(*calc),
            self.weights.wf(),
            old(cache).wf(),
        ensures
            final(cache).wf(),
            same_shape(*final(cache), *old(cache)),
            self.forward_gives(
                pass_of(math(*calc), token, pos, *old(cache)),
                memory(*old(state), *old(cache)),
                outcome(r),
                memory(*final(state), *final(cache)),
            ),
    {
        if !self.is_pass_ready(token, pos, state, cache) {
            proof {
                let p = pass_of(math(*calc), token, pos, *cache);
                assert(!self.pass_ready(p, sizes(memory(*state, *cache))));
            }
            return None;
        }
        proof {
            let p = pass_of(math(*calc), token, pos, *cache);
            assert(self.pass_ready(p, sizes(memory(*state, *cache))));
        }
        Some(self.run(token, pos, cache, state, calc))
    }

    /// The memory after the passes for the first `n` tokens of a batch.
    pub open spec fn after_tokens(
        &self,
        m: Math,
        tokens: Seq<u32>,
        pos: usize,
        cache: KvCache,
        before: Memory<Contents>,
        n: int,
    ) -> Memory<Contents>
        decreases n,
    {
        if n <= 0 {
            before
        } else {
            self.passed(
                pass_at(m, tokens, pos, cache, n - 1),
                self.after_tokens(m, tokens, pos, cache, before, n - 1),
            )
        }
    }

    /// Whether a batch comes to the pass for token `i`: those before it succeed.
    pub open spec fn batch_comes_to(
        &self,
        m: Math,
        tokens: Seq<u32>,
        pos: usize,
        cache: KvCache,
        i: int,
    ) -> bool {
        forall|j: int|
            0 <= j < i ==> #[trigger] self.pass_succeeds(pass_at(m, tokens, pos, cache, j))
    }

    /// Whether a batch is defined: every pass that it comes to is.
    pub open spec fn batch_ready(
        &self,
        m: Math,
        tokens: Seq<u32>,
        pos: usize,
        cache: KvCache,
        n: Sizes,
    ) -> bool {
        forall|i: int|
            0 <= i < tokens.len() && self.batch_comes_to(m, tokens, pos, cache, i)
                ==> #[trigger] self.pass_ready(pass_at(m, tokens, pos, cache, i), n)
    }

    /// Whether a batch ends in the pass for token `i` with the error `e`.
    pub open spec fn batch_stops_at(
        &self,
        m: Math,
        tokens: Seq<u32>,
        pos: usize,
        cache: KvCache,
        before: Memory<Contents>,
        i: int,
        e: GgufError,
        now: Memory<Contents>,
    ) -> bool {
        let p = pass_at(m, tokens, pos, cache, i);
        &&& 0 <= i < tokens.len()
        &&& forall|j: int|
            0 <= j < i ==> #[trigger] self.pass_succeeds(pass_at(m, tokens, pos, cache, j))
        &&& !self.pass_succeeds(p)
        &&& exists|k: int| #[trigger]
            self.stops_at(
                p,
                self.after_tokens(m, tokens, pos, cache, before, i),
                k,
                e,
                now,
            )
    }

    /// Whether a batch on the memory `before` gives the outcome `r` and leaves the
    /// memory `now`.
    pub open spec fn batch_gives(
        &self,
        m: Math,
        tokens: Seq<u32>,
        pos: usize,
        cache: KvCache,
        before: Memory<Contents>,
        r: Outcome,
        now: Memory<Contents>,
    ) -> bool {
        let defined = self.batch_ready(m, tokens, pos, cache, sizes(before));
        match r {
            Outcome::Undefined => !defined && now == before,
            Outcome::Logits(logits) => {
                &&& defined
                &&& forall|i: int|
                    0 <= i < tokens.len() ==> #[trigger] self.pass_succeeds(
                        pass_at(m, tokens, pos, cache, i),
                    )
                &&& now == self.after_tokens(m, tokens, pos, cache, before, tokens.len() as int)
                &&& if tokens.len() == 0 {
                    logits == Seq::<u32>::empty()
                } else {
                    now(Buffer::Logits) == Contents::Numbers(logits)
                }
            },
            Outcome::Fails(e) => {
                &&& defined
                &&& exists|i: int| #[trigger]
                    self.batch_stops_at(m, tokens, pos, cache, before, i, e, now)
            },
        }
    }

    /// Forward passes for a contiguous batch of tokens (prefill), or nothing where the
    /// batch comes to one that is not defined. K/V are written for every position, but
    /// only the logits for the last position are returned.
    pub fn forward_batch<F: Fn(Calc) -> u32 + Sync>(
        &self,
        tokens: &[u32],
        pos_start: usize,
        cache: &mut KvCache,
        state: &mut InferenceState<u32>,
        calc: &F,
    ) -> (r: Option<Result<Vec<u32>>>)
        requires
            computes(*calc),
            self.weights.wf(),
            old(cache).wf(),
            pos_start + tokens@.len() <= usize::MAX,
        ensures
            final(cache).wf(),
            same_shape(*final(cache), *old(cache)),
            self.batch_gives(
                math(*calc),
                tokens@,
                pos_start,
                *old(cache),
                memory(*old(state), *old(cache)),
                outcome(r),
                memory(*final(state), *final(cache)),
            ),
    {
        let ghost m = math(*calc);
        let ghost first = *cache;
        let ghost before = memory(*state, *cache);
        let ghost n = sizes(before);
        let count: usize = tokens.len();
        if !self.is_batch_ready(tokens, pos_start, state, cache) {
            proof {
                assert(!self.batch_ready(m, tokens@, pos_start, first, n));
            }
            return None;
        }
        proof {
            assert(self.batch_ready(m, tokens@, pos_start, first, n));
        }
        let mut logits: Vec<u32> = Vec::new();
        let mut i: usize = 0;
        while i < count
            invariant
                i <= count,
                count == tokens@.len(),
                pos_start + count <= usize::MAX,
                m == math(*calc),
                computes(*calc),
                self.weights.wf(),
                cache.wf(),
                first == *old(cache),
                before == memory(*old(state), *old(cache)),
                n == sizes(before),
                same_shape(*cache, first),
                forall|t: u32, q: usize| #[trigger]
                    pass_of(m, t, q, *cache) == pass_of(m, t, q, first),
                self.batch_ready(m, tokens@, pos_start, first, n),
                sizes(memory(*state, *cache)) == n,
                memory(*state, *cache) == self.after_tokens(
                    m,
                    tokens@,
                    pos_start,
                    first,
                    before,
                    i as int,
                ),
                forall|j: int|
                    0 <= j < i ==> #[trigger] self.pass_succeeds(
                        pass_at(m, tokens@, pos_start, first, j),
                    ),
                i == 0 ==> logits@ == Seq::<u32>::empty(),
                i > 0 ==> memory(*state, *cache)(Buffer::Logits) == Contents::Numbers(logits@),
            decreases count - i,
        {
            let ghost p = pass_at(m, tokens@, pos_start, first, i as int);
            let ghost earlier = *cache;
            proof {
                assert(p == pass_of(m, tokens@[i as int], (pos_start + i) as usize, *cache));
                assert(self.batch_comes_to(m, tokens@, pos_start, first, i as int));
                assert(self.pass_ready(p, n));
            }
            match self.run(tokens[i], pos_start + i, cache, state, calc) {
                Ok(l) => {
                    logits = l;
                },
                Err(e) => {
                    proof {
                        assert(self.batch_stops_at(
                            m,
                            tokens@,
                            pos_start,
                            first,
                            before,
                            i as int,
                            e,
                            memory(*state, *cache),
                        ));
                    }
                    return Some(Err(e));
                },
            }
            proof {
                assert forall|t: u32, q: usize| #[trigger]
                    pass_of(m, t, q, *cache) == pass_of(m, t, q, first) by {
                    assert(pass_of(m, t, q, earlier) == pass_of(m, t, q, first));
                    assert(pass_of(m, tokens@[i as int], (pos_start + i) as usize, *cache)
                        == pass_of(m, tokens@[i as int], (pos_start + i) as usize, earlier));
                }
            }
            i += 1;
        }
        Some(Ok(logits))
    }
}

} // verus!
