//! Kernels with one thread for each element.

use vstd::prelude::*;

use crate::calc::{
    computes, logistic_denominator, make, make_decay, make_logistic_denominator, make_sigmoid,
    make_silu, math, Calc, Math,
};
use crate::model::llama::meaning::{added, combined, decays, split_off, write_gates};
use crate::ops::kernels::{by_cell, patched};

verus! {

/// SwiGLU combine: `out[i] = silu(gate[i]) * up[i]`.
pub fn silu_mul<F: Fn(Calc) -> u32>(
    pos: usize,
    gate: &[u32],
    up: &[u32],
    out: &mut Vec<u32>,
    calc: &F,
)
    requires
        computes(*calc),
        old(out)@.len() <= gate@.len(),
        old(out)@.len() <= up@.len(),
    ensures
        final(out)@ == patched(
            old(out)@,
            combined(math(*calc), gate@, up@),
            by_cell(),
            pos as int,
        ),
{
    if pos < out.len() {
        let silu: u32 = make_silu(calc, gate[pos]);
        let v: u32 = make(calc, Calc::Mul(silu, up[pos]));
        out.set(pos, v);
    }
    proof {
        let new = combined(math(*calc), gate@, up@);
        assert(out@ =~= patched(old(out)@, new, by_cell(), pos as int));
    }
}

/// Numbers with a gate each, as the GPU computes them: over the denominator of the
/// logistic function.
pub open spec fn sigmoid_gated(m: Math, a: Seq<u32>, b: Seq<u32>) -> Seq<u32> {
    Seq::new(a.len(), |i: int| m(Calc::Div(a[i], logistic_denominator(m, b[i]))))
}

/// Sigmoid gate: `out[i] = a[i] * sigmoid(b[i])`.
pub fn sigmoid_mul<F: Fn(Calc) -> u32>(
    pos: usize,
    a: &[u32],
    b: &[u32],
    out: &mut Vec<u32>,
    calc: &F,
)
    requires
        computes(*calc),
        old(out)@.len() <= a@.len(),
        old(out)@.len() <= b@.len(),
    ensures
        final(out)@ == patched(
            old(out)@,
            sigmoid_gated(math(*calc), a@, b@),
            by_cell(),
            pos as int,
        ),
{
    if pos < out.len() {
        let d: u32 = make_logistic_denominator(calc, b[pos]);
        let v: u32 = make(calc, Calc::Div(a[pos], d));
        out.set(pos, v);
    }
    proof {
        let new = sigmoid_gated(math(*calc), a@, b@);
        assert(out@ =~= patched(old(out)@, new, by_cell(), pos as int));
    }
}

/// Residual add: `out[i] = a[i] + b[i]`.
pub fn residual_add<F: Fn(Calc) -> u32>(
    pos: usize,
    a: &[u32],
    b: &[u32],
    out: &mut Vec<u32>,
    calc: &F,
)
    requires
        computes(*calc),
        old(out)@.len() <= a@.len(),
        old(out)@.len() <= b@.len(),
    ensures
        final(out)@ == patched(old(out)@, added(math(*calc), a@, b@), by_cell(), pos as int),
{
    if pos < out.len() {
        let v: u32 = make(calc, Calc::Add(a[pos], b[pos]));
        out.set(pos, v);
    }
    proof {
        let new = added(math(*calc), a@, b@);
        assert(out@ =~= patched(old(out)@, new, by_cell(), pos as int));
    }
}

/// Takes one element of a fused projection apart: each head is laid out as queries and
/// then gates.
pub fn split_qg(
    pos: usize,
    qg_raw: &[u32],
    q: &mut Vec<u32>,
    gate: &mut Vec<u32>,
    head_dim: usize,
)
    requires
        0 < head_dim,
        old(q)@.len() % head_dim as nat == 0,
        old(gate)@.len() == old(q)@.len(),
        2 * old(q)@.len() <= qg_raw@.len(),
    ensures
        ({
            let len = head_dim as int;
            let heads = old(q)@.len() as int / len;
            &&& final(q)@ == patched(
                old(q)@,
                split_off(qg_raw@, heads, len, false),
                by_cell(),
                pos as int,
            )
            &&& final(gate)@ == patched(
                old(gate)@,
                split_off(qg_raw@, heads, len, true),
                by_cell(),
                pos as int,
            )
        }),
{
    let ghost len = head_dim as int;
    let ghost heads = q@.len() as int / len;
    let raw_len: usize = qg_raw.len();
    proof {
        vstd::arithmetic::div_mod::lemma_fundamental_div_mod(q@.len() as int, len);
    }
    if pos < q.len() {
        let h: usize = pos / head_dim;
        let d: usize = pos % head_dim;
        proof {
            vstd::arithmetic::div_mod::lemma_fundamental_div_mod(pos as int, len);
            assert(len * (pos as int / len) == (pos as int / len) * len) by (nonlinear_arith);
            assert(h * head_dim + head_dim <= q@.len()) by (nonlinear_arith)
                requires
                    q@.len() == len * heads,
                    len == head_dim,
                    h * head_dim <= pos < q@.len(),
                    0 < head_dim,
            ;
            assert(0 <= h * head_dim) by (nonlinear_arith);
        }
        let start: usize = h * head_dim;
        let src: usize = 2 * start;
        q.set(pos, qg_raw[src + d]);
        gate.set(pos, qg_raw[src + head_dim + d]);
        proof {
            assert(heads * len == len * heads) by (nonlinear_arith);
        }
    }
    proof {
        assert(q@ =~= patched(
            old(q)@,
            split_off(qg_raw@, heads, len, false),
            by_cell(),
            pos as int,
        ));
        assert(gate@ =~= patched(
            old(gate)@,
            split_off(qg_raw@, heads, len, true),
            by_cell(),
            pos as int,
        ));
    }
}

/// Gated DeltaNet gate and decay: `beta = sigmoid(beta_raw)` and
/// `decay = exp(ssm_a * softplus(alpha_raw + dt_bias))`, both in place.
pub fn gdn_gate_decay<F: Fn(Calc) -> u32>(
    pos: usize,
    beta_raw: &mut Vec<u32>,
    alpha_raw: &mut Vec<u32>,
    ssm_a: &[u32],
    dt_bias: &[u32],
    calc: &F,
)
    requires
        computes(*calc),
        old(alpha_raw)@.len() == old(beta_raw)@.len(),
        old(beta_raw)@.len() <= ssm_a@.len(),
        old(beta_raw)@.len() <= dt_bias@.len(),
    ensures
        final(beta_raw)@ == patched(
            old(beta_raw)@,
            write_gates(math(*calc), old(beta_raw)@),
            by_cell(),
            pos as int,
        ),
        final(alpha_raw)@ == patched(
            old(alpha_raw)@,
            decays(math(*calc), old(alpha_raw)@, dt_bias@, ssm_a@),
            by_cell(),
            pos as int,
        ),
{
    let n: usize = beta_raw.len();
    if pos < n {
        let gate: u32 = make_sigmoid(calc, beta_raw[pos]);
        beta_raw.set(pos, gate);
        let rate: u32 = make_decay(calc, alpha_raw[pos], dt_bias[pos], ssm_a[pos]);
        alpha_raw.set(pos, rate);
    }
    proof {
        let m = math(*calc);
        let gates = write_gates(m, old(beta_raw)@);
        let rates = decays(m, old(alpha_raw)@, dt_bias@, ssm_a@);
        assert(beta_raw@ =~= patched(old(beta_raw)@, gates, by_cell(), pos as int));
        assert(alpha_raw@ =~= patched(old(alpha_raw)@, rates, by_cell(), pos as int));
    }
}

/// Appends a key and a value to a cache at position `slot`.
pub open spec fn appended(cache: Seq<u32>, new: Seq<u32>, slot: int) -> Seq<u32> {
    let from = slot * new.len() as int;
    Seq::new(
        cache.len(),
        |i: int|
            if from <= i < from + new.len() {
                new[i - from]
            } else {
                cache[i]
            },
    )
}

/// Writes one element of the key and of the value of a token into the caches at
/// position `slot`.
pub fn kv_cache_write(
    pos: usize,
    k_cache: &mut Vec<u32>,
    v_cache: &mut Vec<u32>,
    new_k: &[u32],
    new_v: &[u32],
    slot: usize,
)
    requires
        new_v@.len() == new_k@.len(),
        slot * new_k@.len() + new_k@.len() <= old(k_cache)@.len(),
        slot * new_k@.len() + new_k@.len() <= old(v_cache)@.len(),
    ensures
        ({
            let from = slot * new_k@.len() as int;
            let own = |i: int| i - from;
            &&& final(k_cache)@ == patched(
                old(k_cache)@,
                appended(old(k_cache)@, new_k@, slot as int),
                own,
                pos as int,
            )
            &&& final(v_cache)@ == patched(
                old(v_cache)@,
                appended(old(v_cache)@, new_v@, slot as int),
                own,
                pos as int,
            )
        }),
{
    let kv_dim: usize = new_k.len();
    let room: usize = k_cache.len();
    let ghost from = slot * new_k@.len() as int;
    let ghost own = |i: int| i - from;
    proof {
        assert(0 <= slot * new_k@.len()) by (nonlinear_arith);
    }
    if pos < kv_dim {
        let at: usize = slot * kv_dim + pos;
        k_cache.set(at, new_k[pos]);
        v_cache.set(at, new_v[pos]);
    }
    proof {
        let ks = appended(old(k_cache)@, new_k@, slot as int);
        let vs = appended(old(v_cache)@, new_v@, slot as int);
        assert(k_cache@ =~= patched(old(k_cache)@, ks, own, pos as int));
        assert(v_cache@ =~= patched(old(v_cache)@, vs, own, pos as int));
    }
}

} // verus!
