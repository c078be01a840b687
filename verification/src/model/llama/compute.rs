//! The operations of a forward pass on the vectors that they work on.

use vstd::prelude::*;

use crate::calc::{
    angle, computes, l2, largest, lemma_folded_is_fold, make, make_angle, make_decay, make_l2,
    make_largest, make_multiply_add, make_raised, make_rms, make_score, make_sigmoid, make_silu,
    make_sum, make_turned, make_value, make_weighted, math, products, raised, rms, score, sigmoid,
    silu, softmax, sum, turned, values, weighted, Calc, Math, LARGEST_QUANT,
};
use crate::model::kv_dtype::{kv_block, kv_block_quantized, quantize_kv, KvDtype, KvVector};
use crate::model::llama::attention::{attend, column, each, head_attends, scored, softened};
use crate::model::llama::conv::{
    advanced, causal_depthwise_conv, channel_convolved, gated_channel, short_conv, taps, window,
};
use crate::model::llama::delta::{
    cell, consistent, corrected, delta_step, head_stepped, key, predicted, query, state_column,
    state_len,
};
use crate::model::llama::kernels::{
    folded, norm_into, of_slice, pair_turned, residual_add, rotate_heads, scale_segments, segment,
    segment_scaled, split_qg,
};
use crate::model::llama::meaning::{
    added, attended, cache_scale, cell_column, cell_head, cell_row, clamped, combined_over, correction,
    decays, gate_input, gated, head_scores, heads_gated, heads_normed, heads_rotated, keys_normed,
    normed, packed, read_out, readings, short_convolved, silu_convolved, split_off, stepped,
    write_gates,
};
use crate::model::llama::types::GdnDims;
use crate::quant::block::blocks_of;
use crate::quant::Row;
use crate::single::{ONE, ZERO};

verus! {

/// The place of an element among segments of `len` elements.
proof fn lemma_place(i: int, n: int, len: int)
    requires
        0 <= i < n * len,
        0 <= len,
    ensures
        0 < len,
        0 <= i / len < n,
        0 <= i % len < len,
        i == i / len * len + i % len,
{
    assert(0 < len) by (nonlinear_arith)
        requires
            0 <= i < n * len,
            0 <= len,
    ;
    vstd::arithmetic::div_mod::lemma_fundamental_div_mod(i, len);
    vstd::arithmetic::mul::lemma_mul_is_commutative(len, i / len);
    assert(0 <= i / len < n) by (nonlinear_arith)
        requires
            0 <= i < n * len,
            0 < len,
            i == i / len * len + i % len,
            0 <= i % len < len,
    ;
}

/// The values of a row.
pub(crate) fn read_values<F: Fn(Calc) -> u32>(row: &Row, calc: &F) -> (out: Vec<u32>)
    requires
        computes(*calc),
    ensures
        out@ == values(math(*calc), row.elements()),
{
    let n: usize = row.len();
    let mut out: Vec<u32> = Vec::new();
    let mut i: usize = 0;
    while i < n
        invariant
            i <= n,
            n == row.elements().len(),
            computes(*calc),
            out@ == values(math(*calc), row.elements()).take(i as int),
        decreases n - i,
    {
        out.push(make_value(calc, row.element(i)));
        proof {
            let all = values(math(*calc), row.elements());
            assert(out@ =~= all.take(i + 1));
        }
        i += 1;
    }
    proof {
        let all = values(math(*calc), row.elements());
        assert(out@ =~= all);
    }
    out
}

/// RMS normalization: `out[i] = w[i] * x[i] / rms`.
pub(crate) fn norm_vector<F: Fn(Calc) -> u32>(
    x: &[u32],
    w: &[u32],
    out: &mut Vec<u32>,
    eps: u32,
    calc: &F,
)
    requires
        computes(*calc),
    ensures
        final(out)@ == normed(math(*calc), eps, w@, x@, old(out)@),
{
    let measure = |s: &[u32]| -> (r: u32)
        ensures
            r == rms(math(*calc), eps, s@),
        { make_rms(calc, eps, s) };
    let scale = |w: u32, v: u32, r: u32| -> (o: u32)
        ensures
            o == weighted(math(*calc), w, v, r),
        { make_weighted(calc, w, v, r) };
    norm_into(x, w, out, measure, scale);
    proof {
        assert(out@ =~= normed(math(*calc), eps, w@, x@, old(out)@));
    }
}

/// Per-head RMS normalization of `n` heads of `len` elements each.
pub(crate) fn norm_heads<F: Fn(Calc) -> u32>(
    x: &mut Vec<u32>,
    w: &[u32],
    n: usize,
    len: usize,
    eps: u32,
    calc: &F,
)
    requires
        computes(*calc),
        old(x)@.len() == n * len,
        len <= w@.len(),
    ensures
        final(x)@ == heads_normed(math(*calc), eps, w@, old(x)@, len as int),
{
    let ghost m = math(*calc);
    let ghost before = x@;
    let measure = |s: &[u32]| -> (r: u32)
        ensures
            r == rms(math(*calc), eps, s@),
        { make_rms(calc, eps, s) };
    let scale = |h: usize, d: usize, v: u32, r: u32| -> (o: u32)
        requires
            d < w@.len(),
        ensures
            o == weighted(math(*calc), w@[d as int], v, r),
        { make_weighted(calc, w[d], v, r) };
    scale_segments(x, 0, n, len, measure, scale);
    proof {
        let now = x@;
        let goal = heads_normed(m, eps, w@, before, len as int);
        assert forall|i: int| 0 <= i < now.len() implies #[trigger] now[i] == goal[i] by {
            lemma_place(i, n as int, len as int);
            let h = i / len as int;
            let d = i % len as int;
            assert(segment_scaled(before, now, 0, len as int, h, measure, scale));
            assert(now[0 + h * len + d] == now[i]);
            assert(before[0 + h * len + d] == before[i]);
        }
        assert(now =~= goal);
    }
}

/// The sines and cosines of the rotations of `n_rot` dimensions at a position.
/// They depend only on the position and the dimension, not the head, so they are
/// computed once and reused across all heads.
fn rotations<F: Fn(Calc) -> u32>(pos: usize, n_rot: usize, theta: u32, calc: &F) -> (table: Vec<
    (u32, u32),
>)
    requires
        computes(*calc),
    ensures
        table@.len() == n_rot / 2,
        forall|d: int|
            0 <= d < table@.len() ==> #[trigger] table@[d] == (
                math(*calc)(Calc::Sin(angle(math(*calc), pos, d as usize, n_rot, theta))),
                math(*calc)(Calc::Cos(angle(math(*calc), pos, d as usize, n_rot, theta))),
            ),
{
    let half: usize = n_rot / 2;
    let mut table: Vec<(u32, u32)> = Vec::new();
    let mut d: usize = 0;
    while d < half
        invariant
            d <= half,
            computes(*calc),
            table@.len() == d,
            forall|k: int|
                0 <= k < table@.len() ==> #[trigger] table@[k] == (
                    math(*calc)(Calc::Sin(angle(math(*calc), pos, k as usize, n_rot, theta))),
                    math(*calc)(Calc::Cos(angle(math(*calc), pos, k as usize, n_rot, theta))),
                ),
        decreases half - d,
    {
        let by: u32 = make_angle(calc, pos, d, n_rot, theta);
        table.push((make(calc, Calc::Sin(by)), make(calc, Calc::Cos(by))));
        d += 1;
    }
    table
}

/// Rotary position embedding of `n` heads of `len` elements each, of which the
/// first `n_rot` are rotated.
pub(crate) fn rotate_vector<F: Fn(Calc) -> u32>(
    x: &mut Vec<u32>,
    n: usize,
    len: usize,
    n_rot: usize,
    pos: usize,
    theta: u32,
    calc: &F,
)
    requires
        computes(*calc),
        old(x)@.len() == n * len,
        2 * (n_rot as int / 2) <= len,
    ensures
        final(x)@ == heads_rotated(math(*calc), old(x)@, len as int, n_rot, pos, theta),
{
    let ghost m = math(*calc);
    let ghost before = x@;
    let table = rotations(pos, n_rot, theta, calc);
    let turn = |x0: u32, x1: u32, d: usize| -> (r: (u32, u32))
        ensures
            r == turned(math(*calc), x0, x1, angle(math(*calc), pos, d, n_rot, theta)),
        {
            if d < table.len() {
                let (s, c) = table[d];
                make_turned(calc, x0, x1, s, c)
            } else {
                let by: u32 = make_angle(calc, pos, d, n_rot, theta);
                let s: u32 = make(calc, Calc::Sin(by));
                let c: u32 = make(calc, Calc::Cos(by));
                make_turned(calc, x0, x1, s, c)
            }
        };
    rotate_heads(x, n, len, n_rot, turn);
    proof {
        let now = x@;
        let half = n_rot as int / 2;
        let goal = heads_rotated(m, before, len as int, n_rot, pos, theta);
        assert forall|i: int| 0 <= i < now.len() implies #[trigger] now[i] == goal[i] by {
            lemma_place(i, n as int, len as int);
            let h = i / len as int;
            let d = i % len as int;
            if d < half {
                assert(pair_turned(before, now, len as int, half, h, d, turn));
            } else if d < 2 * half {
                assert(pair_turned(before, now, len as int, half, h, d - half, turn));
                assert(h * len + (d - half) == i - half);
            } else {
                assert(now[h * len + d] == before[h * len + d]);
            }
        }
        assert(now =~= goal);
    }
}

/// Takes a fused projection apart into queries and gates: each head is laid out as
/// `[Q(head_dim) | gate(head_dim)]`.
pub(crate) fn split_vector(
    raw: &[u32],
    q: &mut Vec<u32>,
    gate: &mut Vec<u32>,
    n: usize,
    len: usize,
)
    requires
        raw@.len() == 2 * (n * len),
        old(q)@.len() == n * len,
        old(gate)@.len() == n * len,
    ensures
        final(q)@ == split_off(raw@, n as int, len as int, false),
        final(gate)@ == split_off(raw@, n as int, len as int, true),
{
    split_qg(raw, q, gate, n, len);
    proof {
        assert forall|i: int| 0 <= i < n * len implies #[trigger] q@[i] == split_off(
            raw@,
            n as int,
            len as int,
            false,
        )[i] by {
            lemma_place(i, n as int, len as int);
            let h = i / len as int;
            let d = i % len as int;
            assert(q@[h * len + d] == raw@[2 * (h * len) + d]);
        }
        assert(q@ =~= split_off(raw@, n as int, len as int, false));
        assert forall|i: int| 0 <= i < n * len implies #[trigger] gate@[i] == split_off(
            raw@,
            n as int,
            len as int,
            true,
        )[i] by {
            lemma_place(i, n as int, len as int);
            let h = i / len as int;
            let d = i % len as int;
            assert(gate@[h * len + d] == raw@[2 * (h * len) + len + d]);
        }
        assert(gate@ =~= split_off(raw@, n as int, len as int, true));
    }
}

/// Output gate: `x *= sigmoid(gate)`.
pub(crate) fn gate_vector<F: Fn(Calc) -> u32>(x: &mut Vec<u32>, gate: &[u32], calc: &F)
    requires
        computes(*calc),
        old(x)@.len() <= gate@.len(),
    ensures
        final(x)@ == gated(math(*calc), old(x)@, gate@),
{
    let with_gate = |v: u32, g: u32| -> (r: u32)
        ensures
            r == math(*calc)(Calc::Mul(v, sigmoid(math(*calc), g))),
        {
            let s: u32 = make_sigmoid(calc, g);
            make(calc, Calc::Mul(v, s))
        };
    residual_add(x, gate, with_gate);
    proof {
        assert(x@ =~= gated(math(*calc), old(x)@, gate@));
    }
}

/// `x += delta`.
pub(crate) fn add_vector<F: Fn(Calc) -> u32>(x: &mut Vec<u32>, delta: &[u32], calc: &F)
    requires
        computes(*calc),
        old(x)@.len() <= delta@.len(),
    ensures
        final(x)@ == added(math(*calc), old(x)@, delta@),
{
    let plus = |v: u32, d: u32| -> (r: u32)
        ensures
            r == math(*calc)(Calc::Add(v, d)),
        { make(calc, Calc::Add(v, d)) };
    residual_add(x, delta, plus);
    proof {
        assert(x@ =~= added(math(*calc), old(x)@, delta@));
    }
}

/// `silu(gate) * up` for the first `rows` numbers, over the first elements of `out`.
pub(crate) fn combine_vectors<F: Fn(Calc) -> u32>(
    rows: usize,
    gate: &[u32],
    up: &[u32],
    out: &mut Vec<u32>,
    calc: &F,
)
    requires
        computes(*calc),
        rows <= gate@.len(),
        rows <= up@.len(),
        rows <= old(out)@.len(),
    ensures
        final(out)@ == combined_over(math(*calc), rows as nat, gate@, up@, old(out)@),
{
    let mut i: usize = 0;
    while i < rows
        invariant
            i <= rows,
            rows <= gate@.len(),
            rows <= up@.len(),
            rows <= out@.len(),
            computes(*calc),
            out@ == combined_over(math(*calc), i as nat, gate@, up@, old(out)@),
        decreases rows - i,
    {
        let s: u32 = make_silu(calc, gate[i]);
        out.set(i, make(calc, Calc::Mul(s, up[i])));
        proof {
            assert(out@ =~= combined_over(math(*calc), (i + 1) as nat, gate@, up@, old(out)@));
        }
        i += 1;
    }
}

// ── The cache and attention ─────────────────────────────────────────────────

/// Quantizes a key or a value for the cache.
pub(crate) fn pack_vector<F: Fn(Calc) -> u32>(dtype: KvDtype, x: &[u32], calc: &F) -> (v: KvVector)
    requires
        computes(*calc),
    ensures
        dtype.accepts(v, x@.len()),
        v.spec_bytes() == packed(math(*calc), dtype, x@),
{
    let ghost m = math(*calc);
    let to_half = |v: u32| -> (r: u16)
        ensures
            r == math(*calc)(Calc::ToHalf(v)) as u16,
        { make(calc, Calc::ToHalf(v)) as u16 };
    let scale_of = |p: u32| -> (r: u32)
        ensures
            r == math(*calc)(Calc::Div(p, LARGEST_QUANT)),
        { make(calc, Calc::Div(p, LARGEST_QUANT)) };
    let quotient = |v: u32, s: u32| -> (r: i8)
        ensures
            r == clamped(math(*calc)(Calc::Round(math(*calc)(Calc::Div(v, s)))) as i32),
        {
            let q: u32 = make(calc, Calc::Div(v, s));
            let n: i32 = make(calc, Calc::Round(q)) as i32;
            if n < -127 {
                -127
            } else if n > 127 {
                127
            } else {
                n as i8
            }
        };
    let v = quantize_kv(dtype, x, to_half, scale_of, quotient);
    let ghost vector = v;
    proof {
        let xs = x@;
        match vector {
            KvVector::Half(bits) => {
                assert(bits@ =~= Seq::new(xs.len(), |i: int| m(Calc::ToHalf(xs[i])) as u16));
            },
            KvVector::Scaled(scales, quants) => {
                let goal_scales = Seq::new(
                    blocks_of(xs.len(), 32),
                    |b: int| m(Calc::ToHalf(cache_scale(m, kv_block(xs, b)))) as u16,
                );
                let goal_quants = Seq::new(
                    xs.len(),
                    |i: int|
                        clamped(
                            m(
                                Calc::Round(
                                    m(Calc::Div(xs[i], cache_scale(m, kv_block(xs, i / 32)))),
                                ),
                            ) as i32,
                        ),
                );
                assert forall|b: int| 0 <= b < scales@.len() implies #[trigger] scales@[b]
                    == goal_scales[b] by {
                    assert(kv_block_quantized(
                        xs,
                        b,
                        scales@[b],
                        quants@,
                        to_half,
                        scale_of,
                        quotient,
                    ));
                }
                assert(scales@ =~= goal_scales);
                assert forall|i: int| 0 <= i < quants@.len() implies #[trigger] quants@[i]
                    == goal_quants[i] by {
                    let b = i / 32;
                    let j = i - 32 * b;
                    assert(kv_block_quantized(
                        xs,
                        b,
                        scales@[b],
                        quants@,
                        to_half,
                        scale_of,
                        quotient,
                    ));
                    assert(0 <= j < kv_block(xs, b).len());
                    assert(kv_block(xs, b)[j] == xs[i]);
                    assert(quants@[32 * b + j] == quants@[i]);
                }
                assert(quants@ =~= goal_quants);
            },
        }
    }
    v
}

/// The vectors as mathematics sees them.
pub(crate) open spec fn views(v: Seq<Vec<u32>>) -> Seq<Seq<u32>> {
    Seq::new(v.len(), |t: int| v[t]@)
}

proof fn lemma_softened<
    L: Fn(&[u32]) -> u32,
    R: Fn(u32, u32) -> u32,
    S: Fn(&[u32]) -> u32,
    V: Fn(u32, u32) -> u32,
>(
    m: Math,
    scores: Seq<u32>,
    top: L,
    raise: R,
    total: S,
    share: V,
    weights: Seq<u32>,
)
    requires
        softened(scores, top, raise, total, share, weights),
        forall|s: &[u32], r: u32| #[trigger] top.ensures((s,), r) ==> r == largest(m, s@),
        forall|s: u32, t: u32, r: u32| #[trigger] raise.ensures((s, t), r) ==> r == raised(m, s, t),
        forall|s: &[u32], r: u32| #[trigger] total.ensures((s,), r) ==> r == sum(m, s@),
        forall|s: u32, t: u32, r: u32| #[trigger]
            share.ensures((s, t), r) ==> r == m(Calc::Div(s, t)),
    ensures
        weights == softmax(m, scores),
{
    let (t, up, all) = choose|t: u32, up: Seq<u32>, all: u32| #[trigger]
        of_slice(top, scores, t) && #[trigger] each(raise, scores, t, up) && #[trigger] of_slice(
            total,
            up,
            all,
        ) && each(share, up, all, weights);
    assert(t == largest(m, scores));
    assert(up =~= Seq::new(scores.len(), |i: int| raised(m, scores[i], largest(m, scores))));
    assert(all == sum(m, up));
    assert(weights =~= softmax(m, scores));
}

/// Attention of `n` query heads over the cached keys and values; `group` query
/// heads share a K/V head.
#[verifier::spinoff_prover]
#[verifier::rlimit(40)]
pub(crate) fn attend_vectors<F: Fn(Calc) -> u32>(
    q: &[u32],
    keys: &Vec<Vec<u32>>,
    vals: &Vec<Vec<u32>>,
    out: &mut Vec<u32>,
    n: usize,
    n_kv: usize,
    group: usize,
    len: usize,
    calc: &F,
)
    requires
        computes(*calc),
        q@.len() == n * len,
        old(out)@.len() == n * len,
        0 < n ==> 0 < group,
        n <= n_kv * group,
        keys@.len() == vals@.len(),
        forall|t: int| 0 <= t < keys@.len() ==> (#[trigger] keys@[t])@.len() == n_kv * len,
        forall|t: int| 0 <= t < vals@.len() ==> (#[trigger] vals@[t])@.len() == n_kv * len,
    ensures
        final(out)@ == attended(
            math(*calc),
            q@,
            views(keys@),
            views(vals@),
            n as int,
            len as int,
            group as int,
        ),
{
    let ghost m = math(*calc);
    let score_of = |a: &[u32], b: &[u32]| -> (r: u32)
        ensures
            a@.len() == b@.len() ==> r == score(math(*calc), a@, b@),
        {
            if a.len() == b.len() {
                make_score(calc, a, b)
            } else {
                ZERO
            }
        };
    let top = |s: &[u32]| -> (r: u32)
        ensures
            r == largest(math(*calc), s@),
        { make_largest(calc, s) };
    let raise = |s: u32, t: u32| -> (r: u32)
        ensures
            r == raised(math(*calc), s, t),
        { make_raised(calc, s, t) };
    let total = |s: &[u32]| -> (r: u32)
        ensures
            r == sum(math(*calc), s@),
        { make_sum(calc, s) };
    let share = |s: u32, t: u32| -> (r: u32)
        ensures
            r == math(*calc)(Calc::Div(s, t)),
        { make(calc, Calc::Div(s, t)) };
    let take_in = |acc: u32, w: u32, v: u32| -> (r: u32)
        ensures
            r == products(math(*calc))(acc, w, v),
        { make_multiply_add(calc, acc, w, v) };
    attend(
        q,
        keys,
        vals,
        out,
        n,
        n_kv,
        group,
        len,
        ZERO,
        score_of,
        top,
        raise,
        total,
        share,
        take_in,
    );
    proof {
        let now = out@;
        let l = len as int;
        let g = group as int;
        let goal = attended(m, q@, views(keys@), views(vals@), n as int, l, g);
        assert forall|i: int| 0 <= i < now.len() implies #[trigger] now[i] == goal[i] by {
            lemma_place(i, n as int, l);
            let h = i / l;
            let d = i % l;
            let kv = h / g;
            assert(head_attends(
                q@,
                keys@,
                vals@,
                l,
                g,
                h,
                ZERO,
                score_of,
                top,
                raise,
                total,
                share,
                take_in,
                now,
            ));
            let (scores, weights) = choose|scores: Seq<u32>, weights: Seq<u32>| #[trigger]
                scored(q@, keys@, l, g, h, score_of, scores) && #[trigger] softened(
                    scores,
                    top,
                    raise,
                    total,
                    share,
                    weights,
                ) && forall|d: int|
                    0 <= d < l ==> folded(
                        take_in,
                        ZERO,
                        weights,
                        column(vals@, crate::model::llama::attention::kv_head(h, g) * l + d),
                        #[trigger] now[h * l + d],
                    );
            vstd::arithmetic::div_mod::lemma_fundamental_div_mod(h, g);
            assert(0 <= kv < n_kv) by (nonlinear_arith)
                requires
                    h == g * kv + h % g,
                    0 <= h % g < g,
                    0 <= h < n,
                    n <= n_kv * g,
                    kv == h / g,
            ;
            assert(kv * l + l <= n_kv * l) by (nonlinear_arith)
                requires
                    kv + 1 <= n_kv,
                    0 <= l,
            ;
            assert(0 <= kv * l) by (nonlinear_arith)
                requires
                    0 <= kv,
                    0 <= l,
            ;
            assert(h * l + l <= n * l) by (nonlinear_arith)
                requires
                    h + 1 <= n,
                    0 <= l,
            ;
            assert(0 <= h * l) by (nonlinear_arith)
                requires
                    0 <= h,
                    0 <= l,
            ;
            assert(scores =~= head_scores(m, q@, views(keys@), l, g, h));
            lemma_softened(m, scores, top, raise, total, share, weights);
            let col = column(vals@, kv * l + d);
            assert(col =~= Seq::new(
                views(vals@).len(),
                |t: int| views(vals@)[t][i / l / g * l + i % l],
            ));
            assert(now[h * l + d] == now[i]);
            lemma_folded_is_fold(take_in, products(m), ZERO, weights, col, now[i]);
        }
        assert(now =~= goal);
    }
}

// ── Convolutions ────────────────────────────────────────────────────────────

/// The gates and the convolution of a short-conv layer: `B * x` goes through the
/// convolution, and what comes out is multiplied by `C`. The history is advanced.
pub(crate) fn short_conv_vectors<F: Fn(Calc) -> u32>(
    history: &mut Vec<u32>,
    weight: &[u32],
    d: usize,
    kernel: usize,
    bcx: &[u32],
    bx: &mut Vec<u32>,
    out: &mut Vec<u32>,
    calc: &F,
)
    requires
        computes(*calc),
        1 <= kernel,
        old(history)@.len() == (kernel - 1) * d,
        d * kernel <= weight@.len(),
        bcx@.len() == 3 * d,
        old(bx)@.len() == d,
        old(out)@.len() == d,
    ensures
        final(bx)@ == gate_input(math(*calc), bcx@, d as int),
        final(history)@ == advanced(old(history)@, gate_input(math(*calc), bcx@, d as int)),
        final(out)@ == short_convolved(
            math(*calc),
            old(history)@,
            weight@,
            bcx@,
            d as int,
            kernel as int,
        ),
{
    let ghost m = math(*calc);
    let ghost before = history@;
    let take_in = |acc: u32, w: u32, v: u32| -> (r: u32)
        ensures
            r == products(math(*calc))(acc, w, v),
        { make_multiply_add(calc, acc, w, v) };
    let mult = |a: u32, b: u32| -> (r: u32)
        ensures
            r == math(*calc)(Calc::Mul(a, b)),
        { make(calc, Calc::Mul(a, b)) };
    short_conv(history, weight, d, kernel, bcx, bx, out, ZERO, take_in, mult);
    proof {
        let input = bx@;
        assert(input =~= gate_input(m, bcx@, d as int));
        let goal = short_convolved(m, before, weight@, bcx@, d as int, kernel as int);
        assert forall|ch: int| 0 <= ch < d implies #[trigger] out@[ch] == goal[ch] by {
            assert(gated_channel(
                before,
                weight@,
                input,
                d as int,
                kernel as int,
                ch,
                ZERO,
                take_in,
                mult,
                bcx@[d + ch],
                out@[ch],
            ));
            let t = taps(weight@, kernel as int, ch);
            let w = window(before, input, d as int, kernel as int, ch);
            let acc = choose|acc: u32|
                folded(take_in, ZERO, t, w, acc) && #[trigger] mult.ensures(
                    (bcx@[d + ch], acc),
                    out@[ch],
                );
            lemma_folded_is_fold(take_in, products(m), ZERO, t, w, acc);
        }
        assert(out@ =~= goal);
    }
}

/// The convolution of a Gated DeltaNet layer. The history is advanced.
pub(crate) fn silu_conv_vectors<F: Fn(Calc) -> u32>(
    history: &mut Vec<u32>,
    weight: &[u32],
    dims: &GdnDims,
    input: &[u32],
    out: &mut Vec<u32>,
    calc: &F,
)
    requires
        computes(*calc),
        1 <= dims.d_conv,
        old(history)@.len() == (dims.d_conv - 1) * dims.conv_dim,
        dims.conv_dim * dims.d_conv <= weight@.len(),
        input@.len() == dims.conv_dim,
        old(out)@.len() == dims.conv_dim,
    ensures
        final(history)@ == advanced(old(history)@, input@),
        final(out)@ == silu_convolved(math(*calc), old(history)@, weight@, input@, *dims),
{
    let ghost m = math(*calc);
    let ghost before = history@;
    let take_in = |acc: u32, w: u32, v: u32| -> (r: u32)
        ensures
            r == products(math(*calc))(acc, w, v),
        { make_multiply_add(calc, acc, w, v) };
    let finish = |ch: usize, acc: u32| -> (r: u32)
        ensures
            r == silu(math(*calc), acc),
        { make_silu(calc, acc) };
    causal_depthwise_conv(
        history,
        weight,
        dims.conv_dim,
        dims.d_conv,
        input,
        out,
        ZERO,
        take_in,
        finish,
    );
    proof {
        let c = dims.conv_dim as int;
        let k = dims.d_conv as int;
        assert(input@.take(c) =~= input@);
        let goal = silu_convolved(m, before, weight@, input@, *dims);
        assert forall|ch: int| 0 <= ch < c implies #[trigger] out@[ch] == goal[ch] by {
            assert(channel_convolved(
                before,
                weight@,
                input@,
                c,
                k,
                ch,
                ZERO,
                take_in,
                finish,
                out@[ch],
            ));
            let t = taps(weight@, k, ch);
            let w = window(before, input@, c, k, ch);
            let acc = choose|acc: u32|
                folded(take_in, ZERO, t, w, acc) && #[trigger] finish.ensures(
                    (ch as usize, acc),
                    out@[ch],
                );
            lemma_folded_is_fold(take_in, products(m), ZERO, t, w, acc);
        }
        assert(out@ =~= goal);
    }
}

// ── The delta rule ──────────────────────────────────────────────────────────

/// `sigmoid` of each number.
pub(crate) fn write_gate_vector<F: Fn(Calc) -> u32>(raw: &[u32], calc: &F) -> (out: Vec<u32>)
    requires
        computes(*calc),
    ensures
        out@ == write_gates(math(*calc), raw@),
{
    let n: usize = raw.len();
    let mut out: Vec<u32> = Vec::new();
    let mut h: usize = 0;
    while h < n
        invariant
            h <= n,
            n == raw@.len(),
            computes(*calc),
            out@ == write_gates(math(*calc), raw@).take(h as int),
        decreases n - h,
    {
        out.push(make_sigmoid(calc, raw[h]));
        proof {
            assert(out@ =~= write_gates(math(*calc), raw@).take(h + 1));
        }
        h += 1;
    }
    proof {
        assert(out@ =~= write_gates(math(*calc), raw@));
    }
    out
}

/// `exp(a * softplus(raw + bias))` for each head.
pub(crate) fn decay_vector<F: Fn(Calc) -> u32>(
    raw: &[u32],
    bias: &[u32],
    a: &[u32],
    calc: &F,
) -> (out: Vec<u32>)
    requires
        computes(*calc),
        raw@.len() <= bias@.len(),
        raw@.len() <= a@.len(),
    ensures
        out@ == decays(math(*calc), raw@, bias@, a@),
{
    let n: usize = raw.len();
    let mut out: Vec<u32> = Vec::new();
    let mut h: usize = 0;
    while h < n
        invariant
            h <= n,
            n == raw@.len(),
            n <= bias@.len(),
            n <= a@.len(),
            computes(*calc),
            out@ == decays(math(*calc), raw@, bias@, a@).take(h as int),
        decreases n - h,
    {
        out.push(make_decay(calc, raw[h], bias[h], a[h]));
        proof {
            assert(out@ =~= decays(math(*calc), raw@, bias@, a@).take(h + 1));
        }
        h += 1;
    }
    proof {
        assert(out@ =~= decays(math(*calc), raw@, bias@, a@));
    }
    out
}

/// L2-normalizes each query and key head in place.
pub(crate) fn norm_keys<F: Fn(Calc) -> u32>(x: &mut Vec<u32>, dims: &GdnDims, eps: u32, calc: &F)
    requires
        computes(*calc),
        consistent(*dims),
        old(x)@.len() == dims.conv_dim,
    ensures
        final(x)@ == keys_normed(math(*calc), eps, old(x)@, *dims),
{
    let ghost m = math(*calc);
    let ghost before = x@;
    let n: usize = dims.n_k_heads;
    let len: usize = dims.head_k_dim;
    let measure = |s: &[u32]| -> (r: u32)
        ensures
            r == l2(math(*calc), eps, s@),
        { make_l2(calc, eps, s) };
    let scale = |h: usize, d: usize, v: u32, r: u32| -> (o: u32)
        ensures
            o == math(*calc)(Calc::Div(v, r)),
        { make(calc, Calc::Div(v, r)) };
    let ghost kd = dims.key_dim as int;
    proof {
        assert(n * len == kd) by (nonlinear_arith)
            requires
                kd == len * n,
        ;
    }
    // The queries, and then the keys.
    scale_segments(x, 0, n, len, measure, scale);
    let ghost mid = x@;
    scale_segments(x, dims.key_dim, n, len, measure, scale);
    proof {
        let now = x@;
        let l = len as int;
        let goal = keys_normed(m, eps, before, *dims);
        assert forall|i: int| 0 <= i < now.len() implies #[trigger] now[i] == goal[i] by {
            if i < kd {
                lemma_place(i, n as int, l);
                let h = i / l;
                let d = i % l;
                assert(segment_scaled(before, mid, 0, l, h, measure, scale));
                assert(mid[0 + h * l + d] == mid[i]);
                assert(before[0 + h * l + d] == before[i]);
                assert(now[i] == mid[i]);
            } else if i < 2 * kd {
                let j = i - kd;
                lemma_place(j, n as int, l);
                let h = j / l;
                let d = j % l;
                assert(segment_scaled(mid, now, kd, l, h, measure, scale));
                assert(now[kd + h * l + d] == now[i]);
                assert(mid[kd + h * l + d] == mid[i]);
                assert(mid[i] == before[i]);
                // The segment is that of head `n + h` among queries and keys.
                assert(i == (n + h) * l + d) by (nonlinear_arith)
                    requires
                        i == kd + h * l + d,
                        kd == n * l,
                ;
                vstd::arithmetic::div_mod::lemma_fundamental_div_mod_converse(i, l, n + h, d);
                assert((n + h) * l == kd + h * l) by (nonlinear_arith)
                    requires
                        kd == n * l,
                ;
                assert(h * l + l <= n * l) by (nonlinear_arith)
                    requires
                        h + 1 <= n,
                        0 <= l,
                ;
                assert(segment(mid, kd, l, h) =~= segment(before, 0, l, i / l));
            }
        }
        assert(now =~= goal);
    }
}

/// Gated RMSNorm of each head: `norm(x) * silu(z)`, in place.
pub(crate) fn gate_heads<F: Fn(Calc) -> u32>(
    x: &mut Vec<u32>,
    w: &[u32],
    z: &[u32],
    n: usize,
    len: usize,
    eps: u32,
    calc: &F,
)
    requires
        computes(*calc),
        old(x)@.len() == n * len,
        z@.len() == n * len,
        len <= w@.len(),
    ensures
        final(x)@ == heads_gated(math(*calc), eps, w@, old(x)@, z@, len as int),
{
    let ghost m = math(*calc);
    let ghost before = x@;
    let total: usize = z.len();
    let measure = |s: &[u32]| -> (r: u32)
        ensures
            r == rms(math(*calc), eps, s@),
        { make_rms(calc, eps, s) };
    let scale = |h: usize, d: usize, v: u32, r: u32| -> (o: u32)
        requires
            h < n,
            d < len,
        ensures
            o == math(*calc)(
                Calc::Mul(
                    weighted(math(*calc), w@[d as int], v, r),
                    silu(math(*calc), z@[h * len + d]),
                ),
            ),
        {
            proof {
                assert(h * len + len <= n * len) by (nonlinear_arith)
                    requires
                        h + 1 <= n,
                        0 <= len,
                ;
                assert(0 <= h * len) by (nonlinear_arith)
                    requires
                        0 <= h,
                        0 <= len,
                ;
                assert(total == n * len);
            }
            let a: u32 = make_weighted(calc, w[d], v, r);
            let g: u32 = make_silu(calc, z[h * len + d]);
            make(calc, Calc::Mul(a, g))
        };
    scale_segments(x, 0, n, len, measure, scale);
    proof {
        let now = x@;
        let l = len as int;
        let goal = heads_gated(m, eps, w@, before, z@, l);
        assert forall|i: int| 0 <= i < now.len() implies #[trigger] now[i] == goal[i] by {
            lemma_place(i, n as int, l);
            let h = i / l;
            let d = i % l;
            assert(segment_scaled(before, now, 0, l, h, measure, scale));
            assert(now[0 + h * l + d] == now[i]);
            assert(before[0 + h * l + d] == before[i]);
            assert((h as usize) as int == h && (d as usize) as int == d);
        }
        assert(now =~= goal);
    }
}

proof fn lemma_cell(dims: GdnDims, i: int)
    requires
        0 <= i < state_len(dims),
    ensures
        0 <= cell_head(dims, i) < dims.n_v_heads,
        0 <= cell_row(dims, i) < dims.head_k_dim,
        0 <= cell_column(dims, i) < dims.head_v_dim,
        cell(dims, cell_head(dims, i), cell_row(dims, i), cell_column(dims, i)) == i,
{
    let v = dims.head_v_dim as int;
    let k = dims.head_k_dim as int;
    let rows = dims.n_v_heads * k;
    assert(0 <= rows) by (nonlinear_arith)
        requires
            0 <= k,
            rows == dims.n_v_heads * k,
            0 <= dims.n_v_heads,
    ;
    lemma_place(i, rows, v);
    lemma_place(i / v, dims.n_v_heads as int, k);
}

/// The delta-rule recurrence: the state is corrected towards the values, and read
/// by the queries.
#[verifier::spinoff_prover]
#[verifier::rlimit(40)]
pub(crate) fn recur_vectors<F: Fn(Calc) -> u32>(
    state: &mut Vec<u32>,
    qkv: &[u32],
    beta: &[u32],
    decay: &[u32],
    out: &mut Vec<u32>,
    dims: &GdnDims,
    calc: &F,
)
    requires
        computes(*calc),
        consistent(*dims),
        old(state)@.len() == state_len(*dims),
        qkv@.len() == dims.conv_dim,
        beta@.len() == dims.n_v_heads,
        decay@.len() == dims.n_v_heads,
        old(out)@.len() == dims.value_dim,
    ensures
        final(state)@ == stepped(math(*calc), old(state)@, qkv@, beta@, decay@, *dims),
        final(out)@ == read_out(math(*calc), final(state)@, qkv@, *dims),
{
    let ghost m = math(*calc);
    let ghost before = state@;
    let n: u32 = make(calc, Calc::OfCount(dims.head_k_dim));
    let root: u32 = make(calc, Calc::Sqrt(n));
    let scale: u32 = make(calc, Calc::Div(ONE, root));
    let take_in = |acc: u32, s: u32, k: u32| -> (r: u32)
        ensures
            r == products(math(*calc))(acc, s, k),
        { make_multiply_add(calc, acc, s, k) };
    let correct = |b: u32, v: u32, p: u32| -> (r: u32)
        ensures
            r == math(*calc)(Calc::Mul(b, math(*calc)(Calc::Sub(v, p)))),
        {
            let d: u32 = make(calc, Calc::Sub(v, p));
            make(calc, Calc::Mul(b, d))
        };
    let update = |g: u32, s: u32, k: u32, d: u32| -> (r: u32)
        ensures
            r == math(*calc)(
                Calc::Add(math(*calc)(Calc::Mul(g, s)), math(*calc)(Calc::Mul(k, d))),
            ),
        {
            let a: u32 = make(calc, Calc::Mul(g, s));
            let b: u32 = make(calc, Calc::Mul(k, d));
            make(calc, Calc::Add(a, b))
        };
    let read = |acc: u32, s: u32, q: u32| -> (r: u32)
        ensures
            r == readings(math(*calc), scale)(acc, s, q),
        {
            let a: u32 = make(calc, Calc::Mul(scale, q));
            let b: u32 = make(calc, Calc::Mul(a, s));
            make(calc, Calc::Add(acc, b))
        };
    delta_step(
        state,
        qkv,
        beta,
        decay,
        out,
        dims,
        ZERO,
        take_in,
        correct,
        update,
        read,
    );
    proof {
        let d = *dims;
        let now = state@;
        let x = qkv@;
        let goal = stepped(m, before, x, beta@, decay@, d);
        assert forall|i: int| 0 <= i < now.len() implies #[trigger] now[i] == goal[i] by {
            lemma_cell(d, i);
            let h = cell_head(d, i);
            let a = cell_row(d, i);
            let b = cell_column(d, i);
            assert(head_stepped(
                before,
                now,
                x,
                beta@[h],
                decay@[h],
                out@,
                d,
                h,
                ZERO,
                take_in,
                correct,
                update,
                read,
            ));
            let (pred, delta) = choose|pred: Seq<u32>, delta: Seq<u32>|
                {
                    &&& #[trigger] predicted(before, x, d, h, ZERO, take_in, pred)
                    &&& #[trigger] corrected(x, beta@[h], pred, d, h, correct, delta)
                    &&& forall|a: int, b: int|
                        0 <= a < d.head_k_dim && 0 <= b < d.head_v_dim ==> update.ensures(
                            (decay@[h], before[cell(d, h, a, b)], key(x, d, h)[a], delta[b]),
                            now[#[trigger] cell(d, h, a, b)],
                        )
                    &&& forall|b: int|
                        0 <= b < d.head_v_dim ==> folded(
                            read,
                            ZERO,
                            state_column(now, d, h, b),
                            query(x, d, h),
                            out@[#[trigger] (h * d.head_v_dim + b)],
                        )
                };
            lemma_folded_is_fold(
                take_in,
                products(m),
                ZERO,
                state_column(before, d, h, b),
                key(x, d, h),
                pred[b],
            );
            assert(delta[b] == correction(m, before, x, beta@, d, h, b));
            assert(now[cell(d, h, a, b)] == now[i]);
        }
        assert(now =~= goal);
        let read_goal = read_out(m, now, x, d);
        assert forall|i: int| 0 <= i < out@.len() implies #[trigger] out@[i] == read_goal[i] by {
            let v = d.head_v_dim as int;
            assert(d.n_v_heads * v == d.value_dim) by (nonlinear_arith)
                requires
                    d.value_dim == v * d.n_v_heads,
            ;
            lemma_place(i, d.n_v_heads as int, v);
            let h = i / v;
            let b = i % v;
            assert(head_stepped(
                before,
                now,
                x,
                beta@[h],
                decay@[h],
                out@,
                d,
                h,
                ZERO,
                take_in,
                correct,
                update,
                read,
            ));
            assert(folded(
                read,
                ZERO,
                state_column(now, d, h, b),
                query(x, d, h),
                out@[h * d.head_v_dim + b],
            ));
            lemma_folded_is_fold(
                read,
                readings(m, scale),
                ZERO,
                state_column(now, d, h, b),
                query(x, d, h),
                out@[i],
            );
        }
        assert(out@ =~= read_goal);
    }
}

} // verus!
