//! Causal attention with grouped queries, in three kernels: scores with one thread for
//! each head and position, their exponentials with one thread for each head, and the
//! sum of values with one thread for each head and element.

use vstd::prelude::*;

use crate::calc::{
    computes, dot, fold2, make, make_multiply_add, make_raised, math, products, raised, sum, Calc,
    Math,
};
use crate::ops::kernels::norm::lemma_cell_head;
use crate::single::{ONE, ZERO};

verus! {

/// The bits of -1e30, below which no score is taken to lie.
pub const LOWEST_SCORE: u32 = 0xF149_F2CA;

/// The score of the key at position `t` for query head `h`: their product, times one
/// over the root of their length.
pub open spec fn scaled_score(
    m: Math,
    q: Seq<u32>,
    k_cache: Seq<u32>,
    h: int,
    t: int,
    len: int,
    kv_heads: int,
    group: int,
) -> u32 {
    let at = t * (kv_heads * len) + h / group * len;
    m(
        Calc::Mul(
            dot(m, q.subrange(h * len, h * len + len), k_cache.subrange(at, at + len)),
            m(Calc::Div(ONE, m(Calc::Sqrt(m(Calc::OfCount(len as usize)))))),
        ),
    )
}

proof fn lemma_kv_place(h: int, t: int, n_heads: int, kv_heads: int, len: int, slots: int, room: int)
    requires
        0 <= h < n_heads,
        0 < kv_heads <= n_heads,
        n_heads == n_heads / kv_heads * kv_heads,
        0 <= t < slots,
        0 <= len,
        slots * (kv_heads * len) <= room,
    ensures
        0 < n_heads / kv_heads,
        0 <= h / (n_heads / kv_heads) < kv_heads,
        0 <= h / (n_heads / kv_heads) * len,
        h / (n_heads / kv_heads) * len + len <= kv_heads * len,
        0 <= t * (kv_heads * len),
        t * (kv_heads * len) + kv_heads * len <= room,
        0 <= kv_heads * len,
        kv_heads * len <= room,
{
    let group = n_heads / kv_heads;
    assert(0 < group) by (nonlinear_arith)
        requires
            0 < n_heads,
            0 < kv_heads,
            n_heads == group * kv_heads,
    ;
    lemma_cell_head(h, group);
    let g = h / group;
    assert(g < kv_heads) by (nonlinear_arith)
        requires
            h == g * group + h % group,
            0 <= h % group,
            h < n_heads,
            n_heads == group * kv_heads,
            0 < group,
    ;
    assert(0 <= g * len && g * len + len <= kv_heads * len) by (nonlinear_arith)
        requires
            0 <= g,
            g + 1 <= kv_heads,
            0 <= len,
    ;
    let width = kv_heads * len;
    assert(0 <= width) by (nonlinear_arith)
        requires
            width == kv_heads * len,
            0 <= kv_heads,
            0 <= len,
    ;
    assert(0 <= t * width && t * width + width <= slots * width && width <= slots * width)
        by (nonlinear_arith)
        requires
            0 <= t,
            t + 1 <= slots,
            0 <= width,
    ;
}

/// One score: that of the key at position `t = idx % (pos + 1)` for query head
/// `h = idx / (pos + 1)`, at place `t` of row `h`.
pub fn attention_scores<F: Fn(Calc) -> u32>(
    idx: usize,
    q: &[u32],
    k_cache: &[u32],
    scores: &mut Vec<u32>,
    pos: usize,
    head_dim: usize,
    n_heads: usize,
    n_kv_heads: usize,
    max_seq: usize,
    calc: &F,
)
    requires
        computes(*calc),
        pos < max_seq,
        0 < n_kv_heads <= n_heads,
        n_heads == n_heads as int / n_kv_heads as int * n_kv_heads,
        n_heads * head_dim <= q@.len(),
        max_seq * (n_kv_heads * head_dim) <= k_cache@.len(),
        n_heads * max_seq <= old(scores)@.len(),
    ensures
        ({
            let h = idx as int / (pos + 1);
            let t = idx as int % (pos + 1);
            final(scores)@ == if h < n_heads {
                old(scores)@.update(
                    h * max_seq + t,
                    scaled_score(
                        math(*calc),
                        q@,
                        k_cache@,
                        h,
                        t,
                        head_dim as int,
                        n_kv_heads as int,
                        n_heads as int / n_kv_heads as int,
                    ),
                )
            } else {
                old(scores)@
            }
        }),
{
    let ghost m = math(*calc);
    let ghost len = head_dim as int;
    let seq_len: usize = pos + 1;
    let h: usize = idx / seq_len;
    let t: usize = idx % seq_len;
    if h >= n_heads {
        return;
    }
    let room: usize = q.len();
    let cached: usize = k_cache.len();
    let scored: usize = scores.len();
    proof {
        lemma_kv_place(
            h as int,
            t as int,
            n_heads as int,
            n_kv_heads as int,
            len,
            max_seq as int,
            cached as int,
        );
        assert(0 <= h * len && h * len + len <= n_heads * len) by (nonlinear_arith)
            requires
                0 <= h,
                h + 1 <= n_heads,
                0 <= len,
        ;
        assert(0 <= h * max_seq && h * max_seq + max_seq <= n_heads * max_seq) by (nonlinear_arith)
            requires
                0 <= h,
                h + 1 <= n_heads,
                0 <= max_seq,
        ;
    }
    let group: usize = n_heads / n_kv_heads;
    let q_base: usize = h * head_dim;
    let kv_dim: usize = n_kv_heads * head_dim;
    let kv_base: usize = h / group * head_dim;
    let k_off: usize = t * kv_dim + kv_base;
    let ghost qs = q@.subrange(h * len, h * len + len);
    let ghost ks = k_cache@.subrange(k_off as int, k_off + len);
    let count: u32 = make(calc, Calc::OfCount(head_dim));
    let root: u32 = make(calc, Calc::Sqrt(count));
    let scale: u32 = make(calc, Calc::Div(ONE, root));
    let mut product: u32 = ZERO;
    let mut d: usize = 0;
    proof {
        assert(qs.take(0).len() == 0);
    }
    while d < head_dim
        invariant
            d <= head_dim,
            len == head_dim,
            m == math(*calc),
            computes(*calc),
            room == q@.len(),
            cached == k_cache@.len(),
            q_base == h * len,
            q_base + head_dim <= room,
            k_off + head_dim <= cached,
            qs == q@.subrange(h * len, h * len + len),
            ks == k_cache@.subrange(k_off as int, k_off + len),
            product == fold2(products(m), ZERO, qs.take(d as int), ks.take(d as int)),
        decreases head_dim - d,
    {
        proof {
            assert(qs.take(d + 1).drop_last() =~= qs.take(d as int));
            assert(ks.take(d + 1).drop_last() =~= ks.take(d as int));
        }
        product = make_multiply_add(calc, product, q[q_base + d], k_cache[k_off + d]);
        d += 1;
    }
    proof {
        assert(qs.take(len) =~= qs);
        assert(ks.take(len) =~= ks);
    }
    let v: u32 = make(calc, Calc::Mul(product, scale));
    scores.set(h * max_seq + t, v);
}

/// The largest one of scores, and at least the lowest that is taken to be one.
pub open spec fn peak_score(m: Math, scores: Seq<u32>) -> u32
    decreases scores.len(),
{
    if scores.len() == 0 {
        LOWEST_SCORE
    } else {
        m(Calc::Max(peak_score(m, scores.drop_last()), scores.last()))
    }
}

/// The exponentials of scores, over the largest one.
pub open spec fn exponentials(m: Math, scores: Seq<u32>) -> Seq<u32> {
    Seq::new(scores.len(), |t: int| raised(m, scores[t], peak_score(m, scores)))
}

/// The softmax of one head: the exponentials of its scores, which are not divided by
/// their sum, and that sum.
pub fn attention_softmax<F: Fn(Calc) -> u32>(
    h: usize,
    scores: &[u32],
    weights: &mut Vec<u32>,
    sums: &mut Vec<u32>,
    pos: usize,
    n_heads: usize,
    max_seq: usize,
    calc: &F,
)
    requires
        computes(*calc),
        pos < max_seq,
        n_heads * max_seq <= scores@.len(),
        n_heads * max_seq <= old(weights)@.len(),
        n_heads <= old(sums)@.len(),
    ensures
        ({
            let m = math(*calc);
            let from = h * max_seq;
            let row = scores@.subrange(from, from + pos + 1);
            if h < n_heads {
                &&& final(weights)@.len() == old(weights)@.len()
                &&& forall|i: int|
                    0 <= i < old(weights)@.len() ==> #[trigger] final(weights)@[i] == if from <= i
                        <= from + pos {
                        exponentials(m, row)[i - from]
                    } else {
                        old(weights)@[i]
                    }
                &&& final(sums)@ == old(sums)@.update(h as int, sum(m, exponentials(m, row)))
            } else {
                final(weights)@ == old(weights)@ && final(sums)@ == old(sums)@
            }
        }),
{
    if h >= n_heads {
        return;
    }
    let ghost m = math(*calc);
    let scored: usize = scores.len();
    let weighed: usize = weights.len();
    let ghost before = weights@;
    proof {
        assert(0 <= h * max_seq && h * max_seq + max_seq <= n_heads * max_seq) by (nonlinear_arith)
            requires
                0 <= h,
                h + 1 <= n_heads,
                0 <= max_seq,
        ;
    }
    let from: usize = h * max_seq;
    let ghost row = scores@.subrange(from as int, from + pos + 1);
    let ghost up = exponentials(m, row);
    let mut top: u32 = LOWEST_SCORE;
    let mut t: usize = 0;
    proof {
        assert(row.take(0).len() == 0);
    }
    while t <= pos
        invariant
            t <= pos + 1,
            pos < max_seq,
            from + max_seq <= scored,
            scored == scores@.len(),
            m == math(*calc),
            computes(*calc),
            row == scores@.subrange(from as int, from + pos + 1),
            top == peak_score(m, row.take(t as int)),
        decreases pos + 1 - t,
    {
        proof {
            assert(row.take(t + 1).drop_last() =~= row.take(t as int));
        }
        top = make(calc, Calc::Max(top, scores[from + t]));
        t += 1;
    }
    proof {
        assert(row.take(t as int) =~= row);
        assert(up.take(0).len() == 0);
    }
    let mut total: u32 = ZERO;
    let mut t: usize = 0;
    while t <= pos
        invariant
            t <= pos + 1,
            pos < max_seq,
            from + max_seq <= scored,
            from + max_seq <= weighed,
            scored == scores@.len(),
            weighed == weights@.len(),
            weighed == before.len(),
            m == math(*calc),
            computes(*calc),
            row == scores@.subrange(from as int, from + pos + 1),
            up == exponentials(m, row),
            top == peak_score(m, row),
            total == sum(m, up.take(t as int)),
            forall|i: int|
                0 <= i < weighed ==> #[trigger] weights@[i] == if from <= i < from + t {
                    up[i - from]
                } else {
                    before[i]
                },
        decreases pos + 1 - t,
    {
        let w: u32 = make_raised(calc, scores[from + t], top);
        weights.set(from + t, w);
        proof {
            assert(up.take(t + 1).drop_last() =~= up.take(t as int));
            assert(w == up[t as int]);
        }
        total = make(calc, Calc::Add(total, w));
        t += 1;
    }
    proof {
        assert(up.take(t as int) =~= up);
    }
    sums.set(h, total);
}

/// Element `d` of what attention gives for query head `h`: the sum of the values of its
/// K/V head with their weights, over the sum of those.
pub open spec fn weighted_value(
    m: Math,
    v_cache: Seq<u32>,
    weights: Seq<u32>,
    total: u32,
    h: int,
    d: int,
    len: int,
    kv_heads: int,
    group: int,
) -> u32 {
    m(
        Calc::Div(
            fold2(
                products(m),
                ZERO,
                weights,
                Seq::new(
                    weights.len(),
                    |t: int| v_cache[t * (kv_heads * len) + h / group * len + d],
                ),
            ),
            total,
        ),
    )
}

/// One element of what attention gives.
pub fn attention_output<F: Fn(Calc) -> u32>(
    idx: usize,
    v_cache: &[u32],
    weights: &[u32],
    sums: &[u32],
    out: &mut Vec<u32>,
    pos: usize,
    head_dim: usize,
    n_heads: usize,
    n_kv_heads: usize,
    max_seq: usize,
    calc: &F,
)
    requires
        computes(*calc),
        pos < max_seq,
        0 < n_kv_heads <= n_heads,
        n_heads == n_heads as int / n_kv_heads as int * n_kv_heads,
        max_seq * (n_kv_heads * head_dim) <= v_cache@.len(),
        n_heads * max_seq <= weights@.len(),
        n_heads <= sums@.len(),
        n_heads * head_dim <= old(out)@.len(),
    ensures
        final(out)@ == if idx < n_heads * head_dim {
            let h = idx as int / head_dim as int;
            let from = h * max_seq;
            old(out)@.update(
                idx as int,
                weighted_value(
                    math(*calc),
                    v_cache@,
                    weights@.subrange(from, from + pos + 1),
                    sums@[h],
                    h,
                    idx as int % head_dim as int,
                    head_dim as int,
                    n_kv_heads as int,
                    n_heads as int / n_kv_heads as int,
                ),
            )
        } else {
            old(out)@
        },
{
    let ghost m = math(*calc);
    let ghost len = head_dim as int;
    if head_dim == 0 {
        proof {
            assert(n_heads * head_dim == 0) by (nonlinear_arith)
                requires
                    head_dim == 0,
            ;
        }
        return;
    }
    let h: usize = idx / head_dim;
    let d: usize = idx % head_dim;
    proof {
        lemma_cell_head(idx as int, len);
        if h < n_heads {
            assert(idx < n_heads * head_dim) by (nonlinear_arith)
                requires
                    idx == h * head_dim + d,
                    d < head_dim,
                    h + 1 <= n_heads,
            ;
        } else {
            assert(idx >= n_heads * head_dim) by (nonlinear_arith)
                requires
                    idx == h * head_dim + d,
                    0 <= d,
                    h >= n_heads,
                    0 <= head_dim,
            ;
        }
    }
    if h >= n_heads {
        return;
    }
    let cached: usize = v_cache.len();
    let weighed: usize = weights.len();
    proof {
        lemma_kv_place(
            h as int,
            0,
            n_heads as int,
            n_kv_heads as int,
            len,
            max_seq as int,
            cached as int,
        );
        assert(0 <= h * max_seq && h * max_seq + max_seq <= n_heads * max_seq) by (nonlinear_arith)
            requires
                0 <= h,
                h + 1 <= n_heads,
                0 <= max_seq,
        ;
    }
    let group: usize = n_heads / n_kv_heads;
    let kv_dim: usize = n_kv_heads * head_dim;
    let kv_base: usize = h / group * head_dim;
    let from: usize = h * max_seq;
    let ghost row = weights@.subrange(from as int, from + pos + 1);
    let ghost vals = Seq::new(
        row.len(),
        |t: int| v_cache@[t * (n_kv_heads * len) + h as int / group as int * len + d],
    );
    let mut acc: u32 = ZERO;
    let mut t: usize = 0;
    proof {
        assert(row.take(0).len() == 0);
    }
    while t <= pos
        invariant
            t <= pos + 1,
            pos < max_seq,
            h < n_heads,
            d < head_dim,
            len == head_dim,
            0 < n_kv_heads <= n_heads,
            n_heads == n_heads as int / n_kv_heads as int * n_kv_heads,
            max_seq * (n_kv_heads * head_dim) <= cached,
            cached == v_cache@.len(),
            weighed == weights@.len(),
            from + max_seq <= weighed,
            group == n_heads as int / n_kv_heads as int,
            kv_dim == n_kv_heads * head_dim,
            kv_base == h as int / group as int * len,
            m == math(*calc),
            computes(*calc),
            row == weights@.subrange(from as int, from + pos + 1),
            vals == Seq::new(
                row.len(),
                |t: int| v_cache@[t * (n_kv_heads * len) + h as int / group as int * len + d],
            ),
            acc == fold2(products(m), ZERO, row.take(t as int), vals.take(t as int)),
        decreases pos + 1 - t,
    {
        proof {
            lemma_kv_place(
                h as int,
                t as int,
                n_heads as int,
                n_kv_heads as int,
                len,
                max_seq as int,
                cached as int,
            );
            assert(row.take(t + 1).drop_last() =~= row.take(t as int));
            assert(vals.take(t + 1).drop_last() =~= vals.take(t as int));
        }
        let v_off: usize = t * kv_dim + kv_base;
        acc = make_multiply_add(calc, acc, weights[from + t], v_cache[v_off + d]);
        t += 1;
    }
    proof {
        assert(row.take(t as int) =~= row);
        assert(vals.take(t as int) =~= vals);
    }
    let v: u32 = make(calc, Calc::Div(acc, sums[h]));
    out.set(idx, v);
}

} // verus!
