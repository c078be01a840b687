//! Attention of one token over all cached positions.

use vstd::prelude::*;

use crate::model::llama::kernels::{folded, of_slice, total2, total3, total_slice};

verus! {

/// Whether `f` gives `r` for slices that hold `a` and `b`.
pub open spec fn of_slices<T, F: Fn(&[T], &[T]) -> T>(f: F, a: Seq<T>, b: Seq<T>, r: T) -> bool {
    exists|s: &[T], t: &[T]| s@ == a && t@ == b && #[trigger] f.ensures((s, t), r)
}

/// Whether every element of `after` is what `f` gives for that of `before` and
/// `m`.
pub open spec fn each<T, F: Fn(T, T) -> T>(f: F, before: Seq<T>, m: T, after: Seq<T>) -> bool {
    &&& after.len() == before.len()
    &&& forall|i: int| 0 <= i < before.len() ==> f.ensures((before[i], m), #[trigger] after[i])
}

/// Element `i` of every vector of `values`.
pub open spec fn column<T>(values: Seq<Vec<T>>, i: int) -> Seq<T> {
    Seq::new(values.len(), |t: int| values[t]@[i])
}

/// Which K/V head a query head attends to: `group` query heads share one.
pub open spec fn kv_head(h: int, group: int) -> int {
    h / group
}

/// Whether `scores` holds the score of query head `h` against every key.
pub open spec fn scored<T, D: Fn(&[T], &[T]) -> T>(
    q: Seq<T>,
    keys: Seq<Vec<T>>,
    head_dim: int,
    group: int,
    h: int,
    score: D,
    scores: Seq<T>,
) -> bool {
    let kv = kv_head(h, group);
    &&& scores.len() == keys.len()
    &&& forall|t: int|
        0 <= t < keys.len() ==> of_slices(
            score,
            q.subrange(h * head_dim, h * head_dim + head_dim),
            keys[t]@.subrange(kv * head_dim, kv * head_dim + head_dim),
            #[trigger] scores[t],
        )
}

/// Whether `weights` is the softmax of `scores`: `raise` of each score and the
/// largest of them, divided (`share`) by the `total` of what that gives.
pub open spec fn softened<
    T,
    L: Fn(&[T]) -> T,
    R: Fn(T, T) -> T,
    S: Fn(&[T]) -> T,
    V: Fn(T, T) -> T,
>(
    scores: Seq<T>,
    largest: L,
    raise: R,
    total: S,
    share: V,
    weights: Seq<T>,
) -> bool {
    exists|m: T, raised: Seq<T>, sum: T| #[trigger]
        of_slice(largest, scores, m) && #[trigger] each(raise, scores, m, raised) && #[trigger]
        of_slice(total, raised, sum) && each(share, raised, sum, weights)
}

/// Whether query head `h` of `out` is its attention: the values of its K/V head
/// at all positions, weighted by the softmax of its scores.
pub open spec fn head_attends<
    T,
    D: Fn(&[T], &[T]) -> T,
    L: Fn(&[T]) -> T,
    R: Fn(T, T) -> T,
    S: Fn(&[T]) -> T,
    V: Fn(T, T) -> T,
    A: Fn(T, T, T) -> T,
>(
    q: Seq<T>,
    keys: Seq<Vec<T>>,
    values: Seq<Vec<T>>,
    head_dim: int,
    group: int,
    h: int,
    zero: T,
    score: D,
    largest: L,
    raise: R,
    total: S,
    share: V,
    take_in: A,
    out: Seq<T>,
) -> bool {
    exists|scores: Seq<T>, weights: Seq<T>| #[trigger]
        scored(q, keys, head_dim, group, h, score, scores) && #[trigger] softened(
            scores,
            largest,
            raise,
            total,
            share,
            weights,
        ) && forall|d: int|
            0 <= d < head_dim ==> folded(
                take_in,
                zero,
                weights,
                column(values, kv_head(h, group) * head_dim + d),
                #[trigger] out[h * head_dim + d],
            )
}

proof fn lemma_kv_head(h: int, n_heads: int, n_kv_heads: int, group: int, head_dim: int)
    requires
        0 <= h < n_heads,
        n_heads <= n_kv_heads * group,
        0 < group,
        0 <= head_dim,
    ensures
        0 <= kv_head(h, group) < n_kv_heads,
        0 <= kv_head(h, group) * head_dim,
        kv_head(h, group) * head_dim + head_dim <= n_kv_heads * head_dim,
{
    let kv = kv_head(h, group);
    vstd::arithmetic::div_mod::lemma_fundamental_div_mod(h, group);
    assert(0 <= kv < n_kv_heads) by (nonlinear_arith)
        requires
            h == group * kv + h % group,
            0 <= h % group < group,
            0 <= h,
            h < n_kv_heads * group,
            0 < group,
    ;
    assert(0 <= kv * head_dim) by (nonlinear_arith)
        requires
            0 <= kv,
            0 <= head_dim,
    ;
    assert(kv * head_dim + head_dim <= n_kv_heads * head_dim) by (nonlinear_arith)
        requires
            kv + 1 <= n_kv_heads,
            0 <= head_dim,
    ;
}

fn apply_each<T: Copy, F: Fn(T, T) -> T>(xs: &mut Vec<T>, m: T, f: &F)
    requires
        total2(*f),
    ensures
        each(*f, old(xs)@, m, final(xs)@),
{
    let n: usize = xs.len();
    let mut i: usize = 0;
    while i < n
        invariant
            i <= n,
            n == xs@.len(),
            n == old(xs)@.len(),
            total2(*f),
            forall|j: int| 0 <= j < i ==> f.ensures((old(xs)@[j], m), #[trigger] xs@[j]),
            forall|j: int| i <= j < n ==> #[trigger] xs@[j] == old(xs)@[j],
        decreases n - i,
    {
        let y = f(xs[i], m);
        xs.set(i, y);
        i += 1;
    }
}

fn score_head<T: Copy, D: Fn(&[T], &[T]) -> T>(
    q: &[T],
    keys: &Vec<Vec<T>>,
    head_dim: usize,
    group: usize,
    h: usize,
    score: &D,
) -> (scores: Vec<T>)
    requires
        0 < group,
        h * head_dim + head_dim <= q@.len(),
        forall|t: int|
            0 <= t < keys@.len() ==> kv_head(h as int, group as int) * head_dim + head_dim <= (
            #[trigger] keys@[t])@.len(),
        forall|a: &[T], b: &[T]| #[trigger] score.requires((a, b)),
    ensures
        scored(q@, keys@, head_dim as int, group as int, h as int, *score, scores@),
{
    let q_len: usize = q.len();
    let ghost kv = kv_head(h as int, group as int);
    proof {
        assert(0 <= h * head_dim) by (nonlinear_arith);
        assert(0 <= kv) by (nonlinear_arith)
            requires
                kv == h as int / group as int,
                0 < group,
        ;
        assert(0 <= kv * head_dim) by (nonlinear_arith)
            requires
                0 <= kv,
        ;
    }
    let q_start: usize = h * head_dim;
    let q_head = vstd::slice::slice_subrange(q, q_start, q_start + head_dim);
    let kv_index: usize = h / group;
    let mut scores: Vec<T> = Vec::new();
    let mut t: usize = 0;
    while t < keys.len()
        invariant
            t <= keys@.len(),
            kv == kv_head(h as int, group as int),
            kv_index == kv,
            0 <= kv * head_dim,
            q_head@ == q@.subrange(h * head_dim, h * head_dim + head_dim),
            forall|t: int|
                0 <= t < keys@.len() ==> kv * head_dim + head_dim <= (#[trigger] keys@[t])@.len(),
            forall|a: &[T], b: &[T]| #[trigger] score.requires((a, b)),
            scores@.len() == t,
            forall|u: int|
                0 <= u < t ==> of_slices(
                    *score,
                    q@.subrange(h * head_dim, h * head_dim + head_dim),
                    keys@[u]@.subrange(kv * head_dim, kv * head_dim + head_dim),
                    #[trigger] scores@[u],
                ),
        decreases keys@.len() - t,
    {
        let key = &keys[t];
        let key_len: usize = key.len();
        proof {
            assert(kv * head_dim + head_dim <= keys@[t as int]@.len());
        }
        let k_start: usize = kv_index * head_dim;
        let k_head = vstd::slice::slice_subrange(key.as_slice(), k_start, k_start + head_dim);
        let s = score(q_head, k_head);
        proof {
            assert(of_slices(
                *score,
                q@.subrange(h * head_dim, h * head_dim + head_dim),
                keys@[t as int]@.subrange(kv * head_dim, kv * head_dim + head_dim),
                s,
            ));
        }
        scores.push(s);
        t += 1;
    }
    scores
}

fn weigh_column<T: Copy, A: Fn(T, T, T) -> T>(
    weights: &Vec<T>,
    values: &Vec<Vec<T>>,
    i: usize,
    zero: T,
    take_in: &A,
) -> (acc: T)
    requires
        weights@.len() == values@.len(),
        forall|t: int| 0 <= t < values@.len() ==> i < (#[trigger] values@[t])@.len(),
        total3(*take_in),
    ensures
        folded(*take_in, zero, weights@, column(values@, i as int), acc),
{
    let ghost col = column(values@, i as int);
    let mut acc = zero;
    let mut t: usize = 0;
    proof {
        assert(weights@.take(0).len() == 0);
    }
    while t < weights.len()
        invariant
            t <= weights@.len(),
            weights@.len() == values@.len(),
            forall|t: int| 0 <= t < values@.len() ==> i < (#[trigger] values@[t])@.len(),
            total3(*take_in),
            col == column(values@, i as int),
            folded(*take_in, zero, weights@.take(t as int), col.take(t as int), acc),
        decreases weights@.len() - t,
    {
        let before = acc;
        let row = &values[t];
        acc = take_in(before, weights[t], row[i]);
        proof {
            let w1 = weights@.take(t + 1);
            let c1 = col.take(t + 1);
            assert(w1.drop_last() =~= weights@.take(t as int));
            assert(c1.drop_last() =~= col.take(t as int));
            assert(take_in.ensures((before, w1.last(), c1.last()), acc));
        }
        t += 1;
    }
    proof {
        assert(weights@.take(t as int) =~= weights@);
        assert(col.take(t as int) =~= col);
    }
    acc
}

/// Attention of one token over all cached positions, head by head, with grouped
/// K/V heads. Writes the first `n_heads * head_dim` elements of `out`.
pub fn attend<
    T: Copy,
    D: Fn(&[T], &[T]) -> T,
    L: Fn(&[T]) -> T,
    R: Fn(T, T) -> T,
    S: Fn(&[T]) -> T,
    V: Fn(T, T) -> T,
    A: Fn(T, T, T) -> T,
>(
    q: &[T],
    keys: &Vec<Vec<T>>,
    values: &Vec<Vec<T>>,
    out: &mut Vec<T>,
    n_heads: usize,
    n_kv_heads: usize,
    group: usize,
    head_dim: usize,
    zero: T,
    score: D,
    largest: L,
    raise: R,
    total: S,
    share: V,
    take_in: A,
)
    requires
        n_heads * head_dim <= q@.len(),
        n_heads * head_dim <= old(out)@.len(),
        0 < n_heads ==> 0 < group,
        n_heads <= n_kv_heads * group,
        keys@.len() == values@.len(),
        forall|t: int|
            0 <= t < keys@.len() ==> n_kv_heads * head_dim <= (#[trigger] keys@[t])@.len(),
        forall|t: int|
            0 <= t < values@.len() ==> n_kv_heads * head_dim <= (#[trigger] values@[t])@.len(),
        forall|a: &[T], b: &[T]| #[trigger] score.requires((a, b)),
        total_slice(largest),
        total2(raise),
        total_slice(total),
        total2(share),
        total3(take_in),
    ensures
        final(out)@.len() == old(out)@.len(),
        forall|h: int|
            0 <= h < n_heads ==> #[trigger] head_attends(
                q@,
                keys@,
                values@,
                head_dim as int,
                group as int,
                h,
                zero,
                score,
                largest,
                raise,
                total,
                share,
                take_in,
                final(out)@,
            ),
        forall|i: int|
            n_heads * head_dim <= i < old(out)@.len() ==> #[trigger] final(out)@[i] == old(out)@[i],
{
    let out_len: usize = out.len();
    let ghost hd = head_dim as int;
    let mut h: usize = 0;
    proof {
        assert(0 * head_dim == 0);
    }
    while h < n_heads
        invariant
            h <= n_heads,
            hd == head_dim,
            out_len == out@.len(),
            out_len == old(out)@.len(),
            n_heads * head_dim <= q@.len(),
            n_heads * head_dim <= out_len,
            0 < n_heads ==> 0 < group,
            n_heads <= n_kv_heads * group,
            keys@.len() == values@.len(),
            forall|t: int|
                0 <= t < keys@.len() ==> n_kv_heads * head_dim <= (#[trigger] keys@[t])@.len(),
            forall|t: int|
                0 <= t < values@.len() ==> n_kv_heads * head_dim <= (#[trigger] values@[t])@.len(),
            forall|a: &[T], b: &[T]| #[trigger] score.requires((a, b)),
            total_slice(largest),
            total2(raise),
            total_slice(total),
            total2(share),
            total3(take_in),
            forall|g: int|
                0 <= g < h ==> #[trigger] head_attends(
                    q@,
                    keys@,
                    values@,
                    hd,
                    group as int,
                    g,
                    zero,
                    score,
                    largest,
                    raise,
                    total,
                    share,
                    take_in,
                    out@,
                ),
            forall|i: int| h * head_dim <= i < out_len ==> #[trigger] out@[i] == old(out)@[i],
        decreases n_heads - h,
    {
        let ghost kv = kv_head(h as int, group as int);
        proof {
            lemma_kv_head(h as int, n_heads as int, n_kv_heads as int, group as int, hd);
            assert(h * head_dim + head_dim <= n_heads * head_dim) by (nonlinear_arith)
                requires
                    h + 1 <= n_heads,
            ;
            assert(0 <= h * head_dim) by (nonlinear_arith);
            assert((h + 1) * head_dim == h * head_dim + head_dim) by (nonlinear_arith);
        }
        // Attention scores for this head against all cached positions.
        let mut weights = score_head(q, keys, head_dim, group, h, &score);
        let ghost scores = weights@;
        // Softmax
        let m = largest(weights.as_slice());
        proof {
            assert(of_slice(largest, scores, m));
        }
        apply_each(&mut weights, m, &raise);
        let ghost raised = weights@;
        let sum = total(weights.as_slice());
        proof {
            assert(of_slice(total, raised, sum));
        }
        apply_each(&mut weights, sum, &share);
        proof {
            assert(each(raise, scores, m, raised));
            assert(each(share, raised, sum, weights@));
            assert(softened(scores, largest, raise, total, share, weights@));
        }
        // Weighted sum of V
        let start: usize = h * head_dim;
        let kv_index: usize = h / group;
        let ghost at_start = out@;
        let mut d: usize = 0;
        while d < head_dim
            invariant
                d <= head_dim,
                hd == head_dim,
                start == h * head_dim,
                start + head_dim <= out_len,
                kv_index == kv,
                kv == kv_head(h as int, group as int),
                0 <= kv * head_dim,
                kv * head_dim + head_dim <= n_kv_heads * head_dim,
                out_len == out@.len(),
                out_len == old(out)@.len(),
                out_len == at_start.len(),
                weights@.len() == values@.len(),
                forall|t: int|
                    0 <= t < values@.len() ==> n_kv_heads * head_dim <= (
                    #[trigger] values@[t])@.len(),
                total3(take_in),
                forall|e: int|
                    0 <= e < d ==> folded(
                        take_in,
                        zero,
                        weights@,
                        column(values@, kv * head_dim + e),
                        #[trigger] out@[h * head_dim + e],
                    ),
                forall|i: int| 0 <= i < start ==> #[trigger] out@[i] == at_start[i],
                forall|i: int| start + d <= i < out_len ==> #[trigger] out@[i] == old(out)@[i],
            decreases head_dim - d,
        {
            let y = if weights.len() == 0 {
                proof {
                    assert(folded(
                        take_in,
                        zero,
                        weights@,
                        column(values@, kv * head_dim + d),
                        zero,
                    ));
                }
                zero
            } else {
                let row_len: usize = values[0].len();
                proof {
                    assert(kv * head_dim + d < row_len);
                }
                weigh_column(&weights, values, kv_index * head_dim + d, zero, &take_in)
            };
            out.set(start + d, y);
            d += 1;
        }
        proof {
            assert(head_attends(
                q@,
                keys@,
                values@,
                hd,
                group as int,
                h as int,
                zero,
                score,
                largest,
                raise,
                total,
                share,
                take_in,
                out@,
            ));
            assert forall|g: int| 0 <= g < h implies #[trigger] head_attends(
                q@,
                keys@,
                values@,
                hd,
                group as int,
                g,
                zero,
                score,
                largest,
                raise,
                total,
                share,
                take_in,
                out@,
            ) by {
                assert(head_attends(
                    q@,
                    keys@,
                    values@,
                    hd,
                    group as int,
                    g,
                    zero,
                    score,
                    largest,
                    raise,
                    total,
                    share,
                    take_in,
                    at_start,
                ));
                let (s, w) = choose|s: Seq<T>, w: Seq<T>| #[trigger]
                    scored(q@, keys@, hd, group as int, g, score, s) && #[trigger] softened(
                        s,
                        largest,
                        raise,
                        total,
                        share,
                        w,
                    ) && forall|d: int|
                        0 <= d < hd ==> folded(
                            take_in,
                            zero,
                            w,
                            column(values@, kv_head(g, group as int) * hd + d),
                            #[trigger] at_start[g * hd + d],
                        );
                assert(g * hd + hd <= h * hd) by (nonlinear_arith)
                    requires
                        g + 1 <= h,
                        0 <= hd,
                ;
                assert(0 <= g * hd) by (nonlinear_arith)
                    requires
                        0 <= g,
                        0 <= hd,
                ;
                assert forall|d: int| 0 <= d < hd implies folded(
                    take_in,
                    zero,
                    w,
                    column(values@, kv_head(g, group as int) * hd + d),
                    #[trigger] out@[g * hd + d],
                ) by {
                    assert(out@[g * hd + d] == at_start[g * hd + d]);
                }
            }
        }
        h += 1;
    }
}

} // verus!
