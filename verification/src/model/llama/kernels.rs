//! The loops of a forward pass: which elements each operation reads and writes.
//! The arithmetic on the elements is the caller's, handed in as functions.

use vstd::prelude::*;

verus! {

// ── Elements and folds ──────────────────────────────────────────────────────

/// Whether `f` can be applied to every pair of values.
pub open spec fn total2<A, B, C, F: Fn(A, B) -> C>(f: F) -> bool {
    forall|a: A, b: B| #[trigger] f.requires((a, b))
}

/// Whether `f` can be applied to every triple of values.
pub open spec fn total3<A, B, C, D, F: Fn(A, B, C) -> D>(f: F) -> bool {
    forall|a: A, b: B, c: C| #[trigger] f.requires((a, b, c))
}

/// Whether `f` can be applied to every slice.
pub open spec fn total_slice<T, R, F: Fn(&[T]) -> R>(f: F) -> bool {
    forall|s: &[T]| #[trigger] f.requires((s,))
}

/// Whether `f` gives `r` for a slice that holds `items`.
pub open spec fn of_slice<T, R, F: Fn(&[T]) -> R>(f: F, items: Seq<T>, r: R) -> bool {
    exists|s: &[T]| s@ == items && #[trigger] f.ensures((s,), r)
}

/// Whether `total` comes from `start` by taking in the pairs `a[i]`, `b[i]` one
/// after the other.
pub open spec fn folded<T, F: Fn(T, T, T) -> T>(
    f: F,
    start: T,
    a: Seq<T>,
    b: Seq<T>,
    total: T,
) -> bool
    decreases a.len(),
{
    if a.len() == 0 {
        total == start
    } else {
        exists|before: T|
            folded(f, start, a.drop_last(), b.drop_last(), before) && #[trigger] f.ensures(
                (before, a.last(), b.last()),
                total,
            )
    }
}

/// Residual stream: every element of `delta` is taken into `x`.
pub fn residual_add<T: Copy, F: Fn(T, T) -> T>(x: &mut Vec<T>, delta: &[T], plus: F)
    requires
        old(x)@.len() <= delta@.len(),
        total2(plus),
    ensures
        final(x)@.len() == old(x)@.len(),
        forall|i: int|
            0 <= i < old(x)@.len() ==> plus.ensures(
                (old(x)@[i], delta@[i]),
                #[trigger] final(x)@[i],
            ),
{
    let n: usize = x.len();
    let mut i: usize = 0;
    while i < n
        invariant
            i <= n,
            n == x@.len(),
            n == old(x)@.len(),
            n <= delta@.len(),
            total2(plus),
            forall|j: int|
                0 <= j < i ==> plus.ensures((old(x)@[j], delta@[j]), #[trigger] x@[j]),
            forall|j: int| i <= j < n ==> #[trigger] x@[j] == old(x)@[j],
        decreases n - i,
    {
        let y = plus(x[i], delta[i]);
        x.set(i, y);
        i += 1;
    }
}

/// Normalization of a whole vector: `measure` takes one value of all of `x`, and
/// every element becomes `scale(weight, element, measured)`. As many elements are
/// written as `x`, `weight` and `out` all have.
pub fn norm_into<T: Copy, M: Fn(&[T]) -> T, S: Fn(T, T, T) -> T>(
    x: &[T],
    weight: &[T],
    out: &mut Vec<T>,
    measure: M,
    scale: S,
)
    requires
        total_slice(measure),
        total3(scale),
    ensures
        final(out)@.len() == old(out)@.len(),
        exists|m: T| #[trigger]
            of_slice(measure, x@, m) && forall|i: int|
                0 <= i < old(out)@.len() ==> if i < x@.len() && i < weight@.len() {
                    scale.ensures((weight@[i], x@[i], m), #[trigger] final(out)@[i])
                } else {
                    final(out)@[i] == old(out)@[i]
                },
{
    let m = measure(x);
    proof {
        assert(of_slice(measure, x@, m));
    }
    let n: usize = out.len();
    let mut i: usize = 0;
    while i < n && i < x.len() && i < weight.len()
        invariant
            i <= n,
            i <= x@.len(),
            i <= weight@.len(),
            n == out@.len(),
            n == old(out)@.len(),
            total3(scale),
            forall|j: int|
                0 <= j < i ==> scale.ensures((weight@[j], x@[j], m), #[trigger] out@[j]),
            forall|j: int| i <= j < n ==> #[trigger] out@[j] == old(out)@[j],
        decreases n - i,
    {
        let y = scale(weight[i], x[i], m);
        out.set(i, y);
        i += 1;
    }
}

/// The elements of segment `h` among segments of `len` elements each, the first
/// at `base`.
pub open spec fn segment<T>(x: Seq<T>, base: int, len: int, h: int) -> Seq<T> {
    x.subrange(base + h * len, base + h * len + len)
}

/// Whether segment `h` of `after` is that of `before`, scaled: the element at
/// place `d` is what `scale` gives for `h`, `d`, the element and what is measured
/// of the whole segment.
pub open spec fn segment_scaled<T, M: Fn(&[T]) -> T, S: Fn(usize, usize, T, T) -> T>(
    before: Seq<T>,
    after: Seq<T>,
    base: int,
    len: int,
    h: int,
    measure: M,
    scale: S,
) -> bool {
    exists|m: T| #[trigger]
        of_slice(measure, segment(before, base, len, h), m) && forall|d: int|
            0 <= d < len ==> scale.ensures(
                (h as usize, d as usize, before[base + h * len + d], m),
                #[trigger] after[base + h * len + d],
            )
}

proof fn lemma_segment_bounds(h: int, n: int, len: int)
    requires
        0 <= h < n,
        0 <= len,
    ensures
        0 <= h * len,
        h * len + len <= n * len,
        (h + 1) * len == h * len + len,
{
    assert(0 <= h * len) by (nonlinear_arith)
        requires
            0 <= h,
            0 <= len,
    ;
    assert(h * len + len <= n * len) by (nonlinear_arith)
        requires
            h + 1 <= n,
            0 <= len,
    ;
    assert((h + 1) * len == h * len + len) by (nonlinear_arith);
}

/// Scales `n` segments of `len` elements each, the first at `base`, in place:
/// each by what is measured of it. This is normalization head by head, with or
/// without weights and gates.
pub fn scale_segments<T: Copy, M: Fn(&[T]) -> T, S: Fn(usize, usize, T, T) -> T>(
    x: &mut Vec<T>,
    base: usize,
    n: usize,
    len: usize,
    measure: M,
    scale: S,
)
    requires
        base + n * len <= old(x)@.len(),
        total_slice(measure),
        forall|h: usize, d: usize, v: T, m: T|
            h < n && d < len ==> #[trigger] scale.requires((h, d, v, m)),
    ensures
        final(x)@.len() == old(x)@.len(),
        forall|h: int|
            0 <= h < n ==> #[trigger] segment_scaled(
                old(x)@,
                final(x)@,
                base as int,
                len as int,
                h,
                measure,
                scale,
            ),
        forall|i: int|
            0 <= i < old(x)@.len() && !(base <= i < base + n * len) ==> #[trigger] final(x)@[i]
                == old(x)@[i],
{
    let total: usize = x.len();
    let ghost before = x@;
    let mut h: usize = 0;
    proof {
        assert(0 * len == 0);
    }
    while h < n
        invariant
            h <= n,
            total == x@.len(),
            total == before.len(),
            base + n * len <= total,
            total_slice(measure),
            forall|h: usize, d: usize, v: T, m: T|
                h < n && d < len ==> #[trigger] scale.requires((h, d, v, m)),
            forall|g: int|
                0 <= g < h ==> #[trigger] segment_scaled(
                    before,
                    x@,
                    base as int,
                    len as int,
                    g,
                    measure,
                    scale,
                ),
            forall|i: int| 0 <= i < base ==> #[trigger] x@[i] == before[i],
            forall|i: int| base + h * len <= i < total ==> #[trigger] x@[i] == before[i],
        decreases n - h,
    {
        proof {
            lemma_segment_bounds(h as int, n as int, len as int);
        }
        let start: usize = base + h * len;
        let m = measure(vstd::slice::slice_subrange(x.as_slice(), start, start + len));
        let ghost at_start = x@;
        proof {
            assert(x@.subrange(start as int, start + len) =~= segment(
                before,
                base as int,
                len as int,
                h as int,
            ));
            assert(of_slice(measure, segment(before, base as int, len as int, h as int), m));
        }
        let mut d: usize = 0;
        while d < len
            invariant
                d <= len,
                h < n,
                start == base + h * len,
                start + len <= total,
                total == x@.len(),
                total == before.len(),
                total == at_start.len(),
                forall|h: usize, d: usize, v: T, m: T|
                    h < n && d < len ==> #[trigger] scale.requires((h, d, v, m)),
                forall|i: int| 0 <= i < start ==> #[trigger] x@[i] == at_start[i],
                forall|i: int| start <= i < total ==> #[trigger] at_start[i] == before[i],
                forall|e: int|
                    0 <= e < d ==> scale.ensures(
                        (h, e as usize, before[base + h * len + e], m),
                        #[trigger] x@[base + h * len + e],
                    ),
                forall|i: int| start + d <= i < total ==> #[trigger] x@[i] == before[i],
            decreases len - d,
        {
            let y = scale(h, d, x[start + d], m);
            x.set(start + d, y);
            d += 1;
        }
        proof {
            assert(segment_scaled(
                before,
                x@,
                base as int,
                len as int,
                h as int,
                measure,
                scale,
            ));
            assert forall|g: int| 0 <= g < h implies #[trigger] segment_scaled(
                before,
                x@,
                base as int,
                len as int,
                g,
                measure,
                scale,
            ) by {
                assert(segment_scaled(
                    before,
                    at_start,
                    base as int,
                    len as int,
                    g,
                    measure,
                    scale,
                ));
                lemma_segment_bounds(g, h as int, len as int);
                let mg = choose|mg: T| #[trigger]
                    of_slice(measure, segment(before, base as int, len as int, g), mg) && forall|
                        d: int,
                    |
                        0 <= d < len ==> scale.ensures(
                            (g as usize, d as usize, before[base + g * len + d], mg),
                            #[trigger] at_start[base + g * len + d],
                        );
                assert forall|d: int| 0 <= d < len implies scale.ensures(
                    (g as usize, d as usize, before[base + g * len + d], mg),
                    #[trigger] x@[base + g * len + d],
                ) by {
                    assert(x@[base + g * len + d] == at_start[base + g * len + d]);
                }
            }
        }
        h += 1;
    }
}

// ── Rotary position embedding ───────────────────────────────────────────────

/// Whether pair `d` of head `h` was turned: elements `d` and `d + half` of the
/// head become what `turn` gives for them and `d`.
pub open spec fn pair_turned<T, F: Fn(T, T, usize) -> (T, T)>(
    before: Seq<T>,
    after: Seq<T>,
    head_dim: int,
    half: int,
    h: int,
    d: int,
    turn: F,
) -> bool {
    let i = h * head_dim + d;
    turn.ensures((before[i], before[i + half], d as usize), (after[i], after[i + half]))
}

/// Rotary embedding, in place: in each head the pairs `(d, d + n_rot / 2)` with
/// `d < n_rot / 2` are turned. The dimensions from `2 * (n_rot / 2)` on are left
/// as they are.
pub fn rotate_heads<T: Copy, F: Fn(T, T, usize) -> (T, T)>(
    x: &mut Vec<T>,
    n_heads: usize,
    head_dim: usize,
    n_rot: usize,
    turn: F,
)
    requires
        n_heads * head_dim <= old(x)@.len(),
        2 * (n_rot as int / 2) <= head_dim,
        total3(turn),
    ensures
        final(x)@.len() == old(x)@.len(),
        forall|h: int, d: int|
            0 <= h < n_heads && 0 <= d < n_rot / 2 ==> #[trigger] pair_turned(
                old(x)@,
                final(x)@,
                head_dim as int,
                n_rot as int / 2,
                h,
                d,
                turn,
            ),
        forall|h: int, d: int|
            0 <= h < n_heads && 2 * (n_rot as int / 2) <= d < head_dim ==> final(x)@[#[trigger] (h * head_dim + d)] == old(x)@[h * head_dim + d],
        forall|i: int|
            n_heads * head_dim <= i < old(x)@.len() ==> #[trigger] final(x)@[i] == old(x)@[i],
{
    let n: usize = x.len();
    let half: usize = n_rot / 2;
    let ghost before = x@;
    let mut h: usize = 0;
    proof {
        assert(0 * head_dim == 0);
    }
    while h < n_heads
        invariant
            h <= n_heads,
            n == x@.len(),
            n == before.len(),
            n_heads * head_dim <= n,
            2 * half <= head_dim,
            half == n_rot / 2,
            total3(turn),
            forall|g: int, d: int|
                0 <= g < h && 0 <= d < half ==> #[trigger] pair_turned(
                    before,
                    x@,
                    head_dim as int,
                    half as int,
                    g,
                    d,
                    turn,
                ),
            forall|g: int, d: int|
                0 <= g < h && 2 * half <= d < head_dim ==> x@[#[trigger] (g * head_dim + d)]
                    == before[g * head_dim + d],
            forall|i: int| h * head_dim <= i < n ==> #[trigger] x@[i] == before[i],
        decreases n_heads - h,
    {
        proof {
            lemma_segment_bounds(h as int, n_heads as int, head_dim as int);
        }
        let start: usize = h * head_dim;
        let ghost at_start = x@;
        let mut d: usize = 0;
        while d < half
            invariant
                d <= half,
                start == h * head_dim,
                start + head_dim <= n,
                2 * half <= head_dim,
                n == x@.len(),
                n == before.len(),
                n == at_start.len(),
                total3(turn),
                forall|i: int| start <= i < n ==> #[trigger] at_start[i] == before[i],
                forall|i: int| 0 <= i < start ==> #[trigger] x@[i] == at_start[i],
                forall|e: int|
                    0 <= e < d ==> #[trigger] pair_turned(
                        before,
                        x@,
                        head_dim as int,
                        half as int,
                        h as int,
                        e,
                        turn,
                    ),
                forall|i: int|
                    start + d <= i < start + half ==> #[trigger] x@[i] == before[i],
                forall|i: int| start + half + d <= i < n ==> #[trigger] x@[i] == before[i],
            decreases half - d,
        {
            let ghost at_d = x@;
            let (y0, y1) = turn(x[start + d], x[start + d + half], d);
            x.set(start + d, y0);
            x.set(start + d + half, y1);
            proof {
                assert forall|e: int| 0 <= e < d + 1 implies #[trigger] pair_turned(
                    before,
                    x@,
                    head_dim as int,
                    half as int,
                    h as int,
                    e,
                    turn,
                ) by {
                    if e < d {
                        assert(pair_turned(
                            before,
                            at_d,
                            head_dim as int,
                            half as int,
                            h as int,
                            e,
                            turn,
                        ));
                    }
                }
            }
            d += 1;
        }
        proof {
            assert forall|g: int, e: int| 0 <= g < h + 1 && 0 <= e < half implies
                #[trigger] pair_turned(
                before,
                x@,
                head_dim as int,
                half as int,
                g,
                e,
                turn,
            ) by {
                if g < h {
                    lemma_segment_bounds(g, h as int, head_dim as int);
                    assert(pair_turned(
                        before,
                        at_start,
                        head_dim as int,
                        half as int,
                        g,
                        e,
                        turn,
                    ));
                }
            }
            assert forall|g: int, e: int|
                0 <= g < h + 1 && 2 * half <= e < head_dim implies x@[#[trigger] (g * head_dim
                + e)] == before[g * head_dim + e] by {
                if g < h {
                    lemma_segment_bounds(g, h as int, head_dim as int);
                    assert(at_start[g * head_dim + e] == before[g * head_dim + e]);
                }
            }
        }
        h += 1;
    }
}

// ── Fused query and gate ────────────────────────────────────────────────────

/// Splits the interleaved-per-head layout `[Q(head_dim) | gate(head_dim)]` into
/// contiguous query and gate buffers.
pub fn split_qg<T: Copy>(
    raw: &[T],
    q: &mut Vec<T>,
    gate: &mut Vec<T>,
    n_heads: usize,
    head_dim: usize,
)
    requires
        2 * (n_heads * head_dim) <= raw@.len(),
        n_heads * head_dim <= old(q)@.len(),
        n_heads * head_dim <= old(gate)@.len(),
    ensures
        final(q)@.len() == old(q)@.len(),
        final(gate)@.len() == old(gate)@.len(),
        forall|h: int, d: int|
            0 <= h < n_heads && 0 <= d < head_dim ==> final(q)@[#[trigger] (h * head_dim + d)]
                == raw@[2 * (h * head_dim) + d],
        forall|h: int, d: int|
            0 <= h < n_heads && 0 <= d < head_dim ==> final(gate)@[#[trigger] (h * head_dim + d)]
                == raw@[2 * (h * head_dim) + head_dim + d],
        forall|i: int|
            n_heads * head_dim <= i < old(q)@.len() ==> #[trigger] final(q)@[i] == old(q)@[i],
        forall|i: int|
            n_heads * head_dim <= i < old(gate)@.len() ==> #[trigger] final(gate)@[i] == old(gate)@[i],
{
    let raw_len: usize = raw.len();
    let mut h: usize = 0;
    proof {
        assert(0 * head_dim == 0);
    }
    while h < n_heads
        invariant
            h <= n_heads,
            raw_len == raw@.len(),
            2 * (n_heads * head_dim) <= raw@.len(),
            n_heads * head_dim <= q@.len(),
            n_heads * head_dim <= gate@.len(),
            q@.len() == old(q)@.len(),
            gate@.len() == old(gate)@.len(),
            forall|g: int, d: int|
                0 <= g < h && 0 <= d < head_dim ==> q@[#[trigger] (g * head_dim + d)] == raw@[2 * (g
                    * head_dim) + d],
            forall|g: int, d: int|
                0 <= g < h && 0 <= d < head_dim ==> gate@[#[trigger] (g * head_dim + d)] == raw@[2
                    * (g * head_dim) + head_dim + d],
            forall|i: int| h * head_dim <= i < q@.len() ==> #[trigger] q@[i] == old(q)@[i],
            forall|i: int|
                h * head_dim <= i < gate@.len() ==> #[trigger] gate@[i] == old(gate)@[i],
        decreases n_heads - h,
    {
        proof {
            lemma_segment_bounds(h as int, n_heads as int, head_dim as int);
        }
        let start: usize = h * head_dim;
        let mut d: usize = 0;
        while d < head_dim
            invariant
                d <= head_dim,
                h < n_heads,
                start == h * head_dim,
                start + head_dim <= n_heads * head_dim,
                raw_len == raw@.len(),
                2 * (n_heads * head_dim) <= raw@.len(),
                n_heads * head_dim <= q@.len(),
                n_heads * head_dim <= gate@.len(),
                q@.len() == old(q)@.len(),
                gate@.len() == old(gate)@.len(),
                forall|g: int, e: int|
                    0 <= g < h && 0 <= e < head_dim ==> q@[#[trigger] (g * head_dim + e)] == raw@[2
                        * (g * head_dim) + e],
                forall|g: int, e: int|
                    0 <= g < h && 0 <= e < head_dim ==> gate@[#[trigger] (g * head_dim + e)]
                        == raw@[2 * (g * head_dim) + head_dim + e],
                forall|e: int|
                    0 <= e < d ==> q@[#[trigger] (h * head_dim + e)] == raw@[2 * (h * head_dim)
                        + e],
                forall|e: int|
                    0 <= e < d ==> gate@[#[trigger] (h * head_dim + e)] == raw@[2 * (h * head_dim)
                        + head_dim + e],
                forall|i: int| start + d <= i < q@.len() ==> #[trigger] q@[i] == old(q)@[i],
                forall|i: int|
                    start + d <= i < gate@.len() ==> #[trigger] gate@[i] == old(gate)@[i],
            decreases head_dim - d,
        {
            proof {
                assert forall|g: int, e: int| 0 <= g < h && 0 <= e < head_dim implies #[trigger] (g
                    * head_dim + e) < start by {
                    lemma_segment_bounds(g, h as int, head_dim as int);
                }
            }
            q.set(start + d, raw[2 * start + d]);
            gate.set(start + d, raw[2 * start + head_dim + d]);
            d += 1;
        }
        h += 1;
    }
}

/// Nothing is lost in splitting: every element of the fused buffer is found again
/// in the queries or in their gates, at the place of its head.
pub proof fn law_split_keeps_every_element<T>(
    raw: Seq<T>,
    q: Seq<T>,
    gate: Seq<T>,
    n_heads: int,
    head_dim: int,
    i: int,
)
    requires
        0 < head_dim,
        0 <= i < 2 * (n_heads * head_dim),
        forall|h: int, d: int|
            0 <= h < n_heads && 0 <= d < head_dim ==> q[#[trigger] (h * head_dim + d)] == raw[2 * (h
                * head_dim) + d],
        forall|h: int, d: int|
            0 <= h < n_heads && 0 <= d < head_dim ==> gate[#[trigger] (h * head_dim + d)]
                == raw[2 * (h * head_dim) + head_dim + d],
    ensures
        ({
            let h = i / (2 * head_dim);
            let d = i % (2 * head_dim);
            raw[i] == if d < head_dim {
                q[h * head_dim + d]
            } else {
                gate[h * head_dim + (d - head_dim)]
            }
        }),
{
    let h = i / (2 * head_dim);
    let d = i % (2 * head_dim);
    vstd::arithmetic::div_mod::lemma_fundamental_div_mod(i, 2 * head_dim);
    assert(2 * head_dim * h == 2 * (h * head_dim)) by (nonlinear_arith);
    assert(0 <= h < n_heads) by (nonlinear_arith)
        requires
            i == 2 * (h * head_dim) + d,
            0 <= d < 2 * head_dim,
            0 <= i < 2 * (n_heads * head_dim),
            0 < head_dim,
    ;
}

} // verus!
