//! Norms and rotations: kernels with one thread for a whole vector, for each head, or
//! for each pair of elements.

use vstd::prelude::*;
use vstd::slice::slice_subrange;

use crate::calc::{
    angle, computes, l2, make, make_angle, make_l2, make_rms, make_silu, make_turned,
    make_weighted, math, rms, silu, turned, weighted, Calc, Math,
};
use crate::model::llama::kernels::segment;
use crate::model::llama::meaning::{added, heads_gated, heads_normed, heads_rotated, keys_normed};
use crate::model::llama::types::GdnDims;
use crate::ops::kernels::{by_head, patched, Owner};

verus! {

/// A buffer whose first cells are overwritten.
pub open spec fn overlaid(before: Seq<u32>, new: Seq<u32>) -> Seq<u32> {
    Seq::new(
        before.len(),
        |i: int|
            if i < new.len() {
                new[i]
            } else {
                before[i]
            },
    )
}

/// The norm of a vector, as the GPU computes it: each element over the root of the
/// mean square, and then the weight.
pub open spec fn rms_normed(m: Math, eps: u32, w: Seq<u32>, x: Seq<u32>) -> Seq<u32> {
    Seq::new(x.len(), |i: int| m(Calc::Mul(m(Calc::Div(x[i], rms(m, eps, x))), w[i])))
}

fn write_rms_normed<F: Fn(Calc) -> u32>(
    x: &[u32],
    weight: &[u32],
    out: &mut Vec<u32>,
    eps: u32,
    calc: &F,
)
    requires
        computes(*calc),
        x@.len() <= weight@.len(),
        x@.len() <= old(out)@.len(),
    ensures
        final(out)@ == overlaid(old(out)@, rms_normed(math(*calc), eps, weight@, x@)),
{
    let ghost m = math(*calc);
    let ghost before = out@;
    let n: usize = x.len();
    let r: u32 = make_rms(calc, eps, x);
    let mut j: usize = 0;
    while j < n
        invariant
            j <= n,
            n == x@.len(),
            n <= weight@.len(),
            n <= out@.len(),
            m == math(*calc),
            computes(*calc),
            r == rms(m, eps, x@),
            out@.len() == before.len(),
            forall|i: int|
                0 <= i < out@.len() ==> #[trigger] out@[i] == if i < j {
                    m(Calc::Mul(m(Calc::Div(x@[i], r)), weight@[i]))
                } else {
                    before[i]
                },
        decreases n - j,
    {
        let share: u32 = make(calc, Calc::Div(x[j], r));
        let v: u32 = make(calc, Calc::Mul(share, weight[j]));
        out.set(j, v);
        j += 1;
    }
    proof {
        assert(out@ =~= overlaid(before, rms_normed(m, eps, weight@, x@)));
    }
}

/// RMSNorm: `out[i] = (x[i] / rms) * weight[i]`, all in the first thread.
pub fn rms_norm<F: Fn(Calc) -> u32>(
    pos: usize,
    x: &[u32],
    weight: &[u32],
    out: &mut Vec<u32>,
    eps: u32,
    calc: &F,
)
    requires
        computes(*calc),
        x@.len() <= weight@.len(),
        x@.len() <= old(out)@.len(),
    ensures
        final(out)@ == if pos == 0 {
            overlaid(old(out)@, rms_normed(math(*calc), eps, weight@, x@))
        } else {
            old(out)@
        },
{
    if pos == 0 {
        write_rms_normed(x, weight, out, eps, calc);
    }
}

/// Residual add and RMSNorm: `new_x = x + delta` and `normed` the norm of that, all in
/// the first thread.
pub fn add_residual_rms_norm<F: Fn(Calc) -> u32>(
    pos: usize,
    x: &[u32],
    delta: &[u32],
    weight: &[u32],
    new_x: &mut Vec<u32>,
    normed: &mut Vec<u32>,
    eps: u32,
    calc: &F,
)
    requires
        computes(*calc),
        x@.len() <= delta@.len(),
        x@.len() <= weight@.len(),
        x@.len() <= old(new_x)@.len(),
        x@.len() <= old(normed)@.len(),
    ensures
        ({
            let total = added(math(*calc), x@, delta@);
            if pos == 0 {
                &&& final(new_x)@ == overlaid(old(new_x)@, total)
                &&& final(normed)@ == overlaid(
                    old(normed)@,
                    rms_normed(math(*calc), eps, weight@, total),
                )
            } else {
                final(new_x)@ == old(new_x)@ && final(normed)@ == old(normed)@
            }
        }),
{
    if pos != 0 {
        return;
    }
    let ghost m = math(*calc);
    let ghost before = new_x@;
    let ghost total = added(m, x@, delta@);
    let n: usize = x.len();
    let mut i: usize = 0;
    while i < n
        invariant
            i <= n,
            n == x@.len(),
            n <= delta@.len(),
            n <= new_x@.len(),
            m == math(*calc),
            computes(*calc),
            total == added(m, x@, delta@),
            new_x@.len() == before.len(),
            forall|k: int|
                0 <= k < new_x@.len() ==> #[trigger] new_x@[k] == if k < i {
                    total[k]
                } else {
                    before[k]
                },
        decreases n - i,
    {
        let v: u32 = make(calc, Calc::Add(x[i], delta[i]));
        new_x.set(i, v);
        i += 1;
    }
    let sums = slice_subrange(new_x.as_slice(), 0, n);
    proof {
        assert(sums@ =~= total);
        assert(new_x@ =~= overlaid(before, total));
    }
    write_rms_normed(sums, weight, normed, eps, calc);
}

// ── Pairs ───────────────────────────────────────────────────────────────────

/// Which thread rotates a cell: the pair of element `d` of the first half and of the
/// second half of the rotated elements of head `h` has thread `h * half + d`.
pub open spec fn by_pair(len: int, half: int) -> Owner {
    |i: int|
        {
            let d = i % len;
            if d < half {
                i / len * half + d
            } else if d < 2 * half {
                i / len * half + d - half
            } else {
                -1
            }
        }
}

/// The head and the place within it of cell `h * len + d`.
pub(crate) proof fn lemma_head_cell(h: int, d: int, len: int)
    requires
        0 <= d < len,
        0 <= h,
    ensures
        (h * len + d) / len == h,
        (h * len + d) % len == d,
{
    vstd::arithmetic::div_mod::lemma_fundamental_div_mod_converse(h * len + d, len, h, d);
}

/// A cell is that of its head and its place within it.
pub(crate) proof fn lemma_cell_head(i: int, len: int)
    requires
        0 <= i,
        0 < len,
    ensures
        i == i / len * len + i % len,
        0 <= i % len < len,
        0 <= i / len,
{
    vstd::arithmetic::div_mod::lemma_fundamental_div_mod(i, len);
    assert(len * (i / len) == i / len * len) by (nonlinear_arith);
    assert(0 <= i / len) by (nonlinear_arith)
        requires
            0 <= i,
            0 < len,
    ;
}

proof fn lemma_one_pair(g: int, e: int, h: int, d: int, half: int)
    requires
        0 <= d < half,
        0 <= e < half,
        0 <= g,
        0 <= h,
        g * half + e == h * half + d,
    ensures
        g == h,
        e == d,
{
    lemma_head_cell(g, e, half);
    lemma_head_cell(h, d, half);
}

/// Rotary position embedding of one pair of elements, in place. `n_rot` is the number
/// of elements that are rotated in each head.
pub fn rope<F: Fn(Calc) -> u32>(
    idx: usize,
    x: &mut Vec<u32>,
    n_heads: usize,
    head_dim: usize,
    n_rot: usize,
    pos: usize,
    theta: u32,
    calc: &F,
)
    requires
        computes(*calc),
        n_heads * head_dim <= old(x)@.len(),
        2 * (n_rot as int / 2) <= head_dim,
    ensures
        ({
            let half = n_rot as int / 2;
            let len = head_dim as int;
            final(x)@ == if idx < n_heads * half {
                patched(
                    old(x)@,
                    heads_rotated(math(*calc), old(x)@, len, n_rot, pos, theta),
                    by_pair(len, half),
                    idx as int,
                )
            } else {
                old(x)@
            }
        }),
{
    let room: usize = x.len();
    let half: usize = n_rot / 2;
    if half == 0 {
        return;
    }
    let h: usize = idx / half;
    let d: usize = idx % half;
    let ghost len = head_dim as int;
    proof {
        lemma_cell_head(idx as int, half as int);
        if h < n_heads {
            assert(idx < n_heads * half) by (nonlinear_arith)
                requires
                    idx == h * half + d,
                    d < half,
                    h + 1 <= n_heads,
            ;
            assert(0 <= h * head_dim && h * head_dim + head_dim <= n_heads * head_dim)
                by (nonlinear_arith)
                requires
                    h + 1 <= n_heads,
                    0 <= h,
                    0 <= head_dim,
            ;
        } else {
            assert(idx >= n_heads * half) by (nonlinear_arith)
                requires
                    idx == h * half + d,
                    0 <= d,
                    h >= n_heads,
                    0 <= half,
            ;
        }
    }
    if h >= n_heads {
        return;
    }
    let ghost m = math(*calc);
    let ghost before = x@;
    let start: usize = h * head_dim;
    let by: u32 = make_angle(calc, pos, d, n_rot, theta);
    let s: u32 = make(calc, Calc::Sin(by));
    let c: u32 = make(calc, Calc::Cos(by));
    let (y0, y1) = make_turned(calc, x[start + d], x[start + d + half], s, c);
    x.set(start + d, y0);
    x.set(start + d + half, y1);
    proof {
        let goal = patched(
            before,
            heads_rotated(m, before, len, n_rot, pos, theta),
            by_pair(len, half as int),
            idx as int,
        );
        lemma_head_cell(h as int, d as int, len);
        lemma_head_cell(h as int, d + half, len);
        assert forall|i: int| 0 <= i < x@.len() implies x@[i] == goal[i] by {
            lemma_cell_head(i, len);
            let e = i % len;
            if by_pair(len, half as int)(i) == idx {
                if e < half {
                    lemma_one_pair(i / len, e, h as int, d as int, half as int);
                } else {
                    lemma_one_pair(i / len, e - half, h as int, d as int, half as int);
                }
            }
        }
        assert(x@ =~= goal);
    }
}

// ── Heads ───────────────────────────────────────────────────────────────────

/// A copy of the cells from `start` on.
fn copy_head(x: &Vec<u32>, start: usize, len: usize) -> (head: Vec<u32>)
    requires
        start + len <= x@.len(),
    ensures
        head@ == x@.subrange(start as int, start + len),
{
    let room: usize = x.len();
    let mut head: Vec<u32> = Vec::new();
    let mut d: usize = 0;
    while d < len
        invariant
            d <= len,
            start + len <= x@.len(),
            room == x@.len(),
            head@ == x@.subrange(start as int, start + d),
        decreases len - d,
    {
        head.push(x[start + d]);
        proof {
            assert(head@ =~= x@.subrange(start as int, start + d + 1));
        }
        d += 1;
    }
    head
}

/// A buffer with other cells from `start` on.
pub open spec fn replaced(x: Seq<u32>, start: int, head: Seq<u32>) -> Seq<u32> {
    Seq::new(
        x.len(),
        |i: int|
            if start <= i < start + head.len() {
                head[i - start]
            } else {
                x[i]
            },
    )
}

fn write_head(x: &mut Vec<u32>, start: usize, head: &Vec<u32>)
    requires
        start + head@.len() <= old(x)@.len(),
    ensures
        final(x)@ == replaced(old(x)@, start as int, head@),
{
    let ghost before = x@;
    let room: usize = x.len();
    let mut d: usize = 0;
    while d < head.len()
        invariant
            d <= head@.len(),
            start + head@.len() <= x@.len(),
            room == x@.len(),
            x@.len() == before.len(),
            forall|i: int|
                0 <= i < x@.len() ==> #[trigger] x@[i] == if start <= i < start + d {
                    head@[i - start]
                } else {
                    before[i]
                },
        decreases head@.len() - d,
    {
        x.set(start + d, head[d]);
        d += 1;
    }
    proof {
        assert(x@ =~= replaced(before, start as int, head@));
    }
}

proof fn lemma_head_fits(h: int, n: int, len: int, room: int)
    requires
        0 <= h < n,
        0 <= len,
        n * len <= room,
    ensures
        0 <= h * len,
        h * len + len <= room,
{
    assert(0 <= h * len && h * len + len <= n * len) by (nonlinear_arith)
        requires
            0 <= h,
            h + 1 <= n,
            0 <= len,
    ;
}

/// What is written into the cells of a head is what one thread writes.
proof fn lemma_head_patched(x: Seq<u32>, goal: Seq<u32>, head: Seq<u32>, h: int, len: int)
    requires
        0 <= h,
        0 < len,
        head.len() == len,
        h * len + len <= x.len(),
        forall|d: int| 0 <= d < len ==> #[trigger] head[d] == goal[h * len + d],
    ensures
        replaced(x, h * len, head) == patched(x, goal, by_head(len), h),
{
    let a = replaced(x, h * len, head);
    let b = patched(x, goal, by_head(len), h);
    assert forall|i: int| 0 <= i < x.len() implies a[i] == b[i] by {
        lemma_cell_head(i, len);
        if h * len <= i < h * len + len {
            lemma_head_cell(h, i - h * len, len);
            assert(head[i - h * len] == goal[h * len + (i - h * len)]);
        }
    }
    assert(a =~= b);
}

/// The norm of one head and then its rotation, in place.
pub fn qk_norm_rope<F: Fn(Calc) -> u32>(
    h: usize,
    x: &mut Vec<u32>,
    weight: &[u32],
    n_heads: usize,
    head_dim: usize,
    eps: u32,
    n_rot: usize,
    pos: usize,
    theta: u32,
    calc: &F,
)
    requires
        computes(*calc),
        n_heads * head_dim <= old(x)@.len(),
        head_dim <= weight@.len(),
        2 * (n_rot as int / 2) <= head_dim,
    ensures
        ({
            let m = math(*calc);
            let len = head_dim as int;
            final(x)@ == if h < n_heads && len > 0 {
                patched(
                    old(x)@,
                    heads_rotated(
                        m,
                        heads_normed(m, eps, weight@, old(x)@, len),
                        len,
                        n_rot,
                        pos,
                        theta,
                    ),
                    by_head(len),
                    h as int,
                )
            } else {
                old(x)@
            }
        }),
{
    if h >= n_heads || head_dim == 0 {
        return;
    }
    let ghost m = math(*calc);
    let ghost before = x@;
    let ghost len = head_dim as int;
    let room: usize = x.len();
    proof {
        lemma_head_fits(h as int, n_heads as int, len, x@.len() as int);
    }
    let start: usize = h * head_dim;
    let mut head = copy_head(x, start, head_dim);
    let ghost seg = head@;
    let r: u32 = make_rms(calc, eps, head.as_slice());
    let mut d: usize = 0;
    while d < head_dim
        invariant
            d <= head_dim,
            head_dim <= weight@.len(),
            m == math(*calc),
            computes(*calc),
            seg.len() == head_dim,
            head@.len() == head_dim,
            r == rms(m, eps, seg),
            forall|k: int|
                0 <= k < head_dim ==> #[trigger] head@[k] == if k < d {
                    weighted(m, weight@[k], seg[k], r)
                } else {
                    seg[k]
                },
        decreases head_dim - d,
    {
        let v: u32 = make_weighted(calc, weight[d], head[d], r);
        head.set(d, v);
        d += 1;
    }
    let ghost normed = head@;
    let half: usize = n_rot / 2;
    let mut d: usize = 0;
    while d < half
        invariant
            d <= half,
            half == n_rot / 2,
            2 * half <= head_dim,
            m == math(*calc),
            computes(*calc),
            normed.len() == head_dim,
            head@.len() == head_dim,
            forall|k: int|
                0 <= k < head_dim ==> #[trigger] head@[k] == if k < d {
                    turned(m, normed[k], normed[k + half], angle(m, pos, k as usize, n_rot, theta)).0
                } else if half <= k < half + d {
                    turned(
                        m,
                        normed[k - half],
                        normed[k],
                        angle(m, pos, (k - half) as usize, n_rot, theta),
                    ).1
                } else {
                    normed[k]
                },
        decreases half - d,
    {
        let by: u32 = make_angle(calc, pos, d, n_rot, theta);
        let s: u32 = make(calc, Calc::Sin(by));
        let c: u32 = make(calc, Calc::Cos(by));
        let (y0, y1) = make_turned(calc, head[d], head[d + half], s, c);
        head.set(d, y0);
        head.set(d + half, y1);
        d += 1;
    }
    write_head(x, start, &head);
    proof {
        let all = heads_normed(m, eps, weight@, before, len);
        let goal = heads_rotated(m, all, len, n_rot, pos, theta);
        assert(seg =~= segment(before, 0, len, h as int));
        assert forall|k: int| 0 <= k < len implies #[trigger] all[h * len + k] == normed[k] by {
            lemma_head_cell(h as int, k, len);
        }
        assert forall|k: int| 0 <= k < len implies #[trigger] head@[k] == goal[h * len + k] by {
            lemma_head_cell(h as int, k, len);
            assert(all[h * len + k] == normed[k]);
            if k < half {
                assert(all[h * len + (k + half)] == normed[k + half]);
            } else if k < 2 * half {
                assert(all[h * len + (k - half)] == normed[k - half]);
            }
        }
        lemma_head_patched(before, goal, head@, h as int, len);
    }
}

/// The cells of a head over their norm.
pub open spec fn head_over_norm(m: Math, eps: u32, x: Seq<u32>, start: int, len: int) -> Seq<u32> {
    let seg = x.subrange(start, start + len);
    replaced(x, start, Seq::new(len as nat, |d: int| m(Calc::Div(seg[d], l2(m, eps, seg)))))
}

/// The L2 norm of one head of the queries, or of the keys, in place: the first half of
/// the threads take the heads from `base_offset` on, the others those from
/// `base_offset2` on.
pub fn l2_norm_heads<F: Fn(Calc) -> u32>(
    idx: usize,
    x: &mut Vec<u32>,
    base_offset: usize,
    base_offset2: usize,
    n_heads: usize,
    head_dim: usize,
    eps: u32,
    calc: &F,
)
    requires
        computes(*calc),
        base_offset + n_heads * head_dim <= old(x)@.len(),
        base_offset2 + n_heads * head_dim <= old(x)@.len(),
    ensures
        ({
            let start = if idx < n_heads {
                base_offset + idx * head_dim
            } else {
                base_offset2 + (idx - n_heads) * head_dim
            };
            final(x)@ == if idx < 2 * n_heads {
                head_over_norm(math(*calc), eps, old(x)@, start, head_dim as int)
            } else {
                old(x)@
            }
        }),
{
    if idx / 2 >= n_heads {
        return;
    }
    let ghost m = math(*calc);
    let ghost before = x@;
    let room: usize = x.len();
    let h: usize = if idx < n_heads {
        idx
    } else {
        idx - n_heads
    };
    let base: usize = if idx < n_heads {
        base_offset
    } else {
        base_offset2
    };
    proof {
        lemma_head_fits(h as int, n_heads as int, head_dim as int, x@.len() - base);
    }
    let start: usize = base + h * head_dim;
    let mut head = copy_head(x, start, head_dim);
    let ghost seg = head@;
    let norm: u32 = make_l2(calc, eps, head.as_slice());
    let mut d: usize = 0;
    while d < head_dim
        invariant
            d <= head_dim,
            m == math(*calc),
            computes(*calc),
            seg.len() == head_dim,
            head@.len() == head_dim,
            norm == l2(m, eps, seg),
            forall|k: int|
                0 <= k < head_dim ==> #[trigger] head@[k] == if k < d {
                    m(Calc::Div(seg[k], norm))
                } else {
                    seg[k]
                },
        decreases head_dim - d,
    {
        let v: u32 = make(calc, Calc::Div(head[d], norm));
        head.set(d, v);
        d += 1;
    }
    write_head(x, start, &head);
    proof {
        let goal = Seq::new(head_dim as nat, |d: int| m(Calc::Div(seg[d], l2(m, eps, seg))));
        assert(head@ =~= goal);
    }
}

/// With the keys right behind the queries, each thread writes one head of the
/// normalized queries and keys.
pub proof fn law_l2_threads_have_a_head_each(
    m: Math,
    eps: u32,
    x: Seq<u32>,
    dims: GdnDims,
    idx: int,
)
    requires
        0 < dims.head_k_dim,
        dims.key_dim == dims.n_k_heads * dims.head_k_dim,
        2 * dims.key_dim <= x.len(),
        0 <= idx < 2 * dims.n_k_heads,
    ensures
        ({
            let len = dims.head_k_dim as int;
            let start = if idx < dims.n_k_heads {
                idx * len
            } else {
                dims.key_dim + (idx - dims.n_k_heads) * len
            };
            head_over_norm(m, eps, x, start, len) == patched(
                x,
                keys_normed(m, eps, x, dims),
                by_head(len),
                idx,
            )
        }),
{
    let len = dims.head_k_dim as int;
    let n = dims.n_k_heads as int;
    assert(n * len + (idx - n) * len == idx * len) by (nonlinear_arith);
    assert(idx * len + len <= 2 * (n * len)) by (nonlinear_arith)
        requires
            idx + 1 <= 2 * n,
            0 < len,
    ;
    assert(0 <= idx * len) by (nonlinear_arith)
        requires
            0 <= idx,
            0 < len,
    ;
    let seg = x.subrange(idx * len, idx * len + len);
    let head = Seq::new(len as nat, |d: int| m(Calc::Div(seg[d], l2(m, eps, seg))));
    let goal = keys_normed(m, eps, x, dims);
    assert(segment(x, 0, len, idx) =~= seg);
    assert forall|d: int| 0 <= d < len implies #[trigger] head[d] == goal[idx * len + d] by {
        lemma_head_cell(idx, d, len);
    }
    lemma_head_patched(x, goal, head, idx, len);
}

/// The gated norm of one head of the output of a Gated DeltaNet layer, in place:
/// `weight * (x / rms) * silu(gate)`.
pub fn gdn_gated_rms_norm<F: Fn(Calc) -> u32>(
    h: usize,
    x: &mut Vec<u32>,
    weight: &[u32],
    gate: &[u32],
    n_heads: usize,
    head_dim: usize,
    eps: u32,
    calc: &F,
)
    requires
        computes(*calc),
        n_heads * head_dim <= old(x)@.len(),
        n_heads * head_dim <= gate@.len(),
        head_dim <= weight@.len(),
    ensures
        ({
            let len = head_dim as int;
            final(x)@ == if h < n_heads && len > 0 {
                patched(
                    old(x)@,
                    heads_gated(math(*calc), eps, weight@, old(x)@, gate@, len),
                    by_head(len),
                    h as int,
                )
            } else {
                old(x)@
            }
        }),
{
    if h >= n_heads || head_dim == 0 {
        return;
    }
    let ghost m = math(*calc);
    let ghost before = x@;
    let ghost len = head_dim as int;
    let room: usize = x.len();
    let gates: usize = gate.len();
    proof {
        lemma_head_fits(h as int, n_heads as int, len, x@.len() as int);
        lemma_head_fits(h as int, n_heads as int, len, gate@.len() as int);
    }
    let start: usize = h * head_dim;
    let mut head = copy_head(x, start, head_dim);
    let ghost seg = head@;
    let r: u32 = make_rms(calc, eps, head.as_slice());
    let mut d: usize = 0;
    while d < head_dim
        invariant
            d <= head_dim,
            head_dim <= weight@.len(),
            start + head_dim <= gates,
            gates == gate@.len(),
            m == math(*calc),
            computes(*calc),
            seg.len() == head_dim,
            head@.len() == head_dim,
            r == rms(m, eps, seg),
            forall|k: int|
                0 <= k < head_dim ==> #[trigger] head@[k] == if k < d {
                    m(
                        Calc::Mul(
                            weighted(m, weight@[k], seg[k], r),
                            silu(m, gate@[start + k]),
                        ),
                    )
                } else {
                    seg[k]
                },
        decreases head_dim - d,
    {
        let normed: u32 = make_weighted(calc, weight[d], head[d], r);
        let open: u32 = make_silu(calc, gate[start + d]);
        let v: u32 = make(calc, Calc::Mul(normed, open));
        head.set(d, v);
        d += 1;
    }
    write_head(x, start, &head);
    proof {
        let goal = heads_gated(m, eps, weight@, before, gate@, len);
        assert(seg =~= segment(before, 0, len, h as int));
        assert forall|k: int| 0 <= k < len implies #[trigger] head@[k] == goal[h * len + k] by {
            lemma_head_cell(h as int, k, len);
        }
        lemma_head_patched(before, goal, head@, h as int, len);
    }
}

} // verus!
