//! What the threads of a kernel leave together. Kernels that work in place have threads
//! that keep to their own cells, so that these can run in any order.

use vstd::prelude::*;

use crate::calc::Math;
use crate::model::llama::conv::advanced;
use crate::model::llama::delta::{cell, consistent, state_column, state_len};
use crate::model::llama::kernels::segment;
use crate::model::llama::meaning::{
    cell_column, cell_head, decays, heads_gated, heads_normed, heads_rotated, keys_normed,
    stepped, write_gates,
};
use crate::model::llama::types::GdnDims;
use crate::ops::kernels::conv::by_channel;
use crate::ops::kernels::delta::{by_column, lemma_cell_of_place, lemma_place_of_cell};
use crate::ops::kernels::norm::{by_pair, lemma_cell_head, lemma_head_cell};
use crate::ops::kernels::{
    after_threads, agree, by_cell, by_head, is_local, law_threads_run_in_any_order, Kernel,
};

verus! {

/// A kernel that fills a buffer from others, whatever it held.
pub open spec fn filling(new: Seq<u32>) -> Kernel {
    |x: Seq<u32>| new
}

/// The threads of a kernel that fills a buffer from others, one for each cell, leave what
/// the kernel gives as a whole.
pub proof fn law_threads_fill_a_buffer(new: Seq<u32>, before: Seq<u32>, threads: Seq<int>)
    requires
        new.len() == before.len(),
        threads.no_duplicates(),
        forall|i: int| 0 <= i < before.len() ==> #[trigger] threads.contains(i),
    ensures
        after_threads(filling(new), by_cell(), before, threads) == new,
{
    let f = filling(new);
    assert forall|i: int| 0 <= i < before.len() implies threads.contains(
        #[trigger] by_cell()(i),
    ) by {
        assert(threads.contains(i));
    }
    law_threads_run_in_any_order(f, by_cell(), before, threads);
}

/// Rotary position embedding of all heads.
pub open spec fn rotation(m: Math, len: int, n_rot: usize, pos: usize, theta: u32) -> Kernel {
    |x: Seq<u32>| heads_rotated(m, x, len, n_rot, pos, theta)
}

/// The threads of `rope` keep to their pairs.
pub proof fn law_rope_is_local(
    m: Math,
    heads: nat,
    len: int,
    n_rot: usize,
    pos: usize,
    theta: u32,
)
    requires
        0 < len,
        2 * (n_rot as int / 2) <= len,
    ensures
        is_local(
            rotation(m, len, n_rot, pos, theta),
            by_pair(len, n_rot as int / 2),
            heads * len as nat,
        ),
{
    let half = n_rot as int / 2;
    let owner = by_pair(len, half);
    let f = rotation(m, len, n_rot, pos, theta);
    assert forall|a: Seq<u32>, b: Seq<u32>, t: int|
        a.len() == heads * len as nat && b.len() == heads * len as nat && #[trigger] agree(
            a,
            b,
            owner,
            t,
        ) implies agree(f(a), f(b), owner, t) by {
        assert forall|i: int| 0 <= i < f(a).len() && owner(i) == t implies #[trigger] f(a)[i]
            == f(b)[i] by {
            lemma_cell_head(i, len);
            lemma_last_head(i, heads as int, len);
            let h = i / len;
            let d = i % len;
            assert(a[i] == b[i]);
            if d < half {
                lemma_head_cell(h, d + half, len);
                assert(owner(i + half) == t);
                assert(a[i + half] == b[i + half]);
            } else if d < 2 * half {
                lemma_head_cell(h, d - half, len);
                assert(owner(i - half) == t);
                assert(a[i - half] == b[i - half]);
            }
        }
    }
}

/// The head of a cell is a whole head.
proof fn lemma_last_head(i: int, heads: int, len: int)
    requires
        0 < len,
        0 <= i < heads * len,
    ensures
        0 <= i / len * len,
        i / len * len + len <= heads * len,
{
    lemma_cell_head(i, len);
    let h = i / len;
    assert(h < heads) by (nonlinear_arith)
        requires
            h * len <= i,
            i < heads * len,
            0 < len,
    ;
    assert(0 <= h * len && h * len + len <= heads * len) by (nonlinear_arith)
        requires
            0 <= h,
            h + 1 <= heads,
            0 < len,
    ;
}

/// Buffers that agree on the cells of a head have that head in common.
proof fn lemma_same_head(a: Seq<u32>, b: Seq<u32>, heads: int, len: int, h: int)
    requires
        0 < len,
        a.len() == heads * len,
        b.len() == heads * len,
        0 <= h * len,
        h * len + len <= heads * len,
        0 <= h,
        agree(a, b, by_head(len), h),
    ensures
        segment(a, 0, len, h) == segment(b, 0, len, h),
        forall|d: int| 0 <= d < len ==> #[trigger] a[h * len + d] == b[h * len + d],
{
    assert forall|d: int| 0 <= d < len implies #[trigger] a[h * len + d] == b[h * len + d] by {
        lemma_head_cell(h, d, len);
        assert(by_head(len)(h * len + d) == h);
    }
    let (s, t) = (segment(a, 0, len, h), segment(b, 0, len, h));
    assert forall|d: int| 0 <= d < len implies s[d] == t[d] by {
        assert(s[d] == a[h * len + d]);
        assert(t[d] == b[h * len + d]);
    }
    assert(s =~= t);
}

/// The norm of all heads, and then their rotation.
pub open spec fn norm_and_rotation(
    m: Math,
    eps: u32,
    w: Seq<u32>,
    len: int,
    n_rot: usize,
    pos: usize,
    theta: u32,
) -> Kernel {
    |x: Seq<u32>| heads_rotated(m, heads_normed(m, eps, w, x, len), len, n_rot, pos, theta)
}

/// The threads of `qk_norm_rope` keep to their heads.
pub proof fn law_qk_norm_rope_is_local(
    m: Math,
    eps: u32,
    w: Seq<u32>,
    heads: nat,
    len: int,
    n_rot: usize,
    pos: usize,
    theta: u32,
)
    requires
        0 < len,
        2 * (n_rot as int / 2) <= len,
    ensures
        is_local(
            norm_and_rotation(m, eps, w, len, n_rot, pos, theta),
            by_head(len),
            heads * len as nat,
        ),
{
    let half = n_rot as int / 2;
    let owner = by_head(len);
    let f = norm_and_rotation(m, eps, w, len, n_rot, pos, theta);
    assert forall|a: Seq<u32>, b: Seq<u32>, t: int|
        a.len() == heads * len as nat && b.len() == heads * len as nat && #[trigger] agree(
            a,
            b,
            owner,
            t,
        ) implies agree(f(a), f(b), owner, t) by {
        let (na, nb) = (heads_normed(m, eps, w, a, len), heads_normed(m, eps, w, b, len));
        assert forall|i: int| 0 <= i < f(a).len() && owner(i) == t implies #[trigger] f(a)[i]
            == f(b)[i] by {
            lemma_cell_head(i, len);
            lemma_last_head(i, heads as int, len);
            let d = i % len;
            lemma_same_head(a, b, heads as int, len, t);
            assert forall|e: int| 0 <= e < len implies #[trigger] na[t * len + e] == nb[t * len
                + e] by {
                lemma_head_cell(t, e, len);
                assert(a[t * len + e] == b[t * len + e]);
            }
            assert(na[t * len + d] == nb[t * len + d]);
            if d < half {
                assert(na[t * len + (d + half)] == nb[t * len + (d + half)]);
            } else if d < 2 * half {
                assert(na[t * len + (d - half)] == nb[t * len + (d - half)]);
            }
        }
    }
}

/// The norm of all queries and keys.
pub open spec fn key_norm(m: Math, eps: u32, dims: GdnDims) -> Kernel {
    |x: Seq<u32>| keys_normed(m, eps, x, dims)
}

/// The threads of `l2_norm_heads` keep to their heads.
pub proof fn law_l2_norm_heads_is_local(m: Math, eps: u32, dims: GdnDims)
    requires
        consistent(dims),
        0 < dims.head_k_dim,
    ensures
        is_local(key_norm(m, eps, dims), by_head(dims.head_k_dim as int), dims.conv_dim as nat),
{
    let len = dims.head_k_dim as int;
    let owner = by_head(len);
    let f = key_norm(m, eps, dims);
    assert forall|a: Seq<u32>, b: Seq<u32>, t: int|
        a.len() == dims.conv_dim && b.len() == dims.conv_dim && #[trigger] agree(
            a,
            b,
            owner,
            t,
        ) implies agree(f(a), f(b), owner, t) by {
        assert forall|i: int| 0 <= i < f(a).len() && owner(i) == t implies #[trigger] f(a)[i]
            == f(b)[i] by {
            lemma_cell_head(i, len);
            assert(a[i] == b[i]);
            if i < 2 * dims.key_dim {
                let n = 2 * dims.n_k_heads as int;
                assert(n * len == 2 * (len * dims.n_k_heads)) by (nonlinear_arith)
                    requires
                        n == 2 * dims.n_k_heads as int,
                ;
                lemma_last_head(i, n, len);
                let (s, u) = (segment(a, 0, len, t), segment(b, 0, len, t));
                assert forall|d: int| 0 <= d < len implies s[d] == u[d] by {
                    lemma_head_cell(t, d, len);
                    assert(owner(t * len + d) == t);
                    assert(a[t * len + d] == b[t * len + d]);
                }
                assert(s =~= u);
            }
        }
    }
}

/// The gated norm of all heads.
pub open spec fn gated_norm(m: Math, eps: u32, w: Seq<u32>, z: Seq<u32>, len: int) -> Kernel {
    |x: Seq<u32>| heads_gated(m, eps, w, x, z, len)
}

/// The threads of `gdn_gated_rms_norm` keep to their heads.
pub proof fn law_gdn_gated_rms_norm_is_local(
    m: Math,
    eps: u32,
    w: Seq<u32>,
    z: Seq<u32>,
    heads: nat,
    len: int,
)
    requires
        0 < len,
    ensures
        is_local(gated_norm(m, eps, w, z, len), by_head(len), heads * len as nat),
{
    let owner = by_head(len);
    let f = gated_norm(m, eps, w, z, len);
    assert forall|a: Seq<u32>, b: Seq<u32>, t: int|
        a.len() == heads * len as nat && b.len() == heads * len as nat && #[trigger] agree(
            a,
            b,
            owner,
            t,
        ) implies agree(f(a), f(b), owner, t) by {
        assert forall|i: int| 0 <= i < f(a).len() && owner(i) == t implies #[trigger] f(a)[i]
            == f(b)[i] by {
            lemma_cell_head(i, len);
            lemma_last_head(i, heads as int, len);
            lemma_same_head(a, b, heads as int, len, t);
            assert(a[t * len + i % len] == b[t * len + i % len]);
        }
    }
}

/// The write gates of all heads.
pub open spec fn gating(m: Math) -> Kernel {
    |x: Seq<u32>| write_gates(m, x)
}

/// The decays of all heads.
pub open spec fn decaying(m: Math, bias: Seq<u32>, a: Seq<u32>) -> Kernel {
    |x: Seq<u32>| decays(m, x, bias, a)
}

/// The threads of `gdn_gate_decay` keep to their elements.
pub proof fn law_gdn_gate_decay_is_local(m: Math, bias: Seq<u32>, rates: Seq<u32>, heads: nat)
    ensures
        is_local(gating(m), by_cell(), heads),
        is_local(decaying(m, bias, rates), by_cell(), heads),
{
    let (f, g) = (gating(m), decaying(m, bias, rates));
    assert forall|a: Seq<u32>, b: Seq<u32>, t: int|
        a.len() == heads && b.len() == heads && #[trigger] agree(a, b, by_cell(), t) implies agree(
        f(a),
        f(b),
        by_cell(),
        t,
    ) && agree(g(a), g(b), by_cell(), t) by {
        assert forall|i: int| 0 <= i < heads && by_cell()(i) == t implies #[trigger] f(a)[i]
            == f(b)[i] by {
            assert(a[i] == b[i]);
        }
        assert forall|i: int| 0 <= i < heads && by_cell()(i) == t implies #[trigger] g(a)[i]
            == g(b)[i] by {
            assert(a[i] == b[i]);
        }
    }
}

/// A history that takes in an input.
pub open spec fn advancing(input: Seq<u32>) -> Kernel {
    |x: Seq<u32>| advanced(x, input)
}

/// The threads of `short_conv` and `causal_conv1d_silu` keep to their channels of the
/// history.
pub proof fn law_history_is_local(input: Seq<u32>, slots: nat)
    requires
        0 < input.len(),
    ensures
        is_local(advancing(input), by_channel(input.len() as int), slots * input.len()),
{
    let d = input.len() as int;
    let owner = by_channel(d);
    let f = advancing(input);
    let len = slots * input.len();
    assert forall|a: Seq<u32>, b: Seq<u32>, t: int|
        a.len() == len && b.len() == len && #[trigger] agree(a, b, owner, t) implies agree(
        f(a),
        f(b),
        owner,
        t,
    ) by {
        assert forall|i: int| 0 <= i < f(a).len() && owner(i) == t implies #[trigger] f(a)[i]
            == f(b)[i] by {
            assert(f(a)[i] == (a + input)[i + d]);
            assert(f(b)[i] == (b + input)[i + d]);
            if i + d < len {
                lemma_cell_head(i, d);
                assert(i / d * d + d == (i / d + 1) * d) by (nonlinear_arith);
                lemma_head_cell(i / d + 1, i % d, d);
                assert(owner(i + d) == t);
                assert(a[i + d] == b[i + d]);
            }
        }
    }
}

/// The state of all heads after a step of the delta rule.
pub open spec fn delta_rule(
    m: Math,
    qkv: Seq<u32>,
    beta: Seq<u32>,
    decay: Seq<u32>,
    dims: GdnDims,
) -> Kernel {
    |x: Seq<u32>| stepped(m, x, qkv, beta, decay, dims)
}

/// The threads of `gdn_recurrence` keep to their columns of the state.
pub proof fn law_gdn_recurrence_is_local(
    m: Math,
    qkv: Seq<u32>,
    beta: Seq<u32>,
    decay: Seq<u32>,
    dims: GdnDims,
)
    requires
        0 <= state_len(dims),
    ensures
        is_local(delta_rule(m, qkv, beta, decay, dims), by_column(dims), state_len(dims) as nat),
{
    let owner = by_column(dims);
    let f = delta_rule(m, qkv, beta, decay, dims);
    let len = state_len(dims) as nat;
    assert forall|a: Seq<u32>, b: Seq<u32>, t: int|
        a.len() == len && b.len() == len && #[trigger] agree(a, b, owner, t) implies agree(
        f(a),
        f(b),
        owner,
        t,
    ) by {
        assert forall|i: int| 0 <= i < f(a).len() && owner(i) == t implies #[trigger] f(a)[i]
            == f(b)[i] by {
            lemma_cell_of_place(dims, i);
            let h = cell_head(dims, i);
            let c = cell_column(dims, i);
            assert(a[i] == b[i]);
            let (s, u) = (state_column(a, dims, h, c), state_column(b, dims, h, c));
            assert forall|r: int| 0 <= r < dims.head_k_dim implies s[r] == u[r] by {
                lemma_place_of_cell(dims, h, r, c);
                let j = cell(dims, h, r, c);
                assert(owner(j) == t);
                assert(a[j] == b[j]);
            }
            assert(s =~= u);
        }
    }
}

} // verus!
