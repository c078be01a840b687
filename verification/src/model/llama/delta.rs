//! The delta-rule recurrence of a Gated DeltaNet layer.

use vstd::prelude::*;

use crate::model::llama::kernels::{folded, total3};
use crate::model::llama::load::{dims_defined, dims_of};
use crate::model::llama::types::GdnDims;
use crate::types::FileView;

verus! {

/// Where element `(a, b)` of the state of head `h` stands: the states of the heads
/// follow each other, row by row.
pub open spec fn cell(dims: GdnDims, h: int, a: int, b: int) -> int {
    (h * dims.head_k_dim + a) * dims.head_v_dim + b
}

/// Column `b` of the state of head `h`.
pub open spec fn state_column<T>(state: Seq<T>, dims: GdnDims, h: int, b: int) -> Seq<T> {
    Seq::new(dims.head_k_dim as nat, |a: int| state[cell(dims, h, a, b)])
}

/// The Q/K head of value head `h`: there may be fewer, and they are repeated in
/// turn.
pub open spec fn shared_head(dims: GdnDims, h: int) -> int {
    h % dims.n_k_heads as int
}

/// The query of value head `h`.
pub open spec fn query<T>(qkv: Seq<T>, dims: GdnDims, h: int) -> Seq<T> {
    let start = shared_head(dims, h) * dims.head_k_dim;
    qkv.subrange(start, start + dims.head_k_dim)
}

/// The key of value head `h`.
pub open spec fn key<T>(qkv: Seq<T>, dims: GdnDims, h: int) -> Seq<T> {
    let start = dims.key_dim + shared_head(dims, h) * dims.head_k_dim;
    qkv.subrange(start, start + dims.head_k_dim)
}

/// Element `b` of the value of head `h`.
pub open spec fn value<T>(qkv: Seq<T>, dims: GdnDims, h: int, b: int) -> T {
    qkv[2 * dims.key_dim + h * dims.head_v_dim + b]
}

/// Whether the dimensions belong together: the keys of all Q/K heads, the values
/// of all heads, and both with the queries.
pub open spec fn consistent(dims: GdnDims) -> bool {
    &&& dims.key_dim == dims.head_k_dim * dims.n_k_heads
    &&& dims.value_dim == dims.head_v_dim * dims.n_v_heads
    &&& dims.conv_dim == 2 * dims.key_dim + dims.value_dim
    &&& dims.n_v_heads > 0 ==> dims.n_k_heads > 0
}

/// Whether the dimensions belong together.
pub fn is_consistent(dims: &GdnDims) -> (r: bool)
    ensures
        r == consistent(*dims),
{
    proof {
        assert(0 <= dims.head_k_dim * dims.n_k_heads <= u64::MAX * u64::MAX) by (nonlinear_arith)
            requires
                dims.head_k_dim <= u64::MAX,
                dims.n_k_heads <= u64::MAX,
        ;
        assert(0 <= dims.head_v_dim * dims.n_v_heads <= u64::MAX * u64::MAX) by (nonlinear_arith)
            requires
                dims.head_v_dim <= u64::MAX,
                dims.n_v_heads <= u64::MAX,
        ;
    }
    let keys: u128 = dims.head_k_dim as u128 * dims.n_k_heads as u128;
    let values: u128 = dims.head_v_dim as u128 * dims.n_v_heads as u128;
    dims.key_dim as u128 == keys && dims.value_dim as u128 == values && dims.conv_dim as u128 == 2
        * (dims.key_dim as u128) + dims.value_dim as u128 && (dims.n_v_heads == 0
        || dims.n_k_heads > 0)
}

/// The dimensions that a file states belong together, where there are Q/K heads.
pub proof fn law_stated_dims_are_consistent(f: FileView, a: Seq<char>)
    requires
        dims_defined(f, a),
    ensures
        dims_of(f, a) matches Some(d) ==> d.n_k_heads > 0 ==> consistent(d),
{
    if let Some(d) = dims_of(f, a) {
        let d_state = f.number(crate::model::info::arch_key(a, "ssm.state_size"@))->0;
        let n_group = f.number(crate::model::info::arch_key(a, "ssm.group_count"@))->0;
        let d_inner = f.number(crate::model::info::arch_key(a, "ssm.inner_size"@))->0;
        let dt_rank = f.number(crate::model::info::arch_key(a, "ssm.time_step_rank"@))->0;
        vstd::arithmetic::div_mod::lemma_fundamental_div_mod(d_inner as int, dt_rank as int);
        let q = d_inner as nat / dt_rank as nat;
        assert(0 <= d_state * n_group) by (nonlinear_arith);
        assert(0 <= q <= d_inner && 0 <= q * dt_rank <= d_inner) by (nonlinear_arith)
            requires
                d_inner == dt_rank * q + d_inner as int % dt_rank as int,
                0 <= d_inner as int % dt_rank as int,
                0 < dt_rank,
                0 <= q,
        ;
    }
}

/// Whether head `h` went one step: the state predicts the value of the key, the
/// difference is written back, and the query reads the new state.
///
/// `v_pred[b] = take_in(.., S[a,b], k[a])` over all `a`,
/// `delta[b]  = correct(beta, v[b], v_pred[b])`,
/// `S'[a,b]   = update(decay, S[a,b], k[a], delta[b])`,
/// `out[b]    = read(.., S'[a,b], q[a])` over all `a`.
pub open spec fn head_stepped<
    T,
    P: Fn(T, T, T) -> T,
    C: Fn(T, T, T) -> T,
    U: Fn(T, T, T, T) -> T,
    R: Fn(T, T, T) -> T,
>(
    before: Seq<T>,
    after: Seq<T>,
    qkv: Seq<T>,
    beta: T,
    decay: T,
    out: Seq<T>,
    dims: GdnDims,
    h: int,
    zero: T,
    take_in: P,
    correct: C,
    update: U,
    read: R,
) -> bool {
    exists|pred: Seq<T>, delta: Seq<T>|
        {
            &&& #[trigger] predicted(before, qkv, dims, h, zero, take_in, pred)
            &&& #[trigger] corrected(qkv, beta, pred, dims, h, correct, delta)
            &&& forall|a: int, b: int|
                0 <= a < dims.head_k_dim && 0 <= b < dims.head_v_dim ==> update.ensures(
                    (decay, before[cell(dims, h, a, b)], key(qkv, dims, h)[a], delta[b]),
                    after[#[trigger] cell(dims, h, a, b)],
                )
            &&& forall|b: int|
                0 <= b < dims.head_v_dim ==> folded(
                    read,
                    zero,
                    state_column(after, dims, h, b),
                    query(qkv, dims, h),
                    out[#[trigger] (h * dims.head_v_dim + b)],
                )
        }
}

/// Whether `pred` is what the state of head `h` predicts for its key.
pub open spec fn predicted<T, P: Fn(T, T, T) -> T>(
    state: Seq<T>,
    qkv: Seq<T>,
    dims: GdnDims,
    h: int,
    zero: T,
    take_in: P,
    pred: Seq<T>,
) -> bool {
    &&& pred.len() == dims.head_v_dim
    &&& forall|b: int|
        0 <= b < dims.head_v_dim ==> folded(
            take_in,
            zero,
            state_column(state, dims, h, b),
            key(qkv, dims, h),
            #[trigger] pred[b],
        )
}

/// Whether `delta` is the correction of what was predicted for head `h`.
pub open spec fn corrected<T, C: Fn(T, T, T) -> T>(
    qkv: Seq<T>,
    beta: T,
    pred: Seq<T>,
    dims: GdnDims,
    h: int,
    correct: C,
    delta: Seq<T>,
) -> bool {
    &&& delta.len() == dims.head_v_dim
    &&& forall|b: int|
        0 <= b < dims.head_v_dim ==> correct.ensures(
            (beta, value(qkv, dims, h, b), pred[b]),
            #[trigger] delta[b],
        )
}

/// The number of elements of the states of all heads.
pub open spec fn state_len(dims: GdnDims) -> int {
    dims.n_v_heads * dims.head_k_dim * dims.head_v_dim
}

proof fn lemma_cell(dims: GdnDims, h: int, a: int, b: int)
    requires
        0 <= h < dims.n_v_heads,
        0 <= a < dims.head_k_dim,
        0 <= b < dims.head_v_dim,
    ensures
        h * dims.head_k_dim * dims.head_v_dim <= cell(dims, h, a, b) < (h + 1) * dims.head_k_dim
            * dims.head_v_dim,
        (h + 1) * dims.head_k_dim * dims.head_v_dim <= state_len(dims),
        0 <= h * dims.head_k_dim * dims.head_v_dim,
        0 <= h * dims.head_k_dim,
        h * dims.head_k_dim + a < dims.n_v_heads * dims.head_k_dim,
{
    let hk = dims.head_k_dim as int;
    let hv = dims.head_v_dim as int;
    let n = dims.n_v_heads as int;
    assert(0 <= h * hk) by (nonlinear_arith)
        requires
            0 <= h,
            0 <= hk,
    ;
    assert((h + 1) * hk == h * hk + hk) by (nonlinear_arith);
    assert(h * hk + hk <= n * hk) by (nonlinear_arith)
        requires
            h + 1 <= n,
            0 <= hk,
    ;
    let r = h * hk;
    assert(0 <= r * hv) by (nonlinear_arith)
        requires
            0 <= r,
            0 <= hv,
    ;
    assert(r * hv <= (r + a) * hv + b < (r + hk) * hv) by (nonlinear_arith)
        requires
            0 <= r,
            0 <= a,
            a + 1 <= hk,
            0 <= b < hv,
    ;
    assert((r + hk) * hv <= (n * hk) * hv) by (nonlinear_arith)
        requires
            r + hk <= n * hk,
            0 <= hv,
    ;
}

proof fn lemma_head(dims: GdnDims, h: int)
    requires
        consistent(dims),
        0 <= h < dims.n_v_heads,
    ensures
        0 <= shared_head(dims, h) < dims.n_k_heads,
        0 <= shared_head(dims, h) * dims.head_k_dim,
        shared_head(dims, h) * dims.head_k_dim + dims.head_k_dim <= dims.key_dim,
        0 <= h * dims.head_v_dim,
        h * dims.head_v_dim + dims.head_v_dim <= dims.value_dim,
        (h + 1) * dims.head_v_dim == h * dims.head_v_dim + dims.head_v_dim,
{
    let kh = shared_head(dims, h);
    let hk = dims.head_k_dim as int;
    let hv = dims.head_v_dim as int;
    let nk = dims.n_k_heads as int;
    let nv = dims.n_v_heads as int;
    assert(0 <= kh * hk && kh * hk + hk <= hk * nk) by (nonlinear_arith)
        requires
            0 <= kh,
            kh + 1 <= nk,
            0 <= hk,
    ;
    assert(0 <= h * hv && h * hv + hv <= hv * nv) by (nonlinear_arith)
        requires
            0 <= h,
            h + 1 <= nv,
            0 <= hv,
    ;
    assert((h + 1) * hv == h * hv + hv) by (nonlinear_arith);
}

fn fold_column<T: Copy, F: Fn(T, T, T) -> T>(
    state: &Vec<T>,
    dims: &GdnDims,
    h: usize,
    b: usize,
    other: &[T],
    zero: T,
    f: &F,
) -> (acc: T)
    requires
        h < dims.n_v_heads,
        b < dims.head_v_dim,
        state@.len() == state_len(*dims),
        other@.len() == dims.head_k_dim,
        total3(*f),
    ensures
        folded(*f, zero, state_column(state@, *dims, h as int, b as int), other@, acc),
{
    let total: usize = state.len();
    let ghost col = state_column(state@, *dims, h as int, b as int);
    let mut acc = zero;
    let mut a: usize = 0;
    proof {
        assert(col.take(0).len() == 0);
    }
    while a < dims.head_k_dim
        invariant
            a <= dims.head_k_dim,
            h < dims.n_v_heads,
            b < dims.head_v_dim,
            total == state@.len(),
            state@.len() == state_len(*dims),
            other@.len() == dims.head_k_dim,
            total3(*f),
            col == state_column(state@, *dims, h as int, b as int),
            folded(*f, zero, col.take(a as int), other@.take(a as int), acc),
        decreases dims.head_k_dim - a,
    {
        proof {
            lemma_cell(*dims, h as int, a as int, b as int);
            lemma_index(*dims, h as int, a as int, b as int);
        }
        let before = acc;
        let i: usize = (h * dims.head_k_dim + a) * dims.head_v_dim + b;
        acc = f(before, state[i], other[a]);
        proof {
            let c1 = col.take(a + 1);
            let o1 = other@.take(a + 1);
            assert(c1.drop_last() =~= col.take(a as int));
            assert(o1.drop_last() =~= other@.take(a as int));
            assert(f.ensures((before, c1.last(), o1.last()), acc));
        }
        a += 1;
    }
    proof {
        assert(col.take(a as int) =~= col);
        assert(other@.take(a as int) =~= other@);
    }
    acc
}

/// The machine can compute where an element stands.
proof fn lemma_index(dims: GdnDims, h: int, a: int, b: int)
    requires
        0 <= h < dims.n_v_heads,
        0 <= a < dims.head_k_dim,
        0 <= b < dims.head_v_dim,
        state_len(dims) <= usize::MAX,
    ensures
        0 <= h * dims.head_k_dim <= usize::MAX,
        h * dims.head_k_dim + a <= usize::MAX,
        0 <= (h * dims.head_k_dim + a) * dims.head_v_dim <= usize::MAX,
        cell(dims, h, a, b) <= usize::MAX,
{
    lemma_cell(dims, h, a, b);
    let r = h * dims.head_k_dim + a;
    assert(r <= r * dims.head_v_dim) by (nonlinear_arith)
        requires
            0 <= r,
            1 <= dims.head_v_dim,
    ;
}

/// Writes the corrections into the state of head `h`.
fn update_state<T: Copy, U: Fn(T, T, T, T) -> T>(
    state: &mut Vec<T>,
    dims: &GdnDims,
    h: usize,
    decay: T,
    k: &[T],
    delta: &Vec<T>,
    update: &U,
)
    requires
        h < dims.n_v_heads,
        old(state)@.len() == state_len(*dims),
        k@.len() == dims.head_k_dim,
        delta@.len() == dims.head_v_dim,
        forall|a: T, b: T, c: T, d: T| #[trigger] update.requires((a, b, c, d)),
    ensures
        final(state)@.len() == old(state)@.len(),
        forall|a: int, b: int|
            0 <= a < dims.head_k_dim && 0 <= b < dims.head_v_dim ==> update.ensures(
                (decay, old(state)@[cell(*dims, h as int, a, b)], k@[a], delta@[b]),
                final(state)@[#[trigger] cell(*dims, h as int, a, b)],
            ),
        forall|i: int|
            0 <= i < old(state)@.len() && !(h * dims.head_k_dim * dims.head_v_dim <= i < (h + 1)
                * dims.head_k_dim * dims.head_v_dim) ==> #[trigger] final(state)@[i] == old(state)@[i],
{
    let total: usize = state.len();
    let ghost before = state@;
    let ghost d = *dims;
    let ghost hh = h as int;
    let ghost lo = h * dims.head_k_dim * dims.head_v_dim;
    let ghost hi = (h + 1) * dims.head_k_dim * dims.head_v_dim;
    let mut a: usize = 0;
    proof {
        assert((hh * d.head_k_dim + 0) * d.head_v_dim == lo);
    }
    while a < dims.head_k_dim
        invariant
            a <= dims.head_k_dim,
            h < dims.n_v_heads,
            d == *dims,
            hh == h,
            lo == h * dims.head_k_dim * dims.head_v_dim,
            hi == (h + 1) * dims.head_k_dim * dims.head_v_dim,
            total == state@.len(),
            total == before.len(),
            total == state_len(d),
            k@.len() == dims.head_k_dim,
            delta@.len() == dims.head_v_dim,
            forall|a: T, b: T, c: T, d: T| #[trigger] update.requires((a, b, c, d)),
            forall|e: int, b: int|
                0 <= e < a && 0 <= b < d.head_v_dim ==> update.ensures(
                    (decay, before[cell(d, hh, e, b)], k@[e], delta@[b]),
                    state@[#[trigger] cell(d, hh, e, b)],
                ),
            forall|i: int|
                0 <= i < total && (i < lo || (hh * d.head_k_dim + a) * d.head_v_dim <= i)
                    ==> #[trigger] state@[i] == before[i],
        decreases dims.head_k_dim - a,
    {
        let mut b: usize = 0;
        while b < dims.head_v_dim
            invariant
                b <= dims.head_v_dim,
                a < dims.head_k_dim,
                h < dims.n_v_heads,
                d == *dims,
                hh == h,
                lo == h * dims.head_k_dim * dims.head_v_dim,
                total == state@.len(),
                total == before.len(),
                total == state_len(d),
                k@.len() == dims.head_k_dim,
                delta@.len() == dims.head_v_dim,
                forall|a: T, b: T, c: T, d: T| #[trigger] update.requires((a, b, c, d)),
                forall|e: int, c: int|
                    0 <= e < a && 0 <= c < d.head_v_dim ==> update.ensures(
                        (decay, before[cell(d, hh, e, c)], k@[e], delta@[c]),
                        state@[#[trigger] cell(d, hh, e, c)],
                    ),
                forall|c: int|
                    0 <= c < b ==> update.ensures(
                        (decay, before[cell(d, hh, a as int, c)], k@[a as int], delta@[c]),
                        state@[#[trigger] cell(d, hh, a as int, c)],
                    ),
                forall|i: int|
                    0 <= i < total && (i < lo || cell(d, hh, a as int, b as int) <= i)
                        ==> #[trigger] state@[i] == before[i],
            decreases dims.head_v_dim - b,
        {
            proof {
                lemma_cell(d, hh, a as int, b as int);
                lemma_index(d, hh, a as int, b as int);
                assert forall|e: int, c: int| 0 <= e < a && 0 <= c < d.head_v_dim implies
                    #[trigger] cell(d, hh, e, c) < cell(d, hh, a as int, b as int) by {
                    lemma_rows_in_order(d, hh, e, c, a as int, b as int);
                }
            }
            let i: usize = (h * dims.head_k_dim + a) * dims.head_v_dim + b;
            let y = update(decay, state[i], k[a], delta[b]);
            state.set(i, y);
            b += 1;
        }
        proof {
            assert((hh * d.head_k_dim + a + 1) * d.head_v_dim == (hh * d.head_k_dim + a)
                * d.head_v_dim + d.head_v_dim) by (nonlinear_arith);
            assert forall|e: int, c: int| 0 <= e < a + 1 && 0 <= c < d.head_v_dim implies
                update.ensures(
                (decay, before[cell(d, hh, e, c)], k@[e], delta@[c]),
                state@[#[trigger] cell(d, hh, e, c)],
            ) by {
                if e == a {
                    assert(cell(d, hh, e, c) == cell(d, hh, a as int, c));
                }
            }
        }
        a += 1;
    }
    proof {
        assert((hh * d.head_k_dim + d.head_k_dim) * d.head_v_dim == hi) by (nonlinear_arith)
            requires
                hi == (hh + 1) * d.head_k_dim * d.head_v_dim,
        ;
    }
}

proof fn lemma_rows_in_order(d: GdnDims, h: int, a1: int, b1: int, a2: int, b2: int)
    requires
        a1 < a2,
        0 <= b1 < d.head_v_dim,
        0 <= b2,
    ensures
        cell(d, h, a1, b1) < cell(d, h, a2, b2),
{
    let r1 = h * d.head_k_dim + a1;
    let r2 = h * d.head_k_dim + a2;
    let hv = d.head_v_dim as int;
    assert(r1 * hv + b1 < r2 * hv + b2) by (nonlinear_arith)
        requires
            r1 + 1 <= r2,
            0 <= b1 < hv,
            0 <= b2,
    ;
}

/// One step of head `h`.
fn step_head<
    T: Copy,
    P: Fn(T, T, T) -> T,
    C: Fn(T, T, T) -> T,
    U: Fn(T, T, T, T) -> T,
    R: Fn(T, T, T) -> T,
>(
    state: &mut Vec<T>,
    qkv: &[T],
    beta: T,
    decay: T,
    out: &mut Vec<T>,
    dims: &GdnDims,
    h: usize,
    zero: T,
    take_in: &P,
    correct: &C,
    update: &U,
    read: &R,
)
    requires
        consistent(*dims),
        h < dims.n_v_heads,
        old(state)@.len() == state_len(*dims),
        dims.conv_dim <= qkv@.len(),
        dims.value_dim <= old(out)@.len(),
        total3(*take_in),
        total3(*correct),
        forall|a: T, b: T, c: T, d: T| #[trigger] update.requires((a, b, c, d)),
        total3(*read),
    ensures
        final(state)@.len() == old(state)@.len(),
        final(out)@.len() == old(out)@.len(),
        head_stepped(
            old(state)@,
            final(state)@,
            qkv@,
            beta,
            decay,
            final(out)@,
            *dims,
            h as int,
            zero,
            *take_in,
            *correct,
            *update,
            *read,
        ),
        forall|i: int|
            0 <= i < old(state)@.len() && !(h * dims.head_k_dim * dims.head_v_dim <= i < (h + 1)
                * dims.head_k_dim * dims.head_v_dim) ==> #[trigger] final(state)@[i]
                == old(state)@[i],
        forall|i: int|
            0 <= i < old(out)@.len() && !(h * dims.head_v_dim <= i < h * dims.head_v_dim
                + dims.head_v_dim) ==> #[trigger] final(out)@[i] == old(out)@[i],
{
    let qkv_len: usize = qkv.len();
    let out_len: usize = out.len();
    let ghost d = *dims;
    let ghost hh = h as int;
    let ghost before = state@;
    proof {
        lemma_head(d, hh);
    }
    let kh: usize = h % dims.n_k_heads;
    let q_start: usize = kh * dims.head_k_dim;
    let q = vstd::slice::slice_subrange(qkv, q_start, q_start + dims.head_k_dim);
    let k_start: usize = dims.key_dim + q_start;
    let k = vstd::slice::slice_subrange(qkv, k_start, k_start + dims.head_k_dim);
    let out_start: usize = h * dims.head_v_dim;
    let v_start: usize = 2 * dims.key_dim + out_start;
    let mut pred: Vec<T> = Vec::new();
    let mut delta: Vec<T> = Vec::new();
    let mut b: usize = 0;
    while b < dims.head_v_dim
        invariant
            b <= dims.head_v_dim,
            d == *dims,
            hh == h,
            h < dims.n_v_heads,
            qkv_len == qkv@.len(),
            v_start == 2 * d.key_dim + hh * d.head_v_dim,
            v_start + d.head_v_dim <= qkv_len,
            state@ == before,
            state@.len() == state_len(d),
            k@ == key(qkv@, d, hh),
            k@.len() == d.head_k_dim,
            total3(*take_in),
            total3(*correct),
            pred@.len() == b,
            delta@.len() == b,
            forall|c: int|
                0 <= c < b ==> folded(
                    *take_in,
                    zero,
                    state_column(before, d, hh, c),
                    key(qkv@, d, hh),
                    #[trigger] pred@[c],
                ),
            forall|c: int|
                0 <= c < b ==> correct.ensures(
                    (beta, value(qkv@, d, hh, c), pred@[c]),
                    #[trigger] delta@[c],
                ),
        decreases dims.head_v_dim - b,
    {
        let p = fold_column(state, dims, h, b, k, zero, take_in);
        let c = correct(beta, qkv[v_start + b], p);
        pred.push(p);
        delta.push(c);
        b += 1;
    }
    update_state(state, dims, h, decay, k, &delta, update);
    let mut e: usize = 0;
    while e < dims.head_v_dim
        invariant
            e <= dims.head_v_dim,
            d == *dims,
            hh == h,
            h < dims.n_v_heads,
            out_len == out@.len(),
            out_len == old(out)@.len(),
            out_start == hh * d.head_v_dim,
            out_start + d.head_v_dim <= out_len,
            state@.len() == state_len(d),
            q@ == query(qkv@, d, hh),
            q@.len() == d.head_k_dim,
            total3(*read),
            forall|c: int|
                0 <= c < e ==> folded(
                    *read,
                    zero,
                    state_column(state@, d, hh, c),
                    query(qkv@, d, hh),
                    out@[#[trigger] (hh * d.head_v_dim + c)],
                ),
            forall|i: int|
                0 <= i < out_len && !(out_start <= i < out_start + e) ==> #[trigger] out@[i] == old(out)@[i],
        decreases dims.head_v_dim - e,
    {
        let y = fold_column(state, dims, h, e, q, zero, read);
        out.set(out_start + e, y);
        e += 1;
    }
    proof {
        assert(predicted(before, qkv@, d, hh, zero, *take_in, pred@));
        assert(corrected(qkv@, beta, pred@, d, hh, *correct, delta@));
    }
}

/// Per-(value-)head delta-rule recurrence, one step for every head: `state` goes
/// on, and `out` is what the queries read from it. Q/K heads are tile-repeated
/// (cyclic) up to the value-head count.
pub fn delta_step<
    T: Copy,
    P: Fn(T, T, T) -> T,
    C: Fn(T, T, T) -> T,
    U: Fn(T, T, T, T) -> T,
    R: Fn(T, T, T) -> T,
>(
    state: &mut Vec<T>,
    qkv: &[T],
    beta: &[T],
    decay: &[T],
    out: &mut Vec<T>,
    dims: &GdnDims,
    zero: T,
    take_in: P,
    correct: C,
    update: U,
    read: R,
)
    requires
        consistent(*dims),
        old(state)@.len() == state_len(*dims),
        dims.conv_dim <= qkv@.len(),
        dims.n_v_heads <= beta@.len(),
        dims.n_v_heads <= decay@.len(),
        dims.value_dim <= old(out)@.len(),
        total3(take_in),
        total3(correct),
        forall|a: T, b: T, c: T, d: T| #[trigger] update.requires((a, b, c, d)),
        total3(read),
    ensures
        final(state)@.len() == old(state)@.len(),
        final(out)@.len() == old(out)@.len(),
        forall|h: int|
            0 <= h < dims.n_v_heads ==> #[trigger] head_stepped(
                old(state)@,
                final(state)@,
                qkv@,
                beta@[h],
                decay@[h],
                final(out)@,
                *dims,
                h,
                zero,
                take_in,
                correct,
                update,
                read,
            ),
        forall|i: int|
            dims.value_dim <= i < old(out)@.len() ==> #[trigger] final(out)@[i] == old(out)@[i],
{
    let ghost d = *dims;
    let ghost before = state@;
    let mut h: usize = 0;
    proof {
        assert(0 * d.head_k_dim * d.head_v_dim == 0) by (nonlinear_arith);
        assert(0 * d.head_v_dim == 0);
    }
    while h < dims.n_v_heads
        invariant
            h <= dims.n_v_heads,
            d == *dims,
            consistent(d),
            before == old(state)@,
            state@.len() == before.len(),
            state@.len() == state_len(d),
            out@.len() == old(out)@.len(),
            d.conv_dim <= qkv@.len(),
            d.n_v_heads <= beta@.len(),
            d.n_v_heads <= decay@.len(),
            d.value_dim <= out@.len(),
            total3(take_in),
            total3(correct),
            forall|a: T, b: T, c: T, d: T| #[trigger] update.requires((a, b, c, d)),
            total3(read),
            forall|g: int|
                0 <= g < h ==> #[trigger] head_stepped(
                    before,
                    state@,
                    qkv@,
                    beta@[g],
                    decay@[g],
                    out@,
                    d,
                    g,
                    zero,
                    take_in,
                    correct,
                    update,
                    read,
                ),
            forall|i: int|
                h * d.head_k_dim * d.head_v_dim <= i < state@.len() ==> #[trigger] state@[i]
                    == before[i],
            forall|i: int|
                h * d.head_v_dim <= i < out@.len() ==> #[trigger] out@[i] == old(out)@[i],
        decreases dims.n_v_heads - h,
    {
        let ghost at_state = state@;
        let ghost at_out = out@;
        step_head(
            state,
            qkv,
            beta[h],
            decay[h],
            out,
            dims,
            h,
            zero,
            &take_in,
            &correct,
            &update,
            &read,
        );
        proof {
            let hh = h as int;
            lemma_head(d, hh);
            lemma_heads_in_order(d, hh, d.n_v_heads as int);
            lemma_same_head(
                at_state,
                before,
                state@,
                state@,
                qkv@,
                beta@[hh],
                decay@[hh],
                out@,
                out@,
                d,
                hh,
                zero,
                take_in,
                correct,
                update,
                read,
            );
            assert forall|g: int| 0 <= g < h implies #[trigger] head_stepped(
                before,
                state@,
                qkv@,
                beta@[g],
                decay@[g],
                out@,
                d,
                g,
                zero,
                take_in,
                correct,
                update,
                read,
            ) by {
                assert(head_stepped(
                    before,
                    at_state,
                    qkv@,
                    beta@[g],
                    decay@[g],
                    at_out,
                    d,
                    g,
                    zero,
                    take_in,
                    correct,
                    update,
                    read,
                ));
                lemma_heads_in_order(d, g, hh);
                lemma_head(d, g);
                lemma_same_head(
                    before,
                    before,
                    at_state,
                    state@,
                    qkv@,
                    beta@[g],
                    decay@[g],
                    at_out,
                    out@,
                    d,
                    g,
                    zero,
                    take_in,
                    correct,
                    update,
                    read,
                );
            }
            lemma_heads_in_order(d, hh, hh + 1);
        }
        h += 1;
    }
    proof {
        assert(d.n_v_heads * d.head_v_dim == d.value_dim) by (nonlinear_arith)
            requires
                d.value_dim == d.head_v_dim * d.n_v_heads,
        ;
    }
}

proof fn lemma_heads_in_order(d: GdnDims, g: int, h: int)
    requires
        0 <= g < h,
    ensures
        (g + 1) * d.head_k_dim * d.head_v_dim <= h * d.head_k_dim * d.head_v_dim,
        0 <= g * d.head_k_dim * d.head_v_dim <= (g + 1) * d.head_k_dim * d.head_v_dim,
        g * d.head_v_dim + d.head_v_dim <= h * d.head_v_dim,
{
    let hk = d.head_k_dim as int;
    let hv = d.head_v_dim as int;
    assert((g + 1) * hk <= h * hk) by (nonlinear_arith)
        requires
            g + 1 <= h,
            0 <= hk,
    ;
    assert(0 <= g * hk <= (g + 1) * hk) by (nonlinear_arith)
        requires
            0 <= g,
            0 <= hk,
    ;
    assert((g + 1) * hk * hv <= h * hk * hv) by (nonlinear_arith)
        requires
            (g + 1) * hk <= h * hk,
            0 <= hv,
    ;
    assert(0 <= g * hk * hv <= (g + 1) * hk * hv) by (nonlinear_arith)
        requires
            0 <= g * hk <= (g + 1) * hk,
            0 <= hv,
    ;
    assert(g * hv + hv <= h * hv) by (nonlinear_arith)
        requires
            g + 1 <= h,
            0 <= hv,
    ;
}

/// Only the elements of its own head matter to a step.
proof fn lemma_same_head<
    T,
    P: Fn(T, T, T) -> T,
    C: Fn(T, T, T) -> T,
    U: Fn(T, T, T, T) -> T,
    R: Fn(T, T, T) -> T,
>(
    before1: Seq<T>,
    before2: Seq<T>,
    after1: Seq<T>,
    after2: Seq<T>,
    qkv: Seq<T>,
    beta: T,
    decay: T,
    out1: Seq<T>,
    out2: Seq<T>,
    d: GdnDims,
    h: int,
    zero: T,
    take_in: P,
    correct: C,
    update: U,
    read: R,
)
    requires
        0 <= h < d.n_v_heads,
        before1.len() == state_len(d),
        before2.len() == state_len(d),
        after1.len() == state_len(d),
        after2.len() == state_len(d),
        head_stepped(
            before1,
            after1,
            qkv,
            beta,
            decay,
            out1,
            d,
            h,
            zero,
            take_in,
            correct,
            update,
            read,
        ),
        forall|i: int|
            h * d.head_k_dim * d.head_v_dim <= i < (h + 1) * d.head_k_dim * d.head_v_dim
                ==> #[trigger] before1[i] == before2[i],
        forall|i: int|
            h * d.head_k_dim * d.head_v_dim <= i < (h + 1) * d.head_k_dim * d.head_v_dim
                ==> #[trigger] after1[i] == after2[i],
        forall|i: int|
            h * d.head_v_dim <= i < h * d.head_v_dim + d.head_v_dim ==> #[trigger] out1[i]
                == out2[i],
    ensures
        head_stepped(
            before2,
            after2,
            qkv,
            beta,
            decay,
            out2,
            d,
            h,
            zero,
            take_in,
            correct,
            update,
            read,
        ),
{
    let (pred, delta) = choose|pred: Seq<T>, delta: Seq<T>|
        {
            &&& #[trigger] predicted(before1, qkv, d, h, zero, take_in, pred)
            &&& #[trigger] corrected(qkv, beta, pred, d, h, correct, delta)
            &&& forall|a: int, b: int|
                0 <= a < d.head_k_dim && 0 <= b < d.head_v_dim ==> update.ensures(
                    (decay, before1[cell(d, h, a, b)], key(qkv, d, h)[a], delta[b]),
                    after1[#[trigger] cell(d, h, a, b)],
                )
            &&& forall|b: int|
                0 <= b < d.head_v_dim ==> folded(
                    read,
                    zero,
                    state_column(after1, d, h, b),
                    query(qkv, d, h),
                    out1[#[trigger] (h * d.head_v_dim + b)],
                )
        };
    assert forall|a: int, b: int|
        0 <= a < d.head_k_dim && 0 <= b < d.head_v_dim implies before1[#[trigger] cell(d, h, a, b)]
        == before2[cell(d, h, a, b)] && after1[cell(d, h, a, b)] == after2[cell(d, h, a, b)] by {
        lemma_cell(d, h, a, b);
    }
    assert forall|b: int| 0 <= b < d.head_v_dim implies #[trigger] state_column(
        before1,
        d,
        h,
        b,
    ) == state_column(before2, d, h, b) by {
        assert forall|a: int| 0 <= a < d.head_k_dim implies before1[cell(d, h, a, b)]
            == before2[cell(d, h, a, b)] by {}
        assert(state_column(before1, d, h, b) =~= state_column(before2, d, h, b));
    }
    assert forall|b: int| 0 <= b < d.head_v_dim implies #[trigger] state_column(after1, d, h, b)
        == state_column(after2, d, h, b) by {
        assert forall|a: int| 0 <= a < d.head_k_dim implies after1[cell(d, h, a, b)]
            == after2[cell(d, h, a, b)] by {}
        assert(state_column(after1, d, h, b) =~= state_column(after2, d, h, b));
    }
    assert(predicted(before2, qkv, d, h, zero, take_in, pred));
    assert forall|a: int, b: int|
        0 <= a < d.head_k_dim && 0 <= b < d.head_v_dim implies update.ensures(
        (decay, before2[cell(d, h, a, b)], key(qkv, d, h)[a], delta[b]),
        after2[#[trigger] cell(d, h, a, b)],
    ) by {
        assert(before1[cell(d, h, a, b)] == before2[cell(d, h, a, b)]);
    }
    assert forall|b: int| 0 <= b < d.head_v_dim implies folded(
        read,
        zero,
        state_column(after2, d, h, b),
        query(qkv, d, h),
        out2[#[trigger] (h * d.head_v_dim + b)],
    ) by {
        assert(out1[h * d.head_v_dim + b] == out2[h * d.head_v_dim + b]);
        assert(state_column(after1, d, h, b) == state_column(after2, d, h, b));
    }
}

} // verus!
