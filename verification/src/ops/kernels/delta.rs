//! The delta rule: a kernel with one workgroup for each value head, and one thread for
//! each column of its state.

use vstd::prelude::*;

use crate::calc::{computes, fold2, make, make_multiply_add, math, products, Calc, Math};
use crate::model::llama::delta::{cell, consistent, key, query, state_column, state_len};
use crate::model::llama::meaning::{
    cell_column, cell_head, cell_row, correction, predicted, query_scale, read_out, readings,
    stepped,
};
use crate::model::llama::types::GdnDims;
use crate::ops::kernels::norm::{lemma_cell_head, lemma_head_cell};
use crate::ops::kernels::{patched, Owner};
use crate::single::ZERO;

verus! {

/// Every column of the state of a head has a thread of its own.
pub open spec fn by_column(dims: GdnDims) -> Owner {
    |i: int| cell_head(dims, i) * dims.head_v_dim + cell_column(dims, i)
}

/// What is read from column `b` of the state of head `h`.
pub open spec fn column_read(
    m: Math,
    scale: u32,
    state: Seq<u32>,
    qkv: Seq<u32>,
    dims: GdnDims,
    h: int,
    b: int,
) -> u32 {
    fold2(readings(m, scale), ZERO, state_column(state, dims, h, b), query(qkv, dims, h))
}

pub(crate) proof fn lemma_place_of_cell(dims: GdnDims, h: int, a: int, b: int)
    requires
        0 <= h < dims.n_v_heads,
        0 <= a < dims.head_k_dim,
        0 <= b < dims.head_v_dim,
    ensures
        0 <= cell(dims, h, a, b) < state_len(dims),
        cell_head(dims, cell(dims, h, a, b)) == h,
        cell_row(dims, cell(dims, h, a, b)) == a,
        cell_column(dims, cell(dims, h, a, b)) == b,
        cell(dims, h, a, b) == h * dims.head_k_dim * dims.head_v_dim + a * dims.head_v_dim + b,
        0 <= h * dims.head_k_dim <= h * dims.head_k_dim * dims.head_v_dim,
        0 <= a * dims.head_v_dim,
{
    let hk = dims.head_k_dim as int;
    let hv = dims.head_v_dim as int;
    let n = dims.n_v_heads as int;
    let row = h * hk + a;
    lemma_head_cell(h, a, hk);
    assert(0 <= h * hk && row < n * hk) by (nonlinear_arith)
        requires
            0 <= h,
            h + 1 <= n,
            0 <= a < hk,
            row == h * hk + a,
    ;
    lemma_head_cell(row, b, hv);
    assert(0 <= row * hv && row * hv + b < n * hk * hv) by (nonlinear_arith)
        requires
            0 <= row,
            row + 1 <= n * hk,
            0 <= b < hv,
    ;
    assert(row * hv == h * hk * hv + a * hv) by (nonlinear_arith)
        requires
            row == h * hk + a,
    ;
    assert(h * hk <= h * hk * hv) by (nonlinear_arith)
        requires
            0 <= h * hk,
            1 <= hv,
    ;
    assert(0 <= a * hv) by (nonlinear_arith)
        requires
            0 <= a,
            0 <= hv,
    ;
}

pub(crate) proof fn lemma_cell_of_place(dims: GdnDims, i: int)
    requires
        0 <= i < state_len(dims),
    ensures
        0 <= cell_head(dims, i) < dims.n_v_heads,
        0 <= cell_row(dims, i) < dims.head_k_dim,
        0 <= cell_column(dims, i) < dims.head_v_dim,
        cell(dims, cell_head(dims, i), cell_row(dims, i), cell_column(dims, i)) == i,
{
    let hk = dims.head_k_dim as int;
    let hv = dims.head_v_dim as int;
    let n = dims.n_v_heads as int;
    assert(0 < hv && 0 < hk) by (nonlinear_arith)
        requires
            0 <= i < n * hk * hv,
            0 <= hv,
            0 <= hk,
            0 <= n,
    ;
    lemma_cell_head(i, hv);
    let row = i / hv;
    lemma_cell_head(row, hk);
    let h = row / hk;
    assert(row < n * hk) by (nonlinear_arith)
        requires
            i == row * hv + i % hv,
            0 <= i % hv,
            i < n * hk * hv,
            0 < hv,
    ;
    assert(h < n) by (nonlinear_arith)
        requires
            row == h * hk + row % hk,
            0 <= row % hk,
            row < n * hk,
            0 < hk,
    ;
}

proof fn lemma_one_column(g: int, c: int, h: int, b: int, hv: int)
    requires
        0 <= b < hv,
        0 <= c < hv,
        0 <= g,
        0 <= h,
        g * hv + c == h * hv + b,
    ensures
        g == h,
        c == b,
{
    lemma_head_cell(g, c, hv);
    lemma_head_cell(h, b, hv);
}

proof fn lemma_shared_place(dims: GdnDims, h: int)
    requires
        consistent(dims),
        0 <= h < dims.n_v_heads,
    ensures
        0 <= h % dims.n_k_heads as int * dims.head_k_dim,
        h % dims.n_k_heads as int * dims.head_k_dim + dims.head_k_dim <= dims.key_dim,
        0 <= h * dims.head_v_dim,
        h * dims.head_v_dim + dims.head_v_dim <= dims.value_dim,
{
    let hk = dims.head_k_dim as int;
    let hv = dims.head_v_dim as int;
    let kh = h % dims.n_k_heads as int;
    assert(0 <= kh * hk && kh * hk + hk <= hk * dims.n_k_heads) by (nonlinear_arith)
        requires
            0 <= kh,
            kh + 1 <= dims.n_k_heads,
            0 <= hk,
    ;
    assert(0 <= h * hv && h * hv + hv <= hv * dims.n_v_heads) by (nonlinear_arith)
        requires
            0 <= h,
            h + 1 <= dims.n_v_heads,
            0 <= hv,
    ;
}

/// One step of the delta rule for column `b` of the state of head `h`: the prediction
/// for the key, the correction, the column after it, and what the query reads from
/// that.
pub fn gdn_recurrence<F: Fn(Calc) -> u32>(
    h: usize,
    b: usize,
    state: &mut Vec<u32>,
    conv_out: &[u32],
    beta: &[u32],
    decay: &[u32],
    out: &mut Vec<u32>,
    dims: &GdnDims,
    scale: u32,
    calc: &F,
)
    requires
        computes(*calc),
        consistent(*dims),
        h < dims.n_v_heads,
        old(state)@.len() == state_len(*dims),
        dims.conv_dim <= conv_out@.len(),
        dims.n_v_heads <= beta@.len(),
        dims.n_v_heads <= decay@.len(),
        dims.value_dim <= old(out)@.len(),
    ensures
        ({
            let m = math(*calc);
            let thread = h * dims.head_v_dim + b;
            let new = stepped(m, old(state)@, conv_out@, beta@, decay@, *dims);
            if b < dims.head_v_dim {
                &&& final(state)@ == patched(old(state)@, new, by_column(*dims), thread)
                &&& final(out)@ == old(out)@.update(
                    thread,
                    column_read(m, scale, new, conv_out@, *dims, h as int, b as int),
                )
            } else {
                final(state)@ == old(state)@ && final(out)@ == old(out)@
            }
        }),
{
    if b >= dims.head_v_dim {
        return;
    }
    let ghost m = math(*calc);
    let ghost d = *dims;
    let ghost before = state@;
    let ghost new = stepped(m, before, conv_out@, beta@, decay@, d);
    let (hk, hv) = (dims.head_k_dim, dims.head_v_dim);
    let cells: usize = state.len();
    let inputs: usize = conv_out.len();
    let outs: usize = out.len();
    proof {
        lemma_shared_place(d, h as int);
    }
    let kh: usize = h % dims.n_k_heads;
    let q_h_start: usize = kh * hk;
    let k_h_start: usize = dims.key_dim + kh * hk;
    let v_h_start: usize = 2 * dims.key_dim + h * hv;
    let ghost keys = key(conv_out@, d, h as int);
    let ghost queries = query(conv_out@, d, h as int);
    let ghost column = state_column(before, d, h as int, b as int);
    let ghost after = state_column(new, d, h as int, b as int);
    if hk == 0 {
        proof {
            assert(state_len(d) == 0) by (nonlinear_arith)
                requires
                    d.head_k_dim == 0,
                    state_len(d) == d.n_v_heads * d.head_k_dim * d.head_v_dim,
            ;
            assert(state@ =~= patched(before, new, by_column(d), h * hv + b));
        }
        out.set(h * hv + b, ZERO);
        return;
    }
    proof {
        lemma_place_of_cell(d, h as int, 0, b as int);
    }
    let state_base: usize = h * hk * hv;
    let mut vpred: u32 = ZERO;
    let mut a: usize = 0;
    proof {
        assert(column.take(0).len() == 0);
    }
    while a < hk
        invariant
            a <= hk,
            m == math(*calc),
            computes(*calc),
            d == *dims,
            hk == d.head_k_dim,
            hv == d.head_v_dim,
            h < d.n_v_heads,
            b < hv,
            state@ == before,
            cells == before.len(),
            cells == state_len(d),
            inputs == conv_out@.len(),
            state_base == h * d.head_k_dim * d.head_v_dim,
            k_h_start + hk <= inputs,
            k_h_start == d.key_dim + h as int % d.n_k_heads as int * hk,
            keys == key(conv_out@, d, h as int),
            column == state_column(before, d, h as int, b as int),
            vpred == fold2(products(m), ZERO, column.take(a as int), keys.take(a as int)),
        decreases hk - a,
    {
        proof {
            lemma_place_of_cell(d, h as int, a as int, b as int);
            assert(column.take(a + 1).drop_last() =~= column.take(a as int));
            assert(keys.take(a + 1).drop_last() =~= keys.take(a as int));
        }
        vpred = make_multiply_add(
            calc,
            vpred,
            state[state_base + a * hv + b],
            conv_out[k_h_start + a],
        );
        a += 1;
    }
    proof {
        assert(column.take(hk as int) =~= column);
        assert(keys.take(hk as int) =~= keys);
        assert(vpred == predicted(m, before, conv_out@, d, h as int, b as int));
    }
    let miss: u32 = make(calc, Calc::Sub(conv_out[v_h_start + b], vpred));
    let delta_b: u32 = make(calc, Calc::Mul(beta[h], miss));
    proof {
        assert(delta_b == correction(m, before, conv_out@, beta@, d, h as int, b as int));
    }
    let mut a: usize = 0;
    while a < hk
        invariant
            a <= hk,
            m == math(*calc),
            computes(*calc),
            d == *dims,
            hk == d.head_k_dim,
            hv == d.head_v_dim,
            h < d.n_v_heads,
            h < decay@.len(),
            b < hv,
            state@.len() == cells,
            cells == before.len(),
            cells == state_len(d),
            inputs == conv_out@.len(),
            state_base == h * d.head_k_dim * d.head_v_dim,
            k_h_start + hk <= inputs,
            k_h_start == d.key_dim + h as int % d.n_k_heads as int * hk,
            keys == key(conv_out@, d, h as int),
            new == stepped(m, before, conv_out@, beta@, decay@, d),
            delta_b == correction(m, before, conv_out@, beta@, d, h as int, b as int),
            forall|i: int|
                0 <= i < cells ==> #[trigger] state@[i] == if cell_head(d, i) == h && cell_column(
                    d,
                    i,
                ) == b && cell_row(d, i) < a {
                    new[i]
                } else {
                    before[i]
                },
        decreases hk - a,
    {
        proof {
            lemma_place_of_cell(d, h as int, a as int, b as int);
        }
        let ghost earlier = state@;
        let idx: usize = state_base + a * hv + b;
        let kept: u32 = make(calc, Calc::Mul(decay[h], state[idx]));
        let taken: u32 = make(calc, Calc::Mul(conv_out[k_h_start + a], delta_b));
        let v: u32 = make(calc, Calc::Add(kept, taken));
        state.set(idx, v);
        proof {
            assert(v == new[idx as int]);
            assert forall|i: int| 0 <= i < cells implies #[trigger] state@[i] == if cell_head(d, i)
                == h && cell_column(d, i) == b && cell_row(d, i) < a + 1 {
                new[i]
            } else {
                before[i]
            } by {
                lemma_cell_of_place(d, i);
                assert(earlier[i] == if cell_head(d, i) == h && cell_column(d, i) == b && cell_row(
                    d,
                    i,
                ) < a {
                    new[i]
                } else {
                    before[i]
                });
            }
        }
        a += 1;
    }
    proof {
        let goal = patched(before, new, by_column(d), h * hv + b);
        assert forall|i: int| 0 <= i < cells implies state@[i] == goal[i] by {
            lemma_cell_of_place(d, i);
            if by_column(d)(i) == h * hv + b {
                lemma_one_column(
                    cell_head(d, i),
                    cell_column(d, i),
                    h as int,
                    b as int,
                    hv as int,
                );
            }
        }
        assert(state@ =~= goal);
        assert forall|a: int| 0 <= a < hk implies #[trigger] after[a] == state@[cell(
            d,
            h as int,
            a,
            b as int,
        )] by {
            lemma_place_of_cell(d, h as int, a, b as int);
        }
        assert(after.take(0).len() == 0);
    }
    let mut acc: u32 = ZERO;
    let mut a: usize = 0;
    while a < hk
        invariant
            a <= hk,
            m == math(*calc),
            computes(*calc),
            d == *dims,
            hk == d.head_k_dim,
            hv == d.head_v_dim,
            h < d.n_v_heads,
            b < hv,
            state@.len() == cells,
            cells == state_len(d),
            inputs == conv_out@.len(),
            state_base == h * d.head_k_dim * d.head_v_dim,
            q_h_start + hk <= inputs,
            q_h_start == h as int % d.n_k_heads as int * hk,
            queries == query(conv_out@, d, h as int),
            after.len() == hk,
            forall|a: int|
                0 <= a < hk ==> #[trigger] after[a] == state@[cell(d, h as int, a, b as int)],
            acc == fold2(readings(m, scale), ZERO, after.take(a as int), queries.take(a as int)),
        decreases hk - a,
    {
        proof {
            lemma_place_of_cell(d, h as int, a as int, b as int);
            assert(after.take(a + 1).drop_last() =~= after.take(a as int));
            assert(queries.take(a + 1).drop_last() =~= queries.take(a as int));
            assert(after[a as int] == state@[cell(d, h as int, a as int, b as int)]);
        }
        let q: u32 = make(calc, Calc::Mul(scale, conv_out[q_h_start + a]));
        let part: u32 = make(calc, Calc::Mul(q, state[state_base + a * hv + b]));
        acc = make(calc, Calc::Add(acc, part));
        a += 1;
    }
    proof {
        assert(after.take(hk as int) =~= after);
        assert(queries.take(hk as int) =~= queries);
    }
    out.set(h * hv + b, acc);
}

/// With the scale of the queries, each thread writes one element of what the queries
/// read from the state.
pub proof fn law_columns_read_the_output(
    m: Math,
    state: Seq<u32>,
    qkv: Seq<u32>,
    dims: GdnDims,
    h: int,
    b: int,
)
    requires
        consistent(dims),
        0 <= h < dims.n_v_heads,
        0 <= b < dims.head_v_dim,
    ensures
        column_read(m, query_scale(m, dims), state, qkv, dims, h, b) == read_out(
            m,
            state,
            qkv,
            dims,
        )[h * dims.head_v_dim + b],
{
    lemma_shared_place(dims, h);
    lemma_head_cell(h, b, dims.head_v_dim as int);
}

} // verus!
